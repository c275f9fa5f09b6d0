//! A map from names, kept in the order of the names.

use vstd::prelude::*;

use crate::text::{
    lemma_text_irreflexive, lemma_text_total, lemma_text_transitive, str_before, str_eq,
    text_before,
};

verus! {

/// A map from names. The entries stand in the order of the names, so walking
/// them is deterministic.
#[derive(Debug)]
pub struct NameMap<V> {
    pub entries: Vec<(String, V)>,
}

/// Every name sorts before those behind it.
pub open spec fn names_ascend<V>(s: Seq<(String, V)>) -> bool {
    forall|i: int, j: int|
        0 <= i < j < s.len() ==> text_before((#[trigger] s[i]).0@, (#[trigger] s[j]).0@)
}

/// `s` holds an entry for `k`.
pub open spec fn has_name<V>(s: Seq<(String, V)>, k: Seq<char>) -> bool {
    exists|i: int| 0 <= i < s.len() && (#[trigger] s[i]).0@ == k
}

/// A position at which `k` stands, if it stands anywhere.
pub open spec fn name_place<V>(s: Seq<(String, V)>, k: Seq<char>) -> int {
    choose|i: int| 0 <= i < s.len() && (#[trigger] s[i]).0@ == k
}

/// The map that a list of entries spells.
pub open spec fn names_map<V>(s: Seq<(String, V)>) -> Map<Seq<char>, V> {
    Map::new(
        |k: Seq<char>| has_name(s, k),
        |k: Seq<char>| s[name_place(s, k)].1,
    )
}

impl<V> View for NameMap<V> {
    type V = Map<Seq<char>, V>;

    open spec fn view(&self) -> Map<Seq<char>, V> {
        names_map(self.entries@)
    }
}

/// No name stands twice.
pub proof fn lemma_distinct<V>(s: Seq<(String, V)>, i: int, j: int)
    requires
        names_ascend(s),
        0 <= i < s.len(),
        0 <= j < s.len(),
        s[i].0@ == s[j].0@,
    ensures
        i == j,
{
    lemma_text_irreflexive(s[i].0@);
    if i < j {
        assert(text_before(s[i].0@, s[j].0@));
    } else if j < i {
        assert(text_before(s[j].0@, s[i].0@));
    }
}

/// The entry at a position is what the map holds under its name.
pub proof fn lemma_named_entry<V>(s: Seq<(String, V)>, i: int)
    requires
        names_ascend(s),
        0 <= i < s.len(),
    ensures
        names_map(s).dom().contains(s[i].0@),
        names_map(s)[s[i].0@] == s[i].1,
{
    let k = s[i].0@;
    assert(has_name(s, k));
    lemma_distinct(s, name_place(s, k), i);
}

/// What the map holds under a name stands at some position.
pub proof fn lemma_name_key<V>(s: Seq<(String, V)>, k: Seq<char>) -> (i: int)
    requires
        names_ascend(s),
        names_map(s).dom().contains(k),
    ensures
        0 <= i < s.len(),
        s[i].0@ == k,
        s[i].1 == names_map(s)[k],
{
    assert(has_name(s, k));
    name_place(s, k)
}

/// Lists in order that hold the same names hold them at the same positions.
pub proof fn lemma_same_names<V>(a: Seq<(String, V)>, b: Seq<(String, V)>)
    requires
        names_ascend(a),
        names_ascend(b),
        forall|k: Seq<char>| #[trigger] has_name(a, k) <==> has_name(b, k),
    ensures
        a.len() == b.len(),
        forall|i: int| 0 <= i < a.len() ==> (#[trigger] a[i]).0@ == b[i].0@,
    decreases a.len(),
{
    if a.len() == 0 || b.len() == 0 {
        if a.len() > 0 {
            assert(has_name(a, a[0].0@));
        }
        if b.len() > 0 {
            assert(has_name(b, b[0].0@));
            assert(has_name(a, b[0].0@));
        }
    } else {
        let (x, y) = (a[a.len() - 1].0@, b[b.len() - 1].0@);
        let (c, d) = (a.drop_last(), b.drop_last());
        assert(has_name(a, x));
        assert(has_name(b, y));
        assert(has_name(a, y));
        let j = choose|j: int| 0 <= j < b.len() && (#[trigger] b[j]).0@ == x;
        let i = choose|i: int| 0 <= i < a.len() && (#[trigger] a[i]).0@ == y;
        if x != y {
            assert(text_before(b[j].0@, b[b.len() - 1].0@));
            assert(text_before(a[i].0@, a[a.len() - 1].0@));
            crate::text::lemma_text_transitive(x, y, x);
            lemma_text_irreflexive(x);
        }
        assert forall|k: Seq<char>| #[trigger] has_name(c, k) <==> has_name(d, k) by {
            assert(has_name(a, k) <==> has_name(b, k));
            if has_name(c, k) {
                let m = choose|m: int| 0 <= m < c.len() && (#[trigger] c[m]).0@ == k;
                assert(a[m].0@ == k);
                if k == x {
                    lemma_distinct(a, m, a.len() - 1);
                }
                let n = choose|n: int| 0 <= n < b.len() && (#[trigger] b[n]).0@ == k;
                assert(d[n].0@ == k);
            }
            if has_name(d, k) {
                let m = choose|m: int| 0 <= m < d.len() && (#[trigger] d[m]).0@ == k;
                assert(b[m].0@ == k);
                if k == y {
                    lemma_distinct(b, m, b.len() - 1);
                }
                let n = choose|n: int| 0 <= n < a.len() && (#[trigger] a[n]).0@ == k;
                assert(c[n].0@ == k);
            }
        }
        lemma_same_names(c, d);
        assert forall|i: int| 0 <= i < a.len() implies (#[trigger] a[i]).0@ == b[i].0@ by {
            if i < c.len() {
                assert(c[i].0@ == d[i].0@);
            }
        }
    }
}

/// Replacing the value under a name changes the map there and nowhere else.
pub proof fn lemma_name_replaced<V>(before: Seq<(String, V)>, i: int, e: (String, V))
    requires
        names_ascend(before),
        0 <= i < before.len(),
        e.0@ == before[i].0@,
    ensures
        names_ascend(before.update(i, e)),
        names_map(before.update(i, e)) == names_map(before).insert(e.0@, e.1),
        names_map(before).dom().contains(e.0@),
        names_map(before)[e.0@] == before[i].1,
{
    let k = e.0@;
    let s = before.update(i, e);
    lemma_named_entry(before, i);
    assert(names_ascend(s));
    assert forall|x: Seq<char>| #[trigger] names_map(s).dom().contains(x) <==> names_map(
        before,
    ).insert(k, e.1).dom().contains(x) by {
        if has_name(before, x) {
            let j = choose|j: int| 0 <= j < before.len() && (#[trigger] before[j]).0@ == x;
            assert(s[j].0@ == x);
        }
        if has_name(s, x) {
            let j = choose|j: int| 0 <= j < s.len() && (#[trigger] s[j]).0@ == x;
            assert(before[j].0@ == x);
        }
    }
    assert forall|x: Seq<char>| #[trigger] names_map(s).dom().contains(x) implies names_map(s)[x]
        == names_map(before).insert(k, e.1)[x] by {
        let j = lemma_name_key(s, x);
        lemma_named_entry(before, j);
        if x == k {
            lemma_distinct(before, i, j);
        }
    }
    assert(names_map(s) =~= names_map(before).insert(k, e.1));
}

proof fn lemma_name_inserted<V>(before: Seq<(String, V)>, i: int, e: (String, V))
    requires
        names_ascend(before),
        0 <= i <= before.len(),
        forall|j: int| 0 <= j < i ==> text_before((#[trigger] before[j]).0@, e.0@),
        forall|j: int| i <= j < before.len() ==> text_before(e.0@, (#[trigger] before[j]).0@),
    ensures
        names_ascend(before.insert(i, e)),
        names_map(before.insert(i, e)) == names_map(before).insert(e.0@, e.1),
        !names_map(before).dom().contains(e.0@),
{
    let k = e.0@;
    let s = before.insert(i, e);
    lemma_text_irreflexive(k);
    if names_map(before).dom().contains(k) {
        let j = lemma_name_key(before, k);
    }
    assert forall|a: int, b: int| 0 <= a < b < s.len() implies text_before(
        (#[trigger] s[a]).0@,
        (#[trigger] s[b]).0@,
    ) by {
        let x = if a < i { a } else { a - 1 };
        let y = if b < i { b } else { b - 1 };
        if a != i && b != i {
            assert(s[a] == before[x] && s[b] == before[y]);
        } else if a == i {
            assert(s[b] == before[y]);
        } else {
            assert(s[a] == before[x]);
        }
    }
    assert(s[i] == e);
    lemma_named_entry(s, i);
    assert forall|x: Seq<char>| #[trigger] names_map(s).dom().contains(x) <==> names_map(
        before,
    ).insert(k, e.1).dom().contains(x) by {
        if names_map(s).dom().contains(x) && x != k {
            let j = lemma_name_key(s, x);
            assert(before[if j < i { j } else { j - 1 }] == s[j]);
        }
        if names_map(before).dom().contains(x) {
            let j = lemma_name_key(before, x);
            assert(s[if j < i { j } else { j + 1 }] == before[j]);
        }
    }
    assert forall|x: Seq<char>| #[trigger] names_map(s).dom().contains(x) implies names_map(s)[x]
        == names_map(before).insert(k, e.1)[x] by {
        let j = lemma_name_key(s, x);
        if j != i {
            let m = if j < i { j } else { j - 1 };
            assert(before[m] == s[j]);
            lemma_named_entry(before, m);
        } else {
            assert(x == k);
        }
    }
    assert(names_map(s) =~= names_map(before).insert(k, e.1));
}

/// The entries with `v` under `k`.
pub open spec fn with_name<V>(s: Seq<(String, V)>, k: String, v: V) -> Seq<(String, V)>
    decreases s.len(),
{
    if s.len() == 0 || text_before(s.last().0@, k@) {
        s.push((k, v))
    } else if s.last().0@ == k@ {
        s.drop_last().push((k, v))
    } else {
        with_name(s.drop_last(), k, v).push(s.last())
    }
}

/// The entries without the one for `k`.
pub open spec fn without_name<V>(s: Seq<(String, V)>, k: Seq<char>) -> Seq<(String, V)>
    decreases s.len(),
{
    if s.len() == 0 {
        s
    } else if s.last().0@ == k {
        without_name(s.drop_last(), k)
    } else {
        without_name(s.drop_last(), k).push(s.last())
    }
}

proof fn lemma_with_name<V>(s: Seq<(String, V)>, k: String, v: V, i: int)
    requires
        names_ascend(s),
        0 <= i <= s.len(),
        forall|j: int| 0 <= j < i ==> text_before((#[trigger] s[j]).0@, k@),
        i < s.len() ==> !text_before(s[i].0@, k@),
    ensures
        with_name(s, k, v) == if i < s.len() && s[i].0@ == k@ {
            s.update(i, (k, v))
        } else {
            s.insert(i, (k, v))
        },
    decreases s.len(),
{
    let e = (k, v);
    if i == s.len() {
        assert(s.insert(i, e) =~= s.push(e));
    } else {
        let d = s.drop_last();
        let n = s.len() - 1;
        lemma_text_irreflexive(k@);
        if i == n {
            if s[i].0@ == k@ {
                assert(s.update(i, e) =~= d.push(e));
            } else {
                lemma_with_name(d, k, v, i);
                assert(s.insert(i, e) =~= d.insert(i, e).push(s.last()));
            }
        } else {
            assert(text_before(s[i].0@, s[n].0@));
            if s[i].0@ != k@ {
                lemma_text_total(s[i].0@, k@);
                lemma_text_transitive(k@, s[i].0@, s[n].0@);
            }
            if text_before(s[n].0@, k@) {
                lemma_text_transitive(k@, s[n].0@, k@);
            }
            lemma_with_name(d, k, v, i);
            if s[i].0@ == k@ {
                assert(s.update(i, e) =~= d.update(i, e).push(s.last()));
            } else {
                assert(s.insert(i, e) =~= d.insert(i, e).push(s.last()));
            }
        }
    }
}

proof fn lemma_without_name<V>(s: Seq<(String, V)>, k: Seq<char>, i: int)
    requires
        names_ascend(s),
        0 <= i < s.len(),
        s[i].0@ == k,
    ensures
        without_name(s, k) == s.remove(i),
    decreases s.len(),
{
    let d = s.drop_last();
    if i == s.len() - 1 {
        assert forall|j: int| 0 <= j < d.len() implies (#[trigger] d[j]).0@ != k by {
            if d[j].0@ == k {
                lemma_distinct(s, i, j);
            }
        }
        lemma_without_absent(d, k);
        assert(s.remove(i) =~= d);
    } else {
        if s.last().0@ == k {
            lemma_distinct(s, i, s.len() - 1);
        }
        lemma_without_name(d, k, i);
        assert(s.remove(i) =~= d.remove(i).push(s.last()));
    }
}

proof fn lemma_without_absent<V>(s: Seq<(String, V)>, k: Seq<char>)
    requires
        forall|j: int| 0 <= j < s.len() ==> (#[trigger] s[j]).0@ != k,
    ensures
        without_name(s, k) == s,
    decreases s.len(),
{
    if s.len() > 0 {
        let d = s.drop_last();
        assert forall|j: int| 0 <= j < d.len() implies (#[trigger] d[j]).0@ != k by {
            assert(d[j] == s[j]);
        }
        lemma_without_absent(d, k);
        assert(s =~= d.push(s.last()));
    }
}

pub proof fn lemma_name_removed<V>(before: Seq<(String, V)>, i: int)
    requires
        names_ascend(before),
        0 <= i < before.len(),
    ensures
        names_ascend(before.remove(i)),
        names_map(before.remove(i)) == names_map(before).remove(before[i].0@),
{
    let k = before[i].0@;
    let s = before.remove(i);
    assert forall|j: int| 0 <= j < s.len() implies (#[trigger] s[j]) == before[if j < i {
        j
    } else {
        j + 1
    }] by {}
    assert forall|x: Seq<char>| #[trigger] names_map(s).dom().contains(x) <==> names_map(
        before,
    ).remove(k).dom().contains(x) by {
        if names_map(s).dom().contains(x) {
            let j = lemma_name_key(s, x);
            let m = if j < i { j } else { j + 1 };
            lemma_named_entry(before, m);
            if x == k {
                lemma_distinct(before, m, i);
            }
        }
        if names_map(before).dom().contains(x) && x != k {
            let j = lemma_name_key(before, x);
            let m = if j < i { j } else { j - 1 };
            assert(s[m] == before[j]);
            lemma_named_entry(s, m);
        }
    }
    assert forall|x: Seq<char>| #[trigger] names_map(s).dom().contains(x) implies names_map(s)[x]
        == names_map(before).remove(k)[x] by {
        let j = lemma_name_key(s, x);
        lemma_named_entry(before, if j < i { j } else { j + 1 });
    }
    assert(names_map(s) =~= names_map(before).remove(k));
}

impl<V> NameMap<V> {
    /// The entries are in order.
    pub open spec fn wf(self) -> bool {
        names_ascend(self.entries@)
    }

    /// What the map holds under a name.
    pub open spec fn at(self, k: Seq<char>) -> Option<V> {
        if self@.dom().contains(k) {
            Some(self@[k])
        } else {
            None
        }
    }

    pub fn new() -> (r: NameMap<V>)
        ensures
            r.wf(),
            r@ == Map::<Seq<char>, V>::empty(),
            r.entries@ == Seq::<(String, V)>::empty(),
    {
        let r = NameMap { entries: Vec::new() };
        assert(r@ =~= Map::<Seq<char>, V>::empty());
        r
    }

    /// The position of the entry for `k`.
    pub fn position(&self, k: &str) -> (r: Option<usize>)
        requires
            self.wf(),
        ensures
            match r {
                Some(i) => i < self.entries.len() && self.entries@[i as int].0@ == k@
                    && self@.dom().contains(k@) && self@[k@] == self.entries@[i as int].1,
                None => !self@.dom().contains(k@),
            },
    {
        let mut i: usize = 0;
        while i < self.entries.len()
            invariant
                i <= self.entries.len(),
                self.wf(),
                forall|j: int| 0 <= j < i ==> (#[trigger] self.entries@[j]).0@ != k@,
            decreases self.entries.len() - i,
        {
            if str_eq(self.entries[i].0.as_str(), k) {
                proof {
                    lemma_named_entry(self.entries@, i as int);
                }
                return Some(i);
            }
            i = i + 1;
        }
        None
    }

    pub fn contains_key(&self, k: &str) -> (r: bool)
        requires
            self.wf(),
        ensures
            r == self@.dom().contains(k@),
    {
        self.position(k).is_some()
    }

    pub fn get(&self, k: &str) -> (r: Option<&V>)
        requires
            self.wf(),
        ensures
            match r {
                Some(v) => self@.dom().contains(k@) && self@[k@] == *v,
                None => !self@.dom().contains(k@),
            },
    {
        match self.position(k) {
            Some(i) => Some(&self.entries[i].1),
            None => None,
        }
    }

    /// Set the value under `k`. Returns the value that was there.
    pub fn insert(&mut self, k: String, v: V) -> (r: Option<V>)
        requires
            old(self).wf(),
        ensures
            final(self).wf(),
            final(self)@ == old(self)@.insert(k@, v),
            final(self).entries@ == with_name(old(self).entries@, k, v),
            r == old(self).at(k@),
    {
        let ghost before = self.entries@;
        let mut i: usize = 0;
        while i < self.entries.len() && str_before(self.entries[i].0.as_str(), k.as_str())
            invariant
                i <= self.entries.len(),
                self.entries@ == before,
                forall|j: int| 0 <= j < i ==> text_before((#[trigger] before[j]).0@, k@),
            decreases self.entries.len() - i,
        {
            i = i + 1;
        }
        proof {
            lemma_with_name(before, k, v, i as int);
        }
        if i < self.entries.len() && str_eq(self.entries[i].0.as_str(), k.as_str()) {
            let ghost e = (k, v);
            proof {
                lemma_name_replaced(before, i as int, e);
            }
            self.entries.insert(i, (k, v));
            let (_, was) = self.entries.remove(i + 1);
            assert(self.entries@ =~= before.update(i as int, e));
            Some(was)
        } else {
            let ghost e = (k, v);
            proof {
                assert forall|j: int| i <= j < before.len() implies text_before(
                    k@,
                    (#[trigger] before[j]).0@,
                ) by {
                    lemma_text_total(k@, before[i as int].0@);
                    if j > i {
                        lemma_text_transitive(k@, before[i as int].0@, before[j].0@);
                    }
                }
                lemma_name_inserted(before, i as int, e);
            }
            self.entries.insert(i, (k, v));
            assert(self.entries@ =~= before.insert(i as int, e));
            None
        }
    }

    /// Take out the value under `k`.
    pub fn remove(&mut self, k: &str) -> (r: Option<V>)
        requires
            old(self).wf(),
        ensures
            final(self).wf(),
            final(self)@ == old(self)@.remove(k@),
            final(self).entries@ == without_name(old(self).entries@, k@),
            r == old(self).at(k@),
    {
        let ghost before = self.entries@;
        match self.position(k) {
            Some(i) => {
                proof {
                    lemma_name_removed(before, i as int);
                    lemma_without_name(before, k@, i as int);
                }
                let (_, was) = self.entries.remove(i);
                assert(self.entries@ =~= before.remove(i as int));
                Some(was)
            },
            None => {
                proof {
                    assert forall|j: int| 0 <= j < before.len() implies (#[trigger] before[j]).0@
                        != k@ by {
                        lemma_named_entry(before, j);
                    }
                    lemma_without_absent(before, k@);
                }
                assert(self@ =~= old(self)@.remove(k@));
                None
            },
        }
    }
}

} // verus!
