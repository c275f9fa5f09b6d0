//! A map from node ids, kept in the order of the ids.

use vstd::prelude::*;

use crate::proto::NodeId;

verus! {

/// A map from node ids. The entries stand in ascending order of the id, so
/// walking them is deterministic.
#[derive(Debug)]
pub struct IdMap<V> {
    pub entries: Vec<(NodeId, V)>,
}

/// Every id is smaller than those behind it.
pub open spec fn keys_ascend<V>(s: Seq<(NodeId, V)>) -> bool {
    forall|i: int, j: int| 0 <= i < j < s.len() ==> (#[trigger] s[i]).0 < (#[trigger] s[j]).0
}

/// `s` holds an entry for `k`.
pub open spec fn has_key<V>(s: Seq<(NodeId, V)>, k: NodeId) -> bool {
    exists|i: int| 0 <= i < s.len() && (#[trigger] s[i]).0 == k
}

/// The map that a list of entries spells.
pub open spec fn entries_map<V>(s: Seq<(NodeId, V)>) -> Map<NodeId, V> {
    Map::new(
        |k: NodeId| has_key(s, k),
        |k: NodeId| s[choose|i: int| 0 <= i < s.len() && (#[trigger] s[i]).0 == k].1,
    )
}

impl<V> View for IdMap<V> {
    type V = Map<NodeId, V>;

    open spec fn view(&self) -> Map<NodeId, V> {
        entries_map(self.entries@)
    }
}

/// The entry at a position is what the map holds under its id.
pub proof fn lemma_entry<V>(s: Seq<(NodeId, V)>, i: int)
    requires
        keys_ascend(s),
        0 <= i < s.len(),
    ensures
        entries_map(s).dom().contains(s[i].0),
        entries_map(s)[s[i].0] == s[i].1,
{
    let k = s[i].0;
    assert(has_key(s, k));
    let c = choose|c: int| 0 <= c < s.len() && (#[trigger] s[c]).0 == k;
    assert(c == i);
}

/// What the map holds under an id stands at some position.
pub proof fn lemma_key<V>(s: Seq<(NodeId, V)>, k: NodeId) -> (i: int)
    requires
        keys_ascend(s),
        entries_map(s).dom().contains(k),
    ensures
        0 <= i < s.len(),
        s[i].0 == k,
        s[i].1 == entries_map(s)[k],
{
    let i = choose|i: int| 0 <= i < s.len() && (#[trigger] s[i]).0 == k;
    i
}

proof fn lemma_replaced<V>(before: Seq<(NodeId, V)>, i: int, v: V)
    requires
        keys_ascend(before),
        0 <= i < before.len(),
    ensures
        keys_ascend(before.update(i, (before[i].0, v))),
        entries_map(before.update(i, (before[i].0, v))) == entries_map(before).insert(
            before[i].0,
            v,
        ),
        entries_map(before).dom().contains(before[i].0),
        entries_map(before)[before[i].0] == before[i].1,
{
    let k = before[i].0;
    let s = before.update(i, (k, v));
    lemma_entry(before, i);
    assert(keys_ascend(s));
    assert forall|x: NodeId| #[trigger] entries_map(s).dom().contains(x) <==> entries_map(
        before,
    ).insert(k, v).dom().contains(x) by {
        if has_key(before, x) {
            lemma_same_keys(before, s, x);
        }
        if has_key(s, x) {
            lemma_same_keys(s, before, x);
        }
    }
    assert forall|x: NodeId| #[trigger] entries_map(s).dom().contains(x) implies entries_map(s)[x]
        == entries_map(before).insert(k, v)[x] by {
        let j = lemma_key(s, x);
        lemma_entry(before, j);
    }
    assert(entries_map(s) =~= entries_map(before).insert(k, v));
}

proof fn lemma_inserted<V>(before: Seq<(NodeId, V)>, i: int, k: NodeId, v: V)
    requires
        keys_ascend(before),
        0 <= i <= before.len(),
        forall|j: int| 0 <= j < i ==> (#[trigger] before[j]).0 < k,
        forall|j: int| i <= j < before.len() ==> k < (#[trigger] before[j]).0,
    ensures
        keys_ascend(before.insert(i, (k, v))),
        entries_map(before.insert(i, (k, v))) == entries_map(before).insert(k, v),
        !entries_map(before).dom().contains(k),
{
    let s = before.insert(i, (k, v));
    if entries_map(before).dom().contains(k) {
        let j = lemma_key(before, k);
    }
    assert forall|a: int, b: int| 0 <= a < b < s.len() implies (#[trigger] s[a]).0 < (
    #[trigger] s[b]).0 by {
        let x = if a < i { a } else { a - 1 };
        let y = if b < i { b } else { b - 1 };
        if a != i && b != i {
            assert(s[a] == before[x] && s[b] == before[y]);
        } else if a == i {
            assert(s[b] == before[y]);
        } else {
            assert(s[a] == before[x]);
        }
    }
    assert(s[i] == (k, v));
    lemma_entry(s, i);
    assert forall|x: NodeId| #[trigger] entries_map(s).dom().contains(x) <==> entries_map(
        before,
    ).insert(k, v).dom().contains(x) by {
        if entries_map(s).dom().contains(x) && x != k {
            let j = lemma_key(s, x);
            assert(before[if j < i { j } else { j - 1 }] == s[j]);
        }
        if entries_map(before).dom().contains(x) {
            let j = lemma_key(before, x);
            assert(s[if j < i { j } else { j + 1 }] == before[j]);
        }
    }
    assert forall|x: NodeId| #[trigger] entries_map(s).dom().contains(x) implies entries_map(s)[x]
        == entries_map(before).insert(k, v)[x] by {
        let j = lemma_key(s, x);
        if j != i {
            let m = if j < i { j } else { j - 1 };
            assert(before[m] == s[j]);
            lemma_entry(before, m);
        }
    }
    assert(entries_map(s) =~= entries_map(before).insert(k, v));
}

impl<V> IdMap<V> {
    /// The entries are in order.
    pub open spec fn wf(self) -> bool {
        keys_ascend(self.entries@)
    }

    pub fn new() -> (r: IdMap<V>)
        ensures
            r.wf(),
            r@ == Map::<NodeId, V>::empty(),
    {
        let r = IdMap { entries: Vec::new() };
        assert(r@ =~= Map::<NodeId, V>::empty());
        r
    }

    /// The position of the first entry whose id is not below `k`.
    fn rank(&self, k: NodeId) -> (r: usize)
        requires
            self.wf(),
        ensures
            r <= self.entries.len(),
            forall|i: int| 0 <= i < r ==> (#[trigger] self.entries@[i]).0 < k,
            forall|i: int| r <= i < self.entries.len() ==> k <= (#[trigger] self.entries@[i]).0,
    {
        let mut lo: usize = 0;
        let mut hi: usize = self.entries.len();
        while lo < hi
            invariant
                self.wf(),
                lo <= hi <= self.entries.len(),
                forall|i: int| 0 <= i < lo ==> (#[trigger] self.entries@[i]).0 < k,
                forall|i: int|
                    hi <= i < self.entries.len() ==> k <= (#[trigger] self.entries@[i]).0,
            decreases hi - lo,
        {
            let mid: usize = lo + (hi - lo) / 2;
            if self.entries[mid].0 < k {
                lo = mid + 1;
            } else {
                hi = mid;
            }
        }
        lo
    }

    /// The position of the entry for `k`.
    pub fn position(&self, k: NodeId) -> (r: Option<usize>)
        requires
            self.wf(),
        ensures
            match r {
                Some(i) => i < self.entries.len() && self.entries@[i as int].0 == k
                    && self@.dom().contains(k) && self@[k] == self.entries@[i as int].1,
                None => !self@.dom().contains(k),
            },
    {
        let i = self.rank(k);
        if i < self.entries.len() && self.entries[i].0 == k {
            proof {
                lemma_entry(self.entries@, i as int);
            }
            Some(i)
        } else {
            proof {
                if self@.dom().contains(k) {
                    let j = lemma_key(self.entries@, k);
                }
            }
            None
        }
    }

    pub fn contains_key(&self, k: NodeId) -> (r: bool)
        requires
            self.wf(),
        ensures
            r == self@.dom().contains(k),
    {
        self.position(k).is_some()
    }

    pub fn get(&self, k: NodeId) -> (r: Option<&V>)
        requires
            self.wf(),
        ensures
            match r {
                Some(v) => self@.dom().contains(k) && self@[k] == *v,
                None => !self@.dom().contains(k),
            },
    {
        match self.position(k) {
            Some(i) => Some(&self.entries[i].1),
            None => None,
        }
    }

    /// Set the value under `k`. Returns the value that was there.
    pub fn insert(&mut self, k: NodeId, v: V) -> (r: Option<V>)
        requires
            old(self).wf(),
        ensures
            final(self).wf(),
            final(self)@ == old(self)@.insert(k, v),
            r == if old(self)@.dom().contains(k) {
                Some(old(self)@[k])
            } else {
                None
            },
    {
        let ghost before = self.entries@;
        let i = self.rank(k);
        if i < self.entries.len() && self.entries[i].0 == k {
            proof {
                lemma_replaced(before, i as int, v);
            }
            self.entries.insert(i, (k, v));
            let (_, was) = self.entries.remove(i + 1);
            assert(self.entries@ =~= before.update(i as int, (k, v)));
            Some(was)
        } else {
            proof {
                lemma_inserted(before, i as int, k, v);
            }
            self.entries.insert(i, (k, v));
            assert(self.entries@ =~= before.insert(i as int, (k, v)));
            None
        }
    }

    /// Take out the value under `k`.
    pub fn remove(&mut self, k: NodeId) -> (r: Option<V>)
        requires
            old(self).wf(),
        ensures
            final(self).wf(),
            final(self)@ == old(self)@.remove(k),
            r == if old(self)@.dom().contains(k) {
                Some(old(self)@[k])
            } else {
                None
            },
    {
        let ghost before = self.entries@;
        match self.position(k) {
            Some(i) => {
                let (_, was) = self.entries.remove(i);
                let ghost s = self.entries@;
                proof {
                    assert forall|j: int| 0 <= j < s.len() implies (#[trigger] s[j])
                        == before[if j < i { j } else { j + 1 }] by {}
                    assert forall|x: NodeId| #[trigger] entries_map(s).dom().contains(x)
                        <==> entries_map(before).remove(k).dom().contains(x) by {
                        if entries_map(s).dom().contains(x) {
                            let j = lemma_key(s, x);
                            let m = if j < i { j } else { j + 1 };
                            lemma_entry(before, m);
                        }
                        if entries_map(before).dom().contains(x) && x != k {
                            let j = lemma_key(before, x);
                            let m = if j < i { j } else { j - 1 };
                            assert(s[m] == before[j]);
                            lemma_entry(s, m);
                        }
                    }
                    assert forall|x: NodeId| #[trigger] entries_map(s).dom().contains(x) implies
                        entries_map(s)[x] == entries_map(before).remove(k)[x] by {
                        let j = lemma_key(s, x);
                        lemma_entry(before, if j < i { j } else { j + 1 });
                    }
                    assert(self@ =~= old(self)@.remove(k));
                }
                Some(was)
            },
            None => {
                assert(self@ =~= old(self)@.remove(k));
                None
            },
        }
    }

    /// The ids, in order.
    pub fn keys(&self) -> (r: Vec<NodeId>)
        requires
            self.wf(),
        ensures
            r@ == self.entries@.map_values(|e: (NodeId, V)| e.0),
            forall|k: NodeId| #[trigger] r@.contains(k) <==> self@.dom().contains(k),
            forall|i: int, j: int| 0 <= i < j < r@.len() ==> r@[i] < r@[j],
    {
        let mut out: Vec<NodeId> = Vec::new();
        let mut i: usize = 0;
        while i < self.entries.len()
            invariant
                i <= self.entries.len(),
                out.len() == i,
                forall|j: int| 0 <= j < i ==> out@[j] == (#[trigger] self.entries@[j]).0,
            decreases self.entries.len() - i,
        {
            out.push(self.entries[i].0);
            i = i + 1;
        }
        proof {
            let s = self.entries@;
            assert(out@ =~= s.map_values(|e: (NodeId, V)| e.0));
            assert forall|k: NodeId| #[trigger] out@.contains(k) <==> self@.dom().contains(k) by {
                if out@.contains(k) {
                    let j = choose|j: int| 0 <= j < out@.len() && out@[j] == k;
                    lemma_entry(s, j);
                }
                if self@.dom().contains(k) {
                    let j = lemma_key(s, k);
                    assert(out@[j] == k);
                }
            }
            assert forall|a: int, b: int| 0 <= a < b < out@.len() implies out@[a] < out@[b] by {
                assert(s[a].0 < s[b].0);
            }
        }
        out
    }

    pub fn is_empty(&self) -> (r: bool)
        requires
            self.wf(),
        ensures
            r == (self@ == Map::<NodeId, V>::empty()),
    {
        let r = self.entries.len() == 0;
        proof {
            if r {
                assert(self@ =~= Map::<NodeId, V>::empty());
            } else {
                lemma_entry(self.entries@, 0);
            }
        }
        r
    }
}

proof fn lemma_same_keys<V>(a: Seq<(NodeId, V)>, b: Seq<(NodeId, V)>, x: NodeId)
    requires
        a.len() == b.len(),
        forall|i: int| 0 <= i < a.len() ==> (#[trigger] a[i]).0 == b[i].0,
        has_key(a, x),
    ensures
        has_key(b, x),
{
    let i = choose|i: int| 0 <= i < a.len() && (#[trigger] a[i]).0 == x;
    assert(b[i].0 == x);
}

/// The map holds as many ids as there are entries.
pub proof fn lemma_len<V>(s: Seq<(NodeId, V)>)
    requires
        keys_ascend(s),
    ensures
        entries_map(s).dom().finite(),
        entries_map(s).dom().len() == s.len(),
    decreases s.len(),
{
    if s.len() == 0 {
        assert(entries_map(s).dom() =~= Set::<NodeId>::empty());
    } else {
        let d = s.drop_last();
        let (k, v) = s.last();
        assert(keys_ascend(d)) by {
            assert forall|i: int, j: int| 0 <= i < j < d.len() implies (#[trigger] d[i]).0 < (
            #[trigger] d[j]).0 by {
                assert(d[i] == s[i] && d[j] == s[j]);
            }
        }
        assert forall|j: int| 0 <= j < d.len() implies (#[trigger] d[j]).0 < k by {
            assert(d[j] == s[j] && s[s.len() - 1] == s.last());
        }
        lemma_len(d);
        lemma_inserted(d, d.len() as int, k, v);
        assert(d.insert(d.len() as int, (k, v)) =~= s);
        assert(entries_map(s).dom() =~= entries_map(d).dom().insert(k));
    }
}

impl<V> IdMap<V> {
    /// The number of entries.
    pub fn len(&self) -> (r: usize)
        requires
            self.wf(),
        ensures
            r as nat == self@.dom().len(),
    {
        proof {
            lemma_len(self.entries@);
        }
        self.entries.len()
    }
}

} // verus!
