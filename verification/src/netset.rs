//! Sets of addresses and of prefixes, kept in order.

use vstd::prelude::*;

use crate::net::{IpAddr, IpNet};

verus! {

/// A value with a total order.
pub trait Ranked: Sized + Copy {
    /// Does this value come before `other`?
    spec fn lower(self, other: Self) -> bool;

    proof fn lower_irreflexive(a: Self)
        ensures
            !a.lower(a),
    ;

    proof fn lower_transitive(a: Self, b: Self, c: Self)
        requires
            a.lower(b),
            b.lower(c),
        ensures
            a.lower(c),
    ;

    proof fn lower_total(a: Self, b: Self)
        ensures
            a.lower(b) || a == b || b.lower(a),
    ;

    fn is_lower(&self, other: &Self) -> (r: bool)
        ensures
            r == self.lower(*other),
    ;

    fn is_same(&self, other: &Self) -> (r: bool)
        ensures
            r == (*self == *other),
    ;
}

impl Ranked for IpAddr {
    open spec fn lower(self, other: IpAddr) -> bool {
        self.before(other)
    }

    proof fn lower_irreflexive(a: IpAddr) {
    }

    proof fn lower_transitive(a: IpAddr, b: IpAddr, c: IpAddr) {
    }

    proof fn lower_total(a: IpAddr, b: IpAddr) {
    }

    fn is_lower(&self, other: &IpAddr) -> (r: bool) {
        self.is_before(other)
    }

    fn is_same(&self, other: &IpAddr) -> (r: bool) {
        *self == *other
    }
}

impl Ranked for IpNet {
    open spec fn lower(self, other: IpNet) -> bool {
        self.before(other)
    }

    proof fn lower_irreflexive(a: IpNet) {
    }

    proof fn lower_transitive(a: IpNet, b: IpNet, c: IpNet) {
    }

    proof fn lower_total(a: IpNet, b: IpNet) {
    }

    fn is_lower(&self, other: &IpNet) -> (r: bool) {
        self.is_before(other)
    }

    fn is_same(&self, other: &IpNet) -> (r: bool) {
        *self == *other
    }
}

/// Every item comes before those behind it.
pub open spec fn ascending<T: Ranked>(s: Seq<T>) -> bool {
    forall|i: int, j: int| 0 <= i < j < s.len() ==> (#[trigger] s[i]).lower(#[trigger] s[j])
}

/// A set in order with `x` in it.
pub open spec fn with_item<T: Ranked>(s: Seq<T>, x: T) -> Seq<T>
    decreases s.len(),
{
    if s.len() == 0 || s.last().lower(x) {
        s.push(x)
    } else if s.last() == x {
        s
    } else {
        with_item(s.drop_last(), x).push(s.last())
    }
}

/// The items of a list, each once, in order.
pub open spec fn gathered<T: Ranked>(s: Seq<T>) -> Seq<T>
    decreases s.len(),
{
    if s.len() == 0 {
        s
    } else {
        with_item(gathered(s.drop_last()), s.last())
    }
}

/// What is in `a` and not in `b`.
pub open spec fn minus<T>(a: Seq<T>, b: Seq<T>) -> Seq<T>
    decreases a.len(),
{
    if a.len() == 0 {
        a
    } else if b.contains(a.last()) {
        minus(a.drop_last(), b)
    } else {
        minus(a.drop_last(), b).push(a.last())
    }
}

/// What is in both, as it stands in `a`.
pub open spec fn common<T>(a: Seq<T>, b: Seq<T>) -> Seq<T>
    decreases a.len(),
{
    if a.len() == 0 {
        a
    } else if b.contains(a.last()) {
        common(a.drop_last(), b).push(a.last())
    } else {
        common(a.drop_last(), b)
    }
}

proof fn lemma_ascending_front<T: Ranked>(s: Seq<T>)
    requires
        ascending(s),
        s.len() > 0,
    ensures
        ascending(s.drop_last()),
        forall|i: int| 0 <= i < s.len() - 1 ==> (#[trigger] s[i]).lower(s.last()),
        !s.drop_last().contains(s.last()),
{
    let d = s.drop_last();
    assert forall|i: int, j: int| 0 <= i < j < d.len() implies (#[trigger] d[i]).lower(
        #[trigger] d[j],
    ) by {
        assert(d[i] == s[i] && d[j] == s[j]);
    }
    if d.contains(s.last()) {
        let i = choose|i: int| 0 <= i < d.len() && d[i] == s.last();
        assert(s[i].lower(s[s.len() - 1]));
        T::lower_irreflexive(s.last());
    }
}

/// Adding an item keeps the order, and adds that item alone.
pub proof fn lemma_with_item<T: Ranked>(s: Seq<T>, x: T)
    requires
        ascending(s),
    ensures
        ascending(with_item(s, x)),
        forall|y: T| #[trigger] with_item(s, x).contains(y) <==> s.contains(y) || y == x,
    decreases s.len(),
{
    let t = with_item(s, x);
    if s.len() == 0 || s.last().lower(x) {
        assert forall|i: int, j: int| 0 <= i < j < t.len() implies (#[trigger] t[i]).lower(
            #[trigger] t[j],
        ) by {
            if j == s.len() && i < s.len() - 1 {
                assert(s[i].lower(s[s.len() - 1]));
                T::lower_transitive(s[i], s.last(), x);
            }
        }
        assert forall|y: T| #[trigger] t.contains(y) <==> s.contains(y) || y == x by {
            if s.contains(y) {
                let i = choose|i: int| 0 <= i < s.len() && s[i] == y;
                assert(t[i] == y);
            }
            assert(t[s.len() as int] == x);
        }
    } else if s.last() == x {
        assert(s[s.len() - 1] == x);
    } else {
        let d = s.drop_last();
        lemma_ascending_front(s);
        lemma_with_item(d, x);
        let u = with_item(d, x);
        T::lower_total(s.last(), x);
        assert forall|i: int, j: int| 0 <= i < j < t.len() implies (#[trigger] t[i]).lower(
            #[trigger] t[j],
        ) by {
            if j == u.len() {
                assert(u.contains(u[i]));
                if u[i] != x {
                    let k = choose|k: int| 0 <= k < d.len() && d[k] == u[i];
                    assert(s[k].lower(s.last()));
                }
            }
        }
        assert forall|y: T| #[trigger] t.contains(y) <==> s.contains(y) || y == x by {
            if s.contains(y) {
                let i = choose|i: int| 0 <= i < s.len() && s[i] == y;
                if i < d.len() {
                    assert(d[i] == y);
                    assert(u.contains(y));
                    let k = choose|k: int| 0 <= k < u.len() && u[k] == y;
                    assert(t[k] == y);
                } else {
                    assert(t[u.len() as int] == y);
                }
            }
            if y == x {
                assert(u.contains(y));
                let k = choose|k: int| 0 <= k < u.len() && u[k] == y;
                assert(t[k] == y);
            }
            if t.contains(y) {
                let k = choose|k: int| 0 <= k < t.len() && t[k] == y;
                if k < u.len() {
                    assert(u.contains(u[k]));
                    if y != x {
                        let i = choose|i: int| 0 <= i < d.len() && d[i] == y;
                        assert(s[i] == y);
                    }
                } else {
                    assert(s[s.len() - 1] == y);
                }
            }
        }
    }
}

/// The items of a list in order are those of the list.
pub proof fn lemma_gathered<T: Ranked>(s: Seq<T>)
    ensures
        ascending(gathered(s)),
        forall|y: T| #[trigger] gathered(s).contains(y) <==> s.contains(y),
    decreases s.len(),
{
    if s.len() > 0 {
        let d = s.drop_last();
        lemma_gathered(d);
        lemma_with_item(gathered(d), s.last());
        assert forall|y: T| #[trigger] gathered(s).contains(y) <==> s.contains(y) by {
            if s.contains(y) {
                let i = choose|i: int| 0 <= i < s.len() && s[i] == y;
                if i < d.len() {
                    assert(d[i] == y);
                    assert(d.contains(y));
                    assert(gathered(d).contains(y));
                }
            }
            if d.contains(y) {
                let i = choose|i: int| 0 <= i < d.len() && d[i] == y;
                assert(s[i] == y);
            }
            if gathered(d).contains(y) {
                assert(d.contains(y));
            }
            assert(s[s.len() - 1] == s.last());
        }
    }
}

/// What is left of a set in order is in order, and is what is in the one and
/// not in the other.
pub proof fn lemma_minus<T: Ranked>(a: Seq<T>, b: Seq<T>)
    requires
        ascending(a),
    ensures
        ascending(minus(a, b)),
        forall|y: T| #[trigger] minus(a, b).contains(y) <==> a.contains(y) && !b.contains(y),
    decreases a.len(),
{
    if a.len() > 0 {
        let d = a.drop_last();
        lemma_ascending_front(a);
        lemma_minus(d, b);
        let t = minus(d, b);
        lemma_grown(a, d, t, |y: T| !b.contains(y), minus(a, b));
    }
}

/// What two sets have in common is in order, and is what is in both.
pub proof fn lemma_common<T: Ranked>(a: Seq<T>, b: Seq<T>)
    requires
        ascending(a),
    ensures
        ascending(common(a, b)),
        forall|y: T| #[trigger] common(a, b).contains(y) <==> a.contains(y) && b.contains(y),
    decreases a.len(),
{
    if a.len() > 0 {
        let d = a.drop_last();
        lemma_ascending_front(a);
        lemma_common(d, b);
        let t = common(d, b);
        lemma_grown(a, d, t, |y: T| b.contains(y), common(a, b));
    }
}

proof fn lemma_grown<T: Ranked>(a: Seq<T>, d: Seq<T>, t: Seq<T>, keep: spec_fn(T) -> bool, u: Seq<T>)
    requires
        a.len() > 0,
        ascending(a),
        d == a.drop_last(),
        ascending(t),
        forall|y: T| #[trigger] t.contains(y) <==> d.contains(y) && keep(y),
        u == if keep(a.last()) {
            t.push(a.last())
        } else {
            t
        },
    ensures
        ascending(u),
        forall|y: T| #[trigger] u.contains(y) <==> a.contains(y) && keep(y),
{
    let x = a.last();
    lemma_ascending_front(a);
    assert forall|i: int, j: int| 0 <= i < j < u.len() implies (#[trigger] u[i]).lower(
        #[trigger] u[j],
    ) by {
        if j == t.len() {
            assert(t.contains(t[i]));
            let k = choose|k: int| 0 <= k < d.len() && d[k] == t[i];
            assert(a[k].lower(x));
        }
    }
    assert forall|y: T| #[trigger] u.contains(y) <==> a.contains(y) && keep(y) by {
        if a.contains(y) && keep(y) {
            let i = choose|i: int| 0 <= i < a.len() && a[i] == y;
            if i < d.len() {
                assert(d[i] == y);
                assert(d.contains(y));
                assert(t.contains(y));
                let k = choose|k: int| 0 <= k < t.len() && t[k] == y;
                assert(u[k] == y);
            } else {
                assert(u[t.len() as int] == y);
            }
        }
        if u.contains(y) {
            let k = choose|k: int| 0 <= k < u.len() && u[k] == y;
            if k < t.len() {
                assert(t.contains(t[k]));
                let i = choose|i: int| 0 <= i < d.len() && d[i] == y;
                assert(a[i] == y);
            } else {
                assert(a[a.len() - 1] == y);
            }
        }
    }
}

/// A set in order is fixed by what is in it.
pub proof fn lemma_same_items<T: Ranked>(a: Seq<T>, b: Seq<T>)
    requires
        ascending(a),
        ascending(b),
        forall|y: T| #[trigger] a.contains(y) <==> b.contains(y),
    ensures
        a == b,
    decreases a.len(),
{
    if a.len() == 0 {
        if b.len() > 0 {
            assert(b.contains(b[0]));
            assert(a.contains(b[0]));
        }
        assert(a =~= b);
    } else {
        assert(a.contains(a[a.len() - 1]));
        assert(b.contains(a.last()));
        let x = a.last();
        let z = b.last();
        assert(b.contains(b[b.len() - 1]));
        assert(a.contains(z));
        lemma_ascending_front(a);
        lemma_ascending_front(b);
        if x != z {
            let i = choose|i: int| 0 <= i < b.len() && b[i] == x;
            assert(b[i].lower(z));
            let j = choose|j: int| 0 <= j < a.len() && a[j] == z;
            assert(a[j].lower(x));
            T::lower_transitive(x, z, x);
            T::lower_irreflexive(x);
        }
        let da = a.drop_last();
        let db = b.drop_last();
        assert forall|y: T| #[trigger] da.contains(y) <==> db.contains(y) by {
            if da.contains(y) {
                let i = choose|i: int| 0 <= i < da.len() && da[i] == y;
                assert(a[i] == y);
                assert(a.contains(y));
                assert(b.contains(y));
                let k = choose|k: int| 0 <= k < b.len() && b[k] == y;
                if k < db.len() {
                    assert(db[k] == y);
                }
            }
            if db.contains(y) {
                let i = choose|i: int| 0 <= i < db.len() && db[i] == y;
                assert(b[i] == y);
                assert(b.contains(y));
                assert(a.contains(y));
                let k = choose|k: int| 0 <= k < a.len() && a[k] == y;
                if k < da.len() {
                    assert(da[k] == y);
                }
            }
        }
        lemma_same_items(da, db);
        assert(a =~= da.push(x));
        assert(b =~= db.push(z));
    }
}

/// Is `x` in the list?
pub fn has_item<T: Ranked>(v: &Vec<T>, x: &T) -> (r: bool)
    ensures
        r == v@.contains(*x),
{
    let mut i: usize = 0;
    while i < v.len()
        invariant
            i <= v@.len(),
            forall|k: int| 0 <= k < i ==> v@[k] != *x,
        decreases v.len() - i,
    {
        if v[i].is_same(x) {
            assert(v@[i as int] == *x);
            return true;
        }
        i = i + 1;
    }
    false
}

/// Put `x` into a set in order.
pub fn put_item<T: Ranked>(v: &mut Vec<T>, x: T)
    ensures
        final(v)@ == with_item(old(v)@, x),
{
    let ghost s = v@;
    let mut i: usize = v.len();
    assert(s.take(i as int) =~= s);
    assert(s.skip(i as int) =~= Seq::empty());
    assert(with_item(s, x) =~= with_item(s.take(i as int), x) + s.skip(i as int));
    while i > 0 && !v[i - 1].is_lower(&x) && !v[i - 1].is_same(&x)
        invariant
            i <= v@.len(),
            v@ == s,
            with_item(s, x) == with_item(s.take(i as int), x) + s.skip(i as int),
        decreases i,
    {
        let ghost t = s.take(i as int);
        assert(t.last() == s[i - 1]);
        assert(t.drop_last() =~= s.take(i - 1));
        assert(with_item(t.drop_last(), x).push(t.last()) + s.skip(i as int) =~= with_item(
            t.drop_last(),
            x,
        ) + s.skip(i - 1));
        i = i - 1;
    }
    if i > 0 {
        assert(s.take(i as int).last() == s[i - 1]);
    }
    if i > 0 && v[i - 1].is_same(&x) && !v[i - 1].is_lower(&x) {
        assert(s.take(i as int) + s.skip(i as int) =~= s);
        return ;
    }
    v.insert(i, x);
    assert(v@ =~= s.take(i as int).push(x) + s.skip(i as int));
}

/// The items of a list, each once, in order.
pub fn gather<T: Ranked>(v: &Vec<T>) -> (r: Vec<T>)
    ensures
        r@ == gathered(v@),
{
    let mut out: Vec<T> = Vec::new();
    let mut i: usize = 0;
    assert(v@.take(0) =~= Seq::empty());
    while i < v.len()
        invariant
            i <= v@.len(),
            out@ == gathered(v@.take(i as int)),
        decreases v.len() - i,
    {
        assert(v@.take(i + 1).drop_last() =~= v@.take(i as int));
        put_item(&mut out, v[i]);
        i = i + 1;
    }
    assert(v@.take(i as int) =~= v@);
    out
}

/// What is in `a` and not in `b`.
pub fn subtract<T: Ranked>(a: &Vec<T>, b: &Vec<T>) -> (r: Vec<T>)
    ensures
        r@ == minus(a@, b@),
{
    let mut out: Vec<T> = Vec::new();
    let mut i: usize = 0;
    assert(a@.take(0) =~= Seq::empty());
    while i < a.len()
        invariant
            i <= a@.len(),
            out@ == minus(a@.take(i as int), b@),
        decreases a.len() - i,
    {
        assert(a@.take(i + 1).drop_last() =~= a@.take(i as int));
        let x = a[i];
        if !has_item(b, &x) {
            out.push(x);
        }
        i = i + 1;
    }
    assert(a@.take(i as int) =~= a@);
    out
}

/// What is in both.
pub fn intersect<T: Ranked>(a: &Vec<T>, b: &Vec<T>) -> (r: Vec<T>)
    ensures
        r@ == common(a@, b@),
{
    let mut out: Vec<T> = Vec::new();
    let mut i: usize = 0;
    assert(a@.take(0) =~= Seq::empty());
    while i < a.len()
        invariant
            i <= a@.len(),
            out@ == common(a@.take(i as int), b@),
        decreases a.len() - i,
    {
        assert(a@.take(i + 1).drop_last() =~= a@.take(i as int));
        let x = a[i];
        if has_item(b, &x) {
            out.push(x);
        }
        i = i + 1;
    }
    assert(a@.take(i as int) =~= a@);
    out
}

} // verus!
