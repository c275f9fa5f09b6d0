//! Who registered which prefix, oldest first.

use vstd::prelude::*;

use crate::net::{all_valid, IpNet};
use crate::nettext::{lemma_sort_by_text, lemma_sort_by_text_contains, sort_by_text, sorted_by_text};
use crate::proto::{nets_contain, NodeId};
use crate::registry::{routes_valid, RecordView, Registry, RouteReg};

verus! {

/// A registrant of a prefix: who, and since when.
pub type Registrant = (NodeId, u64);

/// `a` registered before `b`: the older grant, or the lower id of two grants
/// of the same age.
pub open spec fn registered_before(a: Registrant, b: Registrant) -> bool {
    a.1 < b.1 || (a.1 == b.1 && a.0 < b.0)
}

/// `s` with `x` placed behind everyone who did not register after it.
pub open spec fn insert_registrant(s: Seq<Registrant>, x: Registrant) -> Seq<Registrant>
    decreases s.len(),
{
    if s.len() == 0 || !registered_before(x, s.last()) {
        s.push(x)
    } else {
        insert_registrant(s.drop_last(), x).push(s.last())
    }
}

/// `acc` with one member's registrations of `cidr` put in their places.
pub open spec fn add_registrations(
    acc: Seq<Registrant>,
    id: NodeId,
    routes: Seq<RouteReg>,
    cidr: IpNet,
) -> Seq<Registrant>
    decreases routes.len(),
{
    if routes.len() == 0 {
        acc
    } else {
        let p = add_registrations(acc, id, routes.drop_last(), cidr);
        if routes.last().cidr == cidr {
            insert_registrant(p, (id, routes.last().first_granted_unix))
        } else {
            p
        }
    }
}

/// Everyone who registered `cidr` and is not disabled, oldest first.
pub open spec fn registrants(members: Seq<RecordView>, cidr: IpNet) -> Seq<Registrant>
    decreases members.len(),
{
    if members.len() == 0 {
        Seq::empty()
    } else {
        let p = registrants(members.drop_last(), cidr);
        let m = members.last();
        if m.disabled {
            p
        } else {
            add_registrations(p, m.node_id, m.routes, cidr)
        }
    }
}

/// `acc` with every prefix of `routes` that it does not hold yet.
pub open spec fn add_prefixes(acc: Seq<IpNet>, routes: Seq<RouteReg>) -> Seq<IpNet>
    decreases routes.len(),
{
    if routes.len() == 0 {
        acc
    } else {
        let p = add_prefixes(acc, routes.drop_last());
        if p.contains(routes.last().cidr) {
            p
        } else {
            p.push(routes.last().cidr)
        }
    }
}

/// Every prefix that a member registered who is not disabled, once each.
pub open spec fn registered_prefixes(members: Seq<RecordView>) -> Seq<IpNet>
    decreases members.len(),
{
    if members.len() == 0 {
        Seq::empty()
    } else {
        let p = registered_prefixes(members.drop_last());
        if members.last().disabled {
            p
        } else {
            add_prefixes(p, members.last().routes)
        }
    }
}

/// The registered prefixes in the order of their text, each with its
/// registrants.
pub open spec fn owners_table(members: Seq<RecordView>) -> Seq<(IpNet, Seq<Registrant>)> {
    sort_by_text(registered_prefixes(members)).map_values(|c: IpNet| (c, registrants(members, c)))
}

/// The content of a table of registrants.
pub open spec fn table_view(t: Seq<(IpNet, Vec<Registrant>)>) -> Seq<(IpNet, Seq<Registrant>)> {
    t.map_values(|e: (IpNet, Vec<Registrant>)| (e.0, e.1@))
}

/// Nobody is followed by someone who registered before.
pub open spec fn oldest_first(s: Seq<Registrant>) -> bool {
    forall|i: int, j: int|
        0 <= i < j < s.len() ==> !registered_before(#[trigger] s[j], #[trigger] s[i])
}

/// A member that is not disabled registered `cidr` at that time.
pub open spec fn is_registered(members: Seq<RecordView>, cidr: IpNet, who: Registrant) -> bool {
    exists|i: int, j: int|
        0 <= i < members.len() && 0 <= j < members[i].routes.len() && !members[i].disabled
            && members[i].node_id == who.0 && #[trigger] members[i].routes[j] == (RouteReg {
            cidr,
            first_granted_unix: who.1,
        })
}

proof fn lemma_insert_registrant(s: Seq<Registrant>, x: Registrant)
    ensures
        oldest_first(s) ==> oldest_first(insert_registrant(s, x)),
        forall|y: Registrant| #[trigger]
            insert_registrant(s, x).contains(y) <==> s.contains(y) || y == x,
    decreases s.len(),
{
    let r = insert_registrant(s, x);
    if s.len() == 0 || !registered_before(x, s.last()) {
        assert forall|y: Registrant| #[trigger] r.contains(y) <==> s.contains(y) || y == x by {
            if s.contains(y) {
                let k = choose|k: int| 0 <= k < s.len() && s[k] == y;
                assert(r[k] == y);
            }
            if y == x {
                assert(r[s.len() as int] == y);
            }
        }
        if oldest_first(s) {
            assert forall|i: int, j: int| 0 <= i < j < r.len() implies !registered_before(
                #[trigger] r[j],
                #[trigger] r[i],
            ) by {
                if j == s.len() && s.len() > 0 {
                    assert(s[i] == r[i]);
                    assert(s[s.len() - 1] == s.last());
                    if i < s.len() - 1 {
                        assert(!registered_before(s[s.len() - 1], s[i]));
                    }
                } else {
                    assert(s[i] == r[i] && s[j] == r[j]);
                }
            }
        }
    } else {
        let d = s.drop_last();
        let q = insert_registrant(d, x);
        lemma_insert_registrant(d, x);
        assert forall|y: Registrant| #[trigger] r.contains(y) <==> s.contains(y) || y == x by {
            if r.contains(y) {
                let k = choose|k: int| 0 <= k < r.len() && r[k] == y;
                if k < q.len() {
                    assert(q[k] == y);
                    assert(q.contains(y));
                    if d.contains(y) {
                        let m = choose|m: int| 0 <= m < d.len() && d[m] == y;
                        assert(s[m] == y);
                    }
                } else {
                    assert(s[s.len() - 1] == y);
                }
            }
            if s.contains(y) {
                let k = choose|k: int| 0 <= k < s.len() && s[k] == y;
                if k < d.len() {
                    assert(d[k] == y);
                    assert(q.contains(y));
                    let m = choose|m: int| 0 <= m < q.len() && q[m] == y;
                    assert(r[m] == y);
                } else {
                    assert(r[q.len() as int] == y);
                }
            }
            if y == x {
                assert(q.contains(x));
                let m = choose|m: int| 0 <= m < q.len() && q[m] == x;
                assert(r[m] == x);
            }
        }
        if oldest_first(s) {
            assert(oldest_first(d)) by {
                assert forall|i: int, j: int| 0 <= i < j < d.len() implies !registered_before(
                    #[trigger] d[j],
                    #[trigger] d[i],
                ) by {
                    assert(d[i] == s[i] && d[j] == s[j]);
                }
            }
            assert forall|i: int, j: int| 0 <= i < j < r.len() implies !registered_before(
                #[trigger] r[j],
                #[trigger] r[i],
            ) by {
                assert(r[i] == q[i]);
                if j < q.len() {
                    assert(r[j] == q[j]);
                } else {
                    assert(q.contains(q[i]));
                    if q[i] != x {
                        assert(d.contains(q[i]));
                        let k = choose|k: int| 0 <= k < d.len() && d[k] == q[i];
                        assert(s[k] == d[k] && s[s.len() - 1] == s.last());
                    }
                }
            }
        }
    }
}

proof fn lemma_add_registrations(acc: Seq<Registrant>, id: NodeId, routes: Seq<RouteReg>, cidr: IpNet)
    ensures
        oldest_first(acc) ==> oldest_first(add_registrations(acc, id, routes, cidr)),
        forall|y: Registrant| #[trigger]
            add_registrations(acc, id, routes, cidr).contains(y) <==> acc.contains(y) || (y.0 == id
                && routes.contains(RouteReg { cidr, first_granted_unix: y.1 })),
    decreases routes.len(),
{
    if routes.len() > 0 {
        let d = routes.drop_last();
        let p = add_registrations(acc, id, d, cidr);
        let x = (id, routes.last().first_granted_unix);
        lemma_add_registrations(acc, id, d, cidr);
        lemma_insert_registrant(p, x);
        assert forall|y: Registrant| #[trigger]
            add_registrations(acc, id, routes, cidr).contains(y) <==> acc.contains(y) || (y.0 == id
                && routes.contains(RouteReg { cidr, first_granted_unix: y.1 })) by {
            let w = RouteReg { cidr, first_granted_unix: y.1 };
            assert(p.contains(y) <==> acc.contains(y) || (y.0 == id && d.contains(w)));
            if d.contains(w) {
                let k = choose|k: int| 0 <= k < d.len() && d[k] == w;
                assert(routes[k] == w);
            }
            if routes.contains(w) {
                let k = choose|k: int| 0 <= k < routes.len() && routes[k] == w;
                if k < d.len() {
                    assert(d[k] == w);
                }
            }
            if routes.last() == w {
                assert(routes[routes.len() - 1] == w);
            }
        }
    }
}

/// The registrants of a prefix are exactly the members that registered it
/// and are not disabled, the oldest grant first.
pub proof fn lemma_registrants(members: Seq<RecordView>, cidr: IpNet)
    ensures
        oldest_first(registrants(members, cidr)),
        forall|y: Registrant| #[trigger]
            registrants(members, cidr).contains(y) <==> is_registered(members, cidr, y),
    decreases members.len(),
{
    if members.len() > 0 {
        let d = members.drop_last();
        let m = members.last();
        lemma_registrants(d, cidr);
        lemma_add_registrations(registrants(d, cidr), m.node_id, m.routes, cidr);
        assert forall|y: Registrant| #[trigger]
            registrants(members, cidr).contains(y) <==> is_registered(members, cidr, y) by {
            let w = RouteReg { cidr, first_granted_unix: y.1 };
            assert(registrants(d, cidr).contains(y) <==> is_registered(d, cidr, y));
            if is_registered(d, cidr, y) {
                let (i, j) = choose|i: int, j: int|
                    0 <= i < d.len() && 0 <= j < d[i].routes.len() && !d[i].disabled && d[i].node_id
                        == y.0 && #[trigger] d[i].routes[j] == w;
                assert(members[i].routes[j] == w);
            }
            if !m.disabled && y.0 == m.node_id && m.routes.contains(w) {
                let j = choose|j: int| 0 <= j < m.routes.len() && m.routes[j] == w;
                assert(members[members.len() - 1].routes[j] == w);
            }
            if is_registered(members, cidr, y) {
                let (i, j) = choose|i: int, j: int|
                    0 <= i < members.len() && 0 <= j < members[i].routes.len()
                        && !members[i].disabled && members[i].node_id == y.0
                        && #[trigger] members[i].routes[j] == w;
                if i < d.len() {
                    assert(d[i].routes[j] == w);
                } else {
                    assert(m.routes.contains(w));
                }
            }
        }
    }
}

/// The registrants of a prefix are the members that registered it and are not
/// disabled. Along the list the time of the grant never decreases, and of two
/// grants of the same time the one with the lower id comes first.
pub proof fn law_registrants_are_age_ordered(members: Seq<RecordView>, cidr: IpNet)
    ensures
        oldest_first(registrants(members, cidr)),
        forall|y: Registrant| #[trigger]
            registrants(members, cidr).contains(y) <==> is_registered(members, cidr, y),
        forall|i: int, j: int|
            0 <= i < j < registrants(members, cidr).len() ==> {
                let a = #[trigger] registrants(members, cidr)[i];
                let b = #[trigger] registrants(members, cidr)[j];
                a.1 <= b.1 && (a.1 == b.1 ==> a.0 <= b.0)
            },
        forall|y: Registrant| #[trigger]
            registrants(members, cidr).contains(y) ==> exists|i: int, j: int|
                0 <= i < members.len() && 0 <= j < members[i].routes.len() && !members[i].disabled
                    && members[i].node_id == y.0 && (
                #[trigger] members[i].routes[j]).first_granted_unix == y.1
                    && members[i].routes[j].cidr == cidr,
        forall|i: int, j: int|
            0 <= i < members.len() && 0 <= j < members[i].routes.len() && !members[i].disabled
                && (#[trigger] members[i].routes[j]).cidr == cidr ==> registrants(
                members,
                cidr,
            ).contains((members[i].node_id, members[i].routes[j].first_granted_unix)),
{
    let s = registrants(members, cidr);
    lemma_registrants(members, cidr);
    assert forall|i: int, j: int| 0 <= i < j < s.len() implies ({
        let a = #[trigger] s[i];
        let b = #[trigger] s[j];
        a.1 <= b.1 && (a.1 == b.1 ==> a.0 <= b.0)
    }) by {
        assert(!registered_before(s[j], s[i]));
    }
    assert forall|y: Registrant| #[trigger] s.contains(y) implies exists|i: int, j: int|
        0 <= i < members.len() && 0 <= j < members[i].routes.len() && !members[i].disabled
            && members[i].node_id == y.0 && (#[trigger] members[i].routes[j]).first_granted_unix
            == y.1 && members[i].routes[j].cidr == cidr by {
        assert(is_registered(members, cidr, y));
        let (i, j) = choose|i: int, j: int|
            0 <= i < members.len() && 0 <= j < members[i].routes.len() && !members[i].disabled
                && members[i].node_id == y.0 && #[trigger] members[i].routes[j] == (RouteReg {
                cidr,
                first_granted_unix: y.1,
            });
        assert(members[i].routes[j].cidr == cidr);
    }
    assert forall|i: int, j: int|
        0 <= i < members.len() && 0 <= j < members[i].routes.len() && !members[i].disabled && (
        #[trigger] members[i].routes[j]).cidr == cidr implies s.contains(
        (members[i].node_id, members[i].routes[j].first_granted_unix),
    ) by {
        let y = (members[i].node_id, members[i].routes[j].first_granted_unix);
        assert(members[i].routes[j] == (RouteReg { cidr, first_granted_unix: y.1 }));
        assert(is_registered(members, cidr, y));
    }
}

/// The table of the registered prefixes holds each of them once, under
/// its registrants: every prefix that a member registered who is not disabled,
/// and no other.
pub proof fn law_the_table_holds_every_registered_prefix(members: Seq<RecordView>, cidr: IpNet)
    ensures
        (exists|t: int|
            0 <= t < owners_table(members).len() && (#[trigger] owners_table(members)[t]).0 == cidr)
            <==> (exists|i: int, j: int|
            0 <= i < members.len() && 0 <= j < members[i].routes.len() && !members[i].disabled && (
            #[trigger] members[i].routes[j]).cidr == cidr),
        forall|t: int|
            0 <= t < owners_table(members).len() ==> (#[trigger] owners_table(members)[t]).1
                == registrants(members, owners_table(members)[t].0),
        forall|t: int, u: int|
            0 <= t < u < owners_table(members).len() ==> (#[trigger] owners_table(members)[t]).0
                != (#[trigger] owners_table(members)[u]).0,
{
    let table = owners_table(members);
    lemma_table_distinct(members);
    if exists|i: int, j: int|
        0 <= i < members.len() && 0 <= j < members[i].routes.len() && !members[i].disabled && (
        #[trigger] members[i].routes[j]).cidr == cidr {
        let (i, j) = choose|i: int, j: int|
            0 <= i < members.len() && 0 <= j < members[i].routes.len() && !members[i].disabled && (
            #[trigger] members[i].routes[j]).cidr == cidr;
        let y = (members[i].node_id, members[i].routes[j].first_granted_unix);
        assert(members[i].routes[j] == (RouteReg { cidr, first_granted_unix: y.1 }));
        assert(is_registered(members, cidr, y));
        lemma_table_holds(members, cidr, y);
    }
    if exists|t: int| 0 <= t < table.len() && (#[trigger] table[t]).0 == cidr {
        let t = choose|t: int| 0 <= t < table.len() && (#[trigger] table[t]).0 == cidr;
        let p = registered_prefixes(members);
        assert(sort_by_text(p)[t] == cidr);
        assert(sort_by_text(p).contains(cidr));
        lemma_sort_by_text_contains(p, cidr);
        lemma_prefix_is_registered(members, cidr);
    }
}

proof fn lemma_added_prefix(acc: Seq<IpNet>, routes: Seq<RouteReg>, cidr: IpNet)
    requires
        add_prefixes(acc, routes).contains(cidr),
    ensures
        acc.contains(cidr) || exists|j: int|
            0 <= j < routes.len() && (#[trigger] routes[j]).cidr == cidr,
    decreases routes.len(),
{
    if routes.len() > 0 {
        let d = routes.drop_last();
        let p = add_prefixes(acc, d);
        let all = add_prefixes(acc, routes);
        let k = choose|k: int| 0 <= k < all.len() && all[k] == cidr;
        if k < p.len() {
            assert(p[k] == cidr);
            lemma_added_prefix(acc, d, cidr);
            if !acc.contains(cidr) {
                let j = choose|j: int| 0 <= j < d.len() && (#[trigger] d[j]).cidr == cidr;
                assert(routes[j].cidr == cidr);
            }
        } else {
            assert(routes[routes.len() - 1].cidr == cidr);
        }
    }
}

proof fn lemma_prefix_is_registered(members: Seq<RecordView>, cidr: IpNet)
    requires
        registered_prefixes(members).contains(cidr),
    ensures
        exists|i: int, j: int|
            0 <= i < members.len() && 0 <= j < members[i].routes.len() && !members[i].disabled && (
            #[trigger] members[i].routes[j]).cidr == cidr,
    decreases members.len(),
{
    if members.len() > 0 {
        let d = members.drop_last();
        let m = members.last();
        let p = registered_prefixes(d);
        if !m.disabled && !p.contains(cidr) {
            lemma_added_prefix(p, m.routes, cidr);
            let j = choose|j: int| 0 <= j < m.routes.len() && (#[trigger] m.routes[j]).cidr == cidr;
            assert(members[members.len() - 1].routes[j].cidr == cidr);
        } else {
            lemma_prefix_is_registered(d, cidr);
            let (i, j) = choose|i: int, j: int|
                0 <= i < d.len() && 0 <= j < d[i].routes.len() && !d[i].disabled && (
                #[trigger] d[i].routes[j]).cidr == cidr;
            assert(members[i].routes[j].cidr == cidr);
        }
    } else {
        assert(registered_prefixes(members) =~= Seq::empty());
    }
}

fn insert_in_age_order(v: &mut Vec<Registrant>, x: Registrant)
    ensures
        final(v)@ == insert_registrant(old(v)@, x),
{
    let mut i: usize = v.len();
    assert(v@.take(i as int) =~= v@);
    assert(v@.skip(i as int) =~= Seq::empty());
    while i > 0 && (x.1 < v[i - 1].1 || (x.1 == v[i - 1].1 && x.0 < v[i - 1].0))
        invariant
            i <= v.len(),
            v@ == old(v)@,
            insert_registrant(v@, x) == insert_registrant(v@.take(i as int), x) + v@.skip(
                i as int,
            ),
        decreases i,
    {
        let ghost t = v@.take(i as int);
        assert(t.last() == v@[i - 1]);
        assert(t.drop_last() =~= v@.take(i - 1));
        assert(insert_registrant(t.drop_last(), x).push(t.last()) + v@.skip(i as int)
            =~= insert_registrant(t.drop_last(), x) + v@.skip(i - 1));
        i = i - 1;
    }
    v.insert(i, x);
    assert(v@ =~= old(v)@.take(i as int).push(x) + old(v)@.skip(i as int));
}

impl Registry {
    /// Every prefix that a member registered who is not disabled, once each.
    fn distinct_prefixes(&self) -> (r: Vec<IpNet>)
        requires
            self@.wf(),
        ensures
            r@ == registered_prefixes(self@.members),
            all_valid(r@),
    {
        let mut out: Vec<IpNet> = Vec::new();
        let mut i: usize = 0;
        while i < self.members.len()
            invariant
                i <= self.members.len(),
                self@.wf(),
                out@ == registered_prefixes(self@.members.take(i as int)),
                all_valid(out@),
            decreases self.members.len() - i,
        {
            let ghost acc = out@;
            let m = &self.members[i];
            assert(self@.members.take(i + 1).drop_last() =~= self@.members.take(i as int));
            assert(self@.members[i as int] == m@);
            assert(routes_valid(m.routes@));
            if !m.disabled {
                let mut j: usize = 0;
                while j < m.routes.len()
                    invariant
                        j <= m.routes.len(),
                        routes_valid(m.routes@),
                        out@ == add_prefixes(acc, m.routes@.take(j as int)),
                        all_valid(out@),
                    decreases m.routes.len() - j,
                {
                    let c = m.routes[j].cidr;
                    assert(m.routes@.take(j + 1).drop_last() =~= m.routes@.take(j as int));
                    if !nets_contain(&out, &c) {
                        out.push(c);
                    }
                    j = j + 1;
                }
                assert(m.routes@.take(j as int) =~= m.routes@);
            }
            i = i + 1;
        }
        assert(self@.members.take(i as int) =~= self@.members);
        out
    }

    /// Everyone who registered `cidr` and is not disabled, oldest first.
    pub fn registrants_of(&self, cidr: &IpNet) -> (r: Vec<Registrant>)
        ensures
            r@ == registrants(self@.members, *cidr),
    {
        let mut out: Vec<Registrant> = Vec::new();
        let mut i: usize = 0;
        while i < self.members.len()
            invariant
                i <= self.members.len(),
                out@ == registrants(self@.members.take(i as int), *cidr),
            decreases self.members.len() - i,
        {
            let ghost acc = out@;
            let m = &self.members[i];
            assert(self@.members.take(i + 1).drop_last() =~= self@.members.take(i as int));
            assert(self@.members[i as int] == m@);
            if !m.disabled {
                let mut j: usize = 0;
                while j < m.routes.len()
                    invariant
                        j <= m.routes.len(),
                        out@ == add_registrations(
                            acc,
                            m.node_id,
                            m.routes@.take(j as int),
                            *cidr,
                        ),
                    decreases m.routes.len() - j,
                {
                    assert(m.routes@.take(j + 1).drop_last() =~= m.routes@.take(j as int));
                    if m.routes[j].cidr == *cidr {
                        insert_in_age_order(&mut out, (m.node_id, m.routes[j].first_granted_unix));
                    }
                    j = j + 1;
                }
                assert(m.routes@.take(j as int) =~= m.routes@);
            }
            i = i + 1;
        }
        assert(self@.members.take(i as int) =~= self@.members);
        out
    }

    /// Route registrations per prefix, oldest first. Whether a registrant
    /// is alive is not decided here.
    pub fn resolve_owners(&self) -> (r: Vec<(IpNet, Vec<Registrant>)>)
        requires
            self@.wf(),
        ensures
            table_view(r@) == owners_table(self@.members),
            forall|i: int| 0 <= i < r@.len() ==> (#[trigger] r@[i]).0.valid(),
    {
        let cidrs = sorted_by_text(&self.distinct_prefixes());
        let mut out: Vec<(IpNet, Vec<Registrant>)> = Vec::new();
        let mut i: usize = 0;
        while i < cidrs.len()
            invariant
                i <= cidrs.len(),
                out.len() == i,
                all_valid(cidrs@),
                forall|k: int|
                    0 <= k < i ==> (#[trigger] out@[k]).0 == cidrs@[k] && out@[k].1@ == registrants(
                        self@.members,
                        cidrs@[k],
                    ),
            decreases cidrs.len() - i,
        {
            let c = cidrs[i];
            let regs = self.registrants_of(&c);
            out.push((c, regs));
            i = i + 1;
        }
        assert(table_view(out@) =~= owners_table(self@.members));
        out
    }
}

proof fn lemma_add_prefixes_distinct(acc: Seq<IpNet>, routes: Seq<RouteReg>)
    requires
        acc.no_duplicates(),
    ensures
        add_prefixes(acc, routes).no_duplicates(),
    decreases routes.len(),
{
    if routes.len() > 0 {
        lemma_add_prefixes_distinct(acc, routes.drop_last());
    }
}

proof fn lemma_prefixes_distinct(members: Seq<RecordView>)
    ensures
        registered_prefixes(members).no_duplicates(),
    decreases members.len(),
{
    if members.len() > 0 {
        lemma_prefixes_distinct(members.drop_last());
        lemma_add_prefixes_distinct(
            registered_prefixes(members.drop_last()),
            members.last().routes,
        );
    }
}

/// Every registered prefix stands in the table once.
pub proof fn lemma_table_distinct(members: Seq<RecordView>)
    ensures
        forall|i: int, j: int|
            0 <= i < j < owners_table(members).len() ==> (#[trigger] owners_table(members)[i]).0
                != (#[trigger] owners_table(members)[j]).0,
{
    let p = registered_prefixes(members);
    lemma_prefixes_distinct(members);
    lemma_sort_by_text(p);
    p.lemma_multiset_has_no_duplicates();
    sort_by_text(p).lemma_multiset_has_no_duplicates_conv();
    assert forall|i: int, j: int| 0 <= i < j < owners_table(members).len() implies (
    #[trigger] owners_table(members)[i]).0 != (#[trigger] owners_table(members)[j]).0 by {
        assert(sort_by_text(p)[i] != sort_by_text(p)[j]);
    }
}

proof fn lemma_add_prefixes(acc: Seq<IpNet>, routes: Seq<RouteReg>, cidr: IpNet)
    ensures
        acc.contains(cidr) ==> add_prefixes(acc, routes).contains(cidr),
        forall|j: int|
            0 <= j < routes.len() && (#[trigger] routes[j]).cidr == cidr ==> add_prefixes(
                acc,
                routes,
            ).contains(cidr),
    decreases routes.len(),
{
    if routes.len() > 0 {
        let d = routes.drop_last();
        let p = add_prefixes(acc, d);
        let all = add_prefixes(acc, routes);
        lemma_add_prefixes(acc, d, cidr);
        if p.contains(cidr) {
            let k = choose|k: int| 0 <= k < p.len() && p[k] == cidr;
            assert(all[k] == cidr);
        }
        assert forall|j: int| 0 <= j < routes.len() && (#[trigger] routes[j]).cidr == cidr implies all.contains(
            cidr,
        ) by {
            if j < d.len() {
                assert(d[j].cidr == cidr);
            } else if !p.contains(cidr) {
                assert(all[p.len() as int] == cidr);
            }
        }
    }
}

proof fn lemma_registered_prefixes(members: Seq<RecordView>, cidr: IpNet, who: Registrant)
    requires
        is_registered(members, cidr, who),
    ensures
        registered_prefixes(members).contains(cidr),
    decreases members.len(),
{
    let w = RouteReg { cidr, first_granted_unix: who.1 };
    let (i, j) = choose|i: int, j: int|
        0 <= i < members.len() && 0 <= j < members[i].routes.len() && !members[i].disabled
            && members[i].node_id == who.0 && #[trigger] members[i].routes[j] == w;
    let d = members.drop_last();
    let m = members.last();
    if i < d.len() {
        assert(d[i].routes[j] == w);
        lemma_registered_prefixes(d, cidr, who);
        if !m.disabled {
            lemma_add_prefixes(registered_prefixes(d), m.routes, cidr);
        }
    } else {
        assert(m.routes[j].cidr == cidr);
        lemma_add_prefixes(registered_prefixes(d), m.routes, cidr);
    }
}

/// Every prefix that somebody registered stands in the table.
pub proof fn lemma_table_holds(members: Seq<RecordView>, cidr: IpNet, who: Registrant)
    requires
        is_registered(members, cidr, who),
    ensures
        exists|i: int|
            0 <= i < owners_table(members).len() && (#[trigger] owners_table(members)[i]).0 == cidr,
{
    let p = registered_prefixes(members);
    lemma_registered_prefixes(members, cidr, who);
    crate::nettext::lemma_sort_by_text_contains(p, cidr);
    let i = choose|i: int| 0 <= i < sort_by_text(p).len() && sort_by_text(p)[i] == cidr;
    assert(owners_table(members)[i].0 == cidr);
}

} // verus!
