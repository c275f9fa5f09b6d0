//! Continuity of the published view. Every view has a generation; a change
//! is pushed as a delta that applies only onto the generation it was made
//! against. The recent deltas are kept, so that a member that missed some is
//! caught up by them, and one that holds an unknown generation, or another
//! content under the same generation, is sent a snapshot.

use vstd::prelude::*;

use crate::directory::{changed_peers, patched, peer_map, peer_with_id, peers_ascend, removed_peers};
use crate::idmap::IdMap;
use crate::leases::copy_ids;
use crate::proto::{copy_peers, peer_views, MembershipDelta, NodeId, PeerInfo, PeerView};

verus! {

/// A delta, over views.
#[verifier::ext_equal]
pub struct DeltaView {
    pub base_rev: u64,
    pub new_rev: u64,
    pub changed: Seq<PeerView>,
    pub removed: Seq<NodeId>,
}

impl View for MembershipDelta {
    type V = DeltaView;

    open spec fn view(&self) -> DeltaView {
        DeltaView {
            base_rev: self.base_rev,
            new_rev: self.new_rev,
            changed: peer_views(self.changed@),
            removed: self.removed@,
        }
    }
}

impl MembershipDelta {
    pub fn copy(&self) -> (r: MembershipDelta)
        ensures
            r@ == self@,
    {
        MembershipDelta {
            base_rev: self.base_rev,
            new_rev: self.new_rev,
            changed: copy_peers(&self.changed),
            removed: copy_ids(&self.removed),
        }
    }
}

/// The content of a list of deltas.
pub open spec fn delta_views(s: Seq<MembershipDelta>) -> Seq<DeltaView> {
    s.map_values(|d: MembershipDelta| d@)
}

/// Each delta starts where the one before it ends, and leads forward.
pub open spec fn chained(s: Seq<DeltaView>) -> bool {
    &&& forall|i: int| 0 <= i < s.len() ==> (#[trigger] s[i]).base_rev < s[i].new_rev
    &&& forall|i: int, j: int|
        0 <= i < s.len() && j == i + 1 && j < s.len() ==> (#[trigger] s[i]).new_rev == (
        #[trigger] s[j]).base_rev
}

/// The deltas after one more. A delta that does not continue them starts
/// them anew, and only the newest `limit` are kept.
pub open spec fn recorded(s: Seq<DeltaView>, d: DeltaView, limit: nat) -> Seq<DeltaView> {
    let base = if s.len() > 0 && s.last().new_rev != d.base_rev {
        Seq::empty()
    } else {
        s
    };
    let t = base.push(d);
    if t.len() > limit {
        t.skip(t.len() - limit)
    } else {
        t
    }
}

/// The first delta that starts at a generation.
pub open spec fn starting_at(s: Seq<DeltaView>, gen: u64) -> Option<int>
    decreases s.len(),
{
    if s.len() == 0 {
        None
    } else {
        match starting_at(s.drop_last(), gen) {
            Some(i) => Some(i),
            None => if s.last().base_rev == gen {
                Some(s.len() - 1)
            } else {
                None
            },
        }
    }
}

/// The deltas that lead from the generation held to the current one, if they
/// are known.
pub open spec fn leading(s: Seq<DeltaView>, have: u64, current: u64) -> Option<Seq<DeltaView>> {
    if s.len() == 0 || s.last().new_rev != current {
        None
    } else {
        match starting_at(s, have) {
            Some(i) => Some(s.skip(i)),
            None => None,
        }
    }
}

/// What brings a member up to date.
#[derive(Debug)]
pub enum CatchUp {
    /// It is.
    Current,
    /// These, in order.
    Deltas(Vec<MembershipDelta>),
    /// The whole view. `mismatch`: the member held this generation with
    /// another content.
    Snapshot { mismatch: bool },
    /// Nothing yet: the coordinator collects before it publishes.
    Deferred,
}

/// What brings a member up to date, over views.
#[verifier::ext_equal]
pub enum CatchUpView {
    Current,
    Deltas(Seq<DeltaView>),
    Snapshot { mismatch: bool },
    Deferred,
}

impl View for CatchUp {
    type V = CatchUpView;

    open spec fn view(&self) -> CatchUpView {
        match self {
            CatchUp::Current => CatchUpView::Current,
            CatchUp::Deltas(v) => CatchUpView::Deltas(delta_views(v@)),
            CatchUp::Snapshot { mismatch } => CatchUpView::Snapshot { mismatch: *mismatch },
            CatchUp::Deferred => CatchUpView::Deferred,
        }
    }
}

/// What a member is sent that says which generation it holds, and which
/// content under it where it says so.
pub open spec fn catch_up(
    s: Seq<DeltaView>,
    current: u64,
    digest: u64,
    have: u64,
    have_digest: Option<u64>,
    grace: bool,
) -> CatchUpView {
    if grace {
        CatchUpView::Deferred
    } else if have == current {
        if have_digest is Some && have_digest != Some(digest) {
            CatchUpView::Snapshot { mismatch: true }
        } else {
            CatchUpView::Current
        }
    } else {
        match leading(s, have, current) {
            Some(ds) => CatchUpView::Deltas(ds),
            None => CatchUpView::Snapshot { mismatch: false },
        }
    }
}

/// A coordinator that started lately collects what the members hold before it
/// publishes anything.
pub fn in_grace(started_at: u64, grace_secs: u64, now: u64) -> (r: bool)
    ensures
        r == (now < started_at + grace_secs),
{
    now < started_at || now - started_at < grace_secs
}

/// How many deltas a network keeps.
pub const HISTORY_LIMIT: usize = 256;

/// The recent deltas of a network.
#[derive(Debug)]
pub struct History {
    pub deltas: Vec<MembershipDelta>,
    pub limit: usize,
}

/// A change of the view was published, or none was: the deltas after it.
pub open spec fn keeps(before: History, after: History, d: Option<MembershipDelta>) -> bool {
    match d {
        None => after == before,
        Some(d) => after.limit == before.limit && delta_views(after.deltas@) == recorded(
            delta_views(before.deltas@),
            d@,
            before.limit as nat,
        ),
    }
}

impl History {
    /// They continue each other, and are not too many.
    pub open spec fn wf(self) -> bool {
        chained(delta_views(self.deltas@)) && self.deltas@.len() <= self.limit
    }

    /// They lead to this generation.
    pub open spec fn leads_to(self, gen: u64) -> bool {
        self.deltas@.len() > 0 ==> self.deltas@.last().new_rev == gen
    }

    pub fn new(limit: usize) -> (r: History)
        ensures
            r.wf(),
            r.deltas@.len() == 0,
            r.limit == limit,
    {
        History { deltas: Vec::new(), limit }
    }

    /// Keep a delta that is published.
    pub fn record(&mut self, d: MembershipDelta)
        requires
            old(self).wf(),
            d.base_rev < d.new_rev,
        ensures
            final(self).wf(),
            final(self).limit == old(self).limit,
            delta_views(final(self).deltas@) == recorded(
                delta_views(old(self).deltas@),
                d@,
                old(self).limit as nat,
            ),
    {
        let ghost s = delta_views(self.deltas@);
        let ghost dv = d@;
        assert(s.len() == self.deltas@.len());
        if self.limit == 0 {
            assert(recorded(s, dv, 0) =~= Seq::empty());
            assert(s =~= Seq::empty());
            return;
        }
        let n = self.deltas.len();
        if n > 0 {
            assert(s.last() == self.deltas@[n - 1]@);
        }
        if n > 0 && self.deltas[n - 1].new_rev != d.base_rev {
            self.deltas = Vec::new();
        }
        let ghost base = delta_views(self.deltas@);
        assert(base =~= if s.len() > 0 && s.last().new_rev != dv.base_rev {
            Seq::empty()
        } else {
            s
        });
        if self.deltas.len() == self.limit {
            self.deltas.remove(0);
            assert(delta_views(self.deltas@) =~= base.drop_first());
        }
        let ghost kept = delta_views(self.deltas@);
        self.deltas.push(d);
        assert(delta_views(self.deltas@) =~= kept.push(dv));
        assert(delta_views(self.deltas@) =~= recorded(s, dv, self.limit as nat));
        assert(chained(delta_views(self.deltas@))) by {
            let t = delta_views(self.deltas@);
            assert(chained(base));
            assert(chained(kept)) by {
                if kept != base {
                    assert forall|i: int| 0 <= i < kept.len() implies (#[trigger] kept[i]).base_rev
                        < kept[i].new_rev by {
                        assert(kept[i] == base[i + 1]);
                    }
                    assert forall|i: int, j: int|
                        0 <= i < kept.len() && j == i + 1 && j < kept.len() implies (
                    #[trigger] kept[i]).new_rev == (#[trigger] kept[j]).base_rev by {
                        assert(kept[i] == base[i + 1]);
                        assert(kept[j] == base[j + 1]);
                    }
                }
            }
            assert(kept.len() > 0 ==> kept.last().new_rev == dv.base_rev);
            assert forall|i: int, j: int|
                0 <= i < t.len() && j == i + 1 && j < t.len() implies (#[trigger] t[i]).new_rev == (
            #[trigger] t[j]).base_rev by {
                assert(t[i] == kept[i]);
                if j < kept.len() {
                    assert(t[j] == kept[j]);
                } else {
                    assert(kept[i] == kept.last());
                }
            }
            assert forall|i: int| 0 <= i < t.len() implies (#[trigger] t[i]).base_rev
                < t[i].new_rev by {
                if i < kept.len() {
                    assert(t[i] == kept[i]);
                }
            }
        }
    }

    /// What a member is sent that says which generation it holds.
    pub fn answer(
        &self,
        current: u64,
        digest: u64,
        have: u64,
        have_digest: Option<u64>,
        grace: bool,
    ) -> (r: CatchUp)
        ensures
            r@ == catch_up(
                delta_views(self.deltas@),
                current,
                digest,
                have,
                have_digest,
                grace,
            ),
    {
        let ghost s = delta_views(self.deltas@);
        assert(s.len() == self.deltas@.len());
        if grace {
            return CatchUp::Deferred;
        }
        if have == current {
            return match have_digest {
                Some(d) if d != digest => CatchUp::Snapshot { mismatch: true },
                _ => CatchUp::Current,
            };
        }
        let n = self.deltas.len();
        if n == 0 {
            return CatchUp::Snapshot { mismatch: false };
        }
        assert(s.last() == self.deltas@[n - 1]@);
        if self.deltas[n - 1].new_rev != current {
            return CatchUp::Snapshot { mismatch: false };
        }
        let mut i: usize = 0;
        assert(s.take(0) =~= Seq::empty());
        while i < n && self.deltas[i].base_rev != have
            invariant
                i <= n,
                n == self.deltas@.len(),
                s == delta_views(self.deltas@),
                s.len() == n,
                starting_at(s.take(i as int), have) is None,
            decreases n - i,
        {
            assert(s.take(i + 1).drop_last() =~= s.take(i as int));
            assert(s.take(i + 1).last() == self.deltas@[i as int]@);
            i = i + 1;
        }
        if i == n {
            assert(s.take(i as int) =~= s);
            return CatchUp::Snapshot { mismatch: false };
        }
        proof {
            assert(s.take(i + 1).drop_last() =~= s.take(i as int));
            assert(s.take(i + 1).last() == self.deltas@[i as int]@);
            lemma_starting_at(s, have, i as int);
        }
        let mut out: Vec<MembershipDelta> = Vec::new();
        let mut k: usize = i;
        assert(delta_views(out@) =~= s.subrange(i as int, i as int));
        while k < n
            invariant
                i <= k <= n,
                n == self.deltas@.len(),
                s == delta_views(self.deltas@),
                s.len() == n,
                delta_views(out@) == s.subrange(i as int, k as int),
            decreases n - k,
        {
            let c = self.deltas[k].copy();
            let ghost cv = c@;
            let ghost was = delta_views(out@);
            assert(s[k as int] == self.deltas@[k as int]@);
            out.push(c);
            assert(delta_views(out@) =~= was.push(cv));
            k = k + 1;
            assert(delta_views(out@) =~= s.subrange(i as int, k as int));
        }
        assert(s.subrange(i as int, n as int) =~= s.skip(i as int));
        CatchUp::Deltas(out)
    }
}

proof fn lemma_starting_at(s: Seq<DeltaView>, gen: u64, i: int)
    requires
        0 <= i < s.len(),
        starting_at(s.take(i + 1), gen) == Some(i),
    ensures
        starting_at(s, gen) == Some(i),
    decreases s.len() - i,
{
    if i + 1 == s.len() {
        assert(s.take(i + 1) =~= s);
    } else {
        let d = s.drop_last();
        assert(d.take(i + 1) =~= s.take(i + 1));
        lemma_starting_at(d, gen, i);
    }
}

/// A view after a number of deltas.
pub open spec fn patched_by(view: Map<NodeId, PeerView>, ds: Seq<DeltaView>) -> Map<
    NodeId,
    PeerView,
>
    decreases ds.len(),
{
    if ds.len() == 0 {
        view
    } else {
        patched(patched_by(view, ds.drop_last()), ds.last().changed, ds.last().removed)
    }
}

/// The deltas are those between one published view and the next.
pub open spec fn spans(views: Seq<Seq<PeerView>>, ds: Seq<DeltaView>) -> bool {
    &&& views.len() == ds.len() + 1
    &&& forall|i: int|
        0 <= i < ds.len() ==> {
            &&& (#[trigger] ds[i]).changed == changed_peers(views[i], views[i + 1])
            &&& ds[i].removed == removed_peers(views[i], views[i + 1])
            &&& peers_ascend(views[i + 1])
        }
}

/// A member that missed changes and applies the deltas it is sent holds the
/// view that everyone else does, wherever it stopped.
pub proof fn law_deltas_catch_a_member_up(
    views: Seq<Seq<PeerView>>,
    ds: Seq<DeltaView>,
    k: int,
)
    requires
        spans(views, ds),
        0 <= k <= ds.len(),
    ensures
        patched_by(peer_map(views[k]), ds.skip(k)) == peer_map(views.last()),
{
    lemma_patched_to(views, ds, k, ds.len() as int);
    assert(ds.subrange(k, ds.len() as int) =~= ds.skip(k));
}

proof fn lemma_patched_to(views: Seq<Seq<PeerView>>, ds: Seq<DeltaView>, k: int, n: int)
    requires
        spans(views, ds),
        0 <= k <= n <= ds.len(),
    ensures
        patched_by(peer_map(views[k]), ds.subrange(k, n)) == peer_map(views[n]),
    decreases n - k,
{
    let part = ds.subrange(k, n);
    if n > k {
        lemma_patched_to(views, ds, k, n - 1);
        assert(part.drop_last() =~= ds.subrange(k, n - 1));
        assert(part.last() == ds[n - 1]);
        crate::directory::law_a_delta_carries_the_old_view_to_the_new_one(views[n - 1], views[n]);
    } else {
        assert(part =~= Seq::empty());
    }
}

/// Keeping a change keeps the deltas those between published views: the new
/// view is the last one, and as many of the earlier ones are spanned as deltas
/// are kept.
pub proof fn law_the_history_spans_the_published_views(
    views: Seq<Seq<PeerView>>,
    s: Seq<DeltaView>,
    next: Seq<PeerView>,
    d: DeltaView,
    limit: nat,
)
    requires
        spans(views, s),
        s.len() > 0 ==> s.last().new_rev == d.base_rev,
        d.changed == changed_peers(views.last(), next),
        d.removed == removed_peers(views.last(), next),
        peers_ascend(next),
    ensures
        ({
            let t = recorded(s, d, limit);
            let all = views.push(next);
            let v = all.skip(all.len() - t.len() - 1);
            spans(v, t) && v.last() == next
        }),
{
    let t = recorded(s, d, limit);
    let all = views.push(next);
    let k = all.len() - t.len() - 1;
    let v = all.skip(k);
    let whole = s.push(d);
    assert(t =~= whole.skip(k));
    assert forall|i: int| 0 <= i < t.len() implies (#[trigger] t[i]).changed == changed_peers(
        v[i],
        v[i + 1],
    ) && t[i].removed == removed_peers(v[i], v[i + 1]) && peers_ascend(v[i + 1]) by {
        assert(t[i] == whole[i + k]);
        assert(v[i] == all[i + k] && v[i + 1] == all[i + k + 1]);
        if i + k < s.len() {
            assert(whole[i + k] == s[i + k]);
            assert(all[i + k] == views[i + k] && all[i + k + 1] == views[i + k + 1]);
        } else {
            assert(all[i + k] == views.last());
        }
    }
}

/// The deltas from a generation on that one of them starts at are those from
/// there on.
pub proof fn lemma_leading(s: Seq<DeltaView>, k: int)
    requires
        chained(s),
        0 <= k < s.len(),
    ensures
        leading(s, s[k].base_rev, s.last().new_rev) == Some(s.skip(k)),
{
    let gen = s[k].base_rev;
    let front = s.take(k);
    assert forall|i: int| 0 <= i < front.len() implies (#[trigger] front[i]).base_rev != gen by {
        assert(chained(front)) by {
            assert forall|a: int| 0 <= a < front.len() implies (#[trigger] front[a]).base_rev
                < front[a].new_rev by {
                assert(front[a] == s[a]);
            }
            assert forall|a: int, b: int|
                0 <= a < front.len() && b == a + 1 && b < front.len() implies (
            #[trigger] front[a]).new_rev == (#[trigger] front[b]).base_rev by {
                assert(front[a] == s[a] && front[b] == s[b]);
            }
        }
        lemma_ascending(front, i);
        assert(front.last() == s[k - 1]);
        assert(s[k - 1].new_rev == s[k].base_rev);
    }
    lemma_not_starting(front, gen);
    assert(s.take(k + 1).drop_last() =~= front);
    assert(s.take(k + 1).last() == s[k]);
    lemma_starting_at(s, gen, k);
}

/// Whoever holds the view from before a change is caught up by that change
/// alone.
pub proof fn law_one_generation_behind_is_one_delta(s: Seq<DeltaView>, d: DeltaView, limit: nat)
    requires
        chained(s),
        s.len() <= limit,
        limit > 0,
        d.base_rev < d.new_rev,
    ensures
        leading(recorded(s, d, limit), d.base_rev, d.new_rev) == Some(seq![d]),
{
    let t = recorded(s, d, limit);
    let n = t.len() as int;
    assert(t.last() == d);
    assert forall|i: int| 0 <= i < n - 1 implies (#[trigger] t[i]).base_rev < d.base_rev by {
        lemma_before_the_end(s, t, d, limit, i);
    }
    lemma_not_starting(t.drop_last(), d.base_rev);
    assert(t.skip(n - 1) =~= seq![d]);
}

/// No delta starts at a generation that none of them starts at.
pub proof fn lemma_not_starting(s: Seq<DeltaView>, gen: u64)
    requires
        forall|i: int| 0 <= i < s.len() ==> (#[trigger] s[i]).base_rev != gen,
    ensures
        starting_at(s, gen) is None,
    decreases s.len(),
{
    if s.len() > 0 {
        let d = s.drop_last();
        assert forall|i: int| 0 <= i < d.len() implies (#[trigger] d[i]).base_rev != gen by {
            assert(d[i] == s[i]);
        }
        lemma_not_starting(d, gen);
        assert(s[s.len() - 1] == s.last());
    }
}

proof fn lemma_before_the_end(
    s: Seq<DeltaView>,
    t: Seq<DeltaView>,
    d: DeltaView,
    limit: nat,
    i: int,
)
    requires
        chained(s),
        s.len() <= limit,
        limit > 0,
        t == recorded(s, d, limit),
        0 <= i < t.len() - 1,
    ensures
        t[i].base_rev < d.base_rev,
{
    let off = if s.len() == limit {
        1int
    } else {
        0int
    };
    assert(s.len() > 0 && s.last().new_rev == d.base_rev);
    assert(t[i] == s[i + off]);
    lemma_ascending(s, i + off);
}

/// A delta starts before the generation that they all lead to.
pub proof fn lemma_ascending(s: Seq<DeltaView>, i: int)
    requires
        chained(s),
        0 <= i < s.len(),
    ensures
        s[i].base_rev < s.last().new_rev,
    decreases s.len() - i,
{
    if i < s.len() - 1 {
        lemma_ascending(s, i + 1);
        assert(s[i].new_rev == s[i + 1].base_rev);
    }
}

/// The view that a member holds.
#[derive(Debug)]
pub struct HeldView {
    pub gen: u64,
    pub peers: IdMap<PeerInfo>,
}

/// What a table of peers says.
pub open spec fn held_map(m: Map<NodeId, PeerInfo>) -> Map<NodeId, PeerView> {
    m.map_values(|p: PeerInfo| p@)
}

proof fn lemma_first_peer(s: Seq<PeerView>, id: NodeId)
    requires
        s.len() > 0,
    ensures
        peer_with_id(s, id) == if s[0].node_id == id {
            Some(s[0])
        } else {
            peer_with_id(s.drop_first(), id)
        },
    decreases s.len(),
{
    reveal_with_fuel(peer_with_id, 2);
    if s.len() == 1 {
        assert(s.drop_last() =~= Seq::empty());
        assert(s.drop_first() =~= Seq::empty());
    } else {
        lemma_first_peer(s.drop_last(), id);
        assert(s.drop_first().drop_last() =~= s.drop_last().drop_first());
    }
}

impl HeldView {
    pub open spec fn wf(self) -> bool {
        self.peers.wf()
    }

    /// What the member holds before its first snapshot.
    pub fn new() -> (r: HeldView)
        ensures
            r.wf(),
            r.gen == 0,
            r.peers@ == Map::<NodeId, PeerInfo>::empty(),
    {
        HeldView { gen: 0, peers: IdMap::new() }
    }

    /// Apply a delta. It is not applied onto another generation than the one
    /// it was made against: then nothing changes, and the member asks for a
    /// snapshot.
    pub fn apply(&mut self, d: MembershipDelta) -> (r: bool)
        requires
            old(self).wf(),
        ensures
            final(self).wf(),
            r == (d.base_rev == old(self).gen),
            !r ==> *final(self) == *old(self),
            r ==> final(self).gen == d.new_rev && held_map(final(self).peers@) == patched(
                held_map(old(self).peers@),
                peer_views(d.changed@),
                d.removed@,
            ),
    {
        if d.base_rev != self.gen {
            return false;
        }
        self.gen = d.new_rev;
        let ghost start = held_map(self.peers@);
        let ghost changed = peer_views(d.changed@);
        let ghost removed = d.removed@;
        let mut i: usize = 0;
        assert(held_map(self.peers@) =~= patched(start, Seq::empty(), removed.take(0)));
        while i < d.removed.len()
            invariant
                i <= removed.len(),
                removed == d.removed@,
                self.peers.wf(),
                self.gen == d.new_rev,
                held_map(self.peers@) == patched(start, Seq::empty(), removed.take(i as int)),
            decreases removed.len() - i,
        {
            let id = d.removed[i];
            let ghost was = self.peers@;
            self.peers.remove(id);
            proof {
                let t = removed.take(i as int);
                let u = removed.take(i + 1);
                assert(u =~= t.push(id));
                assert forall|x: NodeId| #[trigger] u.contains(x) <==> t.contains(x) || x == id by {
                    if t.contains(x) {
                        let q = choose|q: int| 0 <= q < t.len() && t[q] == x;
                        assert(u[q] == x);
                    }
                    if x == id {
                        assert(u[i as int] == x);
                    }
                    if u.contains(x) && x != id {
                        let q = choose|q: int| 0 <= q < u.len() && u[q] == x;
                        assert(t[q] == x);
                    }
                }
                let a = patched(start, Seq::empty(), t);
                assert(held_map(self.peers@) =~= held_map(was).remove(id));
                assert(patched(start, Seq::empty(), u) =~= a.remove(id));
            }
            i = i + 1;
        }
        assert(removed.take(i as int) =~= removed);
        let mut rest = d.changed;
        let ghost all = rest@;
        let mut n: usize = rest.len();
        assert(changed.skip(n as int) =~= Seq::empty());
        while n > 0
            invariant
                n == rest@.len(),
                n <= all.len(),
                rest@ == all.take(n as int),
                changed == peer_views(all),
                changed.len() == all.len(),
                self.peers.wf(),
                self.gen == d.new_rev,
                held_map(self.peers@) == patched(start, changed.skip(n as int), removed),
            decreases n,
        {
            assert(rest@.last() == all[n - 1]);
            if let Some(p) = rest.pop() {
                assert(p == all[n - 1]);
                let id = p.node_id;
                let ghost pv = p@;
                let ghost was = self.peers@;
                self.peers.insert(id, p);
                proof {
                    let t = changed.skip(n as int);
                    let u = changed.skip(n - 1);
                    assert(u[0] == pv);
                    assert(u.drop_first() =~= t);
                    assert forall|x: NodeId| #[trigger] peer_with_id(u, x) == (if x == id {
                        Some(pv)
                    } else {
                        peer_with_id(t, x)
                    }) by {
                        lemma_first_peer(u, x);
                    }
                    let a = patched(start, t, removed);
                    assert(held_map(self.peers@) =~= held_map(was).insert(id, pv));
                    assert(patched(start, u, removed) =~= a.insert(id, pv));
                }
                assert(rest@ =~= all.take(n - 1));
            }
            n = n - 1;
        }
        assert(changed.skip(0) =~= changed);
        true
    }
}

/// A member that says what it holds is sent nothing while the coordinator
/// still collects; nothing either where it holds the current view; the whole
/// view where it holds the current generation with another content; the
/// changes since its own generation, all of them and in order, where these are
/// kept; and the whole view otherwise.
pub proof fn law_a_member_is_sent_what_it_missed(
    s: Seq<DeltaView>,
    current: u64,
    digest: u64,
    have: u64,
    have_digest: Option<u64>,
    k: int,
)
    requires
        chained(s),
    ensures
        catch_up(s, current, digest, have, have_digest, true) is Deferred,
        have == current && (have_digest is None || have_digest == Some(digest)) ==> catch_up(
            s,
            current,
            digest,
            have,
            have_digest,
            false,
        ) is Current,
        have == current && have_digest is Some && have_digest != Some(digest) ==> catch_up(
            s,
            current,
            digest,
            have,
            have_digest,
            false,
        ) == (CatchUpView::Snapshot { mismatch: true }),
        have != current && 0 <= k < s.len() && s[k].base_rev == have && s[s.len() - 1].new_rev
            == current ==> ({
            let r = catch_up(s, current, digest, have, have_digest, false);
            &&& r is Deltas
            &&& r->0.len() == s.len() - k
            &&& forall|i: int| 0 <= i < s.len() - k ==> #[trigger] r->0[i] == s[k + i]
        }),
        have != current && (s.len() == 0 || s[s.len() - 1].new_rev != current || forall|i: int|
            0 <= i < s.len() ==> (#[trigger] s[i]).base_rev != have) ==> catch_up(
            s,
            current,
            digest,
            have,
            have_digest,
            false,
        ) == (CatchUpView::Snapshot { mismatch: false }),
{
    if 0 <= k < s.len() && s[k].base_rev == have && s[s.len() - 1].new_rev == current {
        lemma_leading(s, k);
    }
    if forall|i: int| 0 <= i < s.len() ==> (#[trigger] s[i]).base_rev != have {
        lemma_not_starting(s, have);
    }
}

/// A change that is published is kept as the newest. The changes before it
/// stay where it continues them, except the oldest where there is no room for
/// it; they go where it does not.
pub proof fn law_the_newest_change_is_kept(s: Seq<DeltaView>, d: DeltaView, limit: nat)
    requires
        s.len() <= limit,
        limit > 0,
    ensures
        ({
            let t = recorded(s, d, limit);
            &&& t.len() > 0 && t[t.len() - 1] == d
            &&& s.len() > 0 && s[s.len() - 1].new_rev != d.base_rev ==> t.len() == 1
            &&& s.len() == 0 ==> t.len() == 1
            &&& s.len() > 0 && s[s.len() - 1].new_rev == d.base_rev && s.len() < limit ==> t.len()
                == s.len() + 1 && forall|i: int| 0 <= i < s.len() ==> #[trigger] t[i] == s[i]
            &&& s.len() > 0 && s[s.len() - 1].new_rev == d.base_rev && s.len() == limit ==> t.len()
                == limit && forall|i: int| 0 <= i < s.len() - 1 ==> #[trigger] t[i] == s[i + 1]
        }),
{
}

} // verus!
