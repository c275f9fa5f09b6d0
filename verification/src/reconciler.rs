//! Bringing a client in line with a published view: whom it knows, whose
//! sessions end, and what is routed into the tunnel.

use vstd::prelude::*;

use crate::engine::{rekeyed, without_ids, Engine};
use crate::net::{all_valid, IpAddr, IpNet};
use crate::peers::{known_after, routed_all};
use crate::proto::{peer_views, NodeId, PeerInfo, Snapshot};
use crate::routes::{excluded, installable, reason_views, view_valid, wanted};
use crate::routeset::{applied, failure, Programmed, RouteProgrammer, RouteSet};
use crate::text::opt_text;

verus! {

/// A client's peers and routes.
pub struct ClientReconciler<P: RouteProgrammer> {
    pub engine: Engine,
    pub routes: RouteSet<P>,
    /// The addresses that this client carries.
    pub mine: Vec<IpNet>,
}

/// What came of taking in a view.
#[derive(Debug)]
pub struct Reconciled {
    /// Whose sessions ended because their key changed.
    pub rekeyed: Vec<NodeId>,
    /// The routes that are left out, and why.
    pub excluded: Vec<(IpNet, String)>,
    /// The first route that could not be added.
    pub failed: Option<String>,
}

impl<P: RouteProgrammer> ClientReconciler<P> {
    pub open spec fn wf(self) -> bool {
        &&& self.engine.wf()
        &&& self.routes.wf()
        &&& all_valid(self.mine@)
    }

    /// The routes that a view asks for, before anything local is left out.
    pub open spec fn asked(self, view: Snapshot) -> Seq<IpNet> {
        wanted(
            view.reserved_prefixes@,
            peer_views(view.members@),
            self.engine.my_node_id,
            self.mine@,
        )
    }

    /// Take in a view. `local` is what this host routes itself, `underlay`
    /// the addresses that the tunnel's own transport uses.
    pub fn reconcile(&mut self, view: Snapshot, local: &Vec<IpNet>, underlay: &Vec<IpAddr>) -> (r:
        Reconciled)
        requires
            old(self).wf(),
            view_valid(view),
            all_valid(local@),
        ensures
            final(self).wf(),
            final(self).mine == old(self).mine,
            r.rekeyed@ == rekeyed(old(self).engine.peers.peers@, view.members@),
            final(self).engine.peers.peers@ == known_after(Map::empty(), view.members@),
            final(self).engine.peers.lpm.entries@ == routed_all(
                Seq::empty(),
                peer_views(view.members@),
                old(self).engine.peers.my_node_id,
            ),
            final(self).engine.sessions.sessions@ == without_ids(
                old(self).engine.sessions.sessions@,
                r.rekeyed@,
            ),
            final(self).engine.sessions.pending@ == without_ids(
                old(self).engine.sessions.pending@,
                r.rekeyed@,
            ),
            final(self).engine.counters == old(self).engine.counters,
            final(self).engine.my_node_id == old(self).engine.my_node_id,
            final(self).engine.peers.mine == old(self).engine.peers.mine,
            final(self).engine.peers.my_node_id == old(self).engine.peers.my_node_id,
            final(self).engine.mtu == old(self).engine.mtu,
            final(self).engine.lanes == old(self).engine.lanes,
            final(self).engine.network_uuid == old(self).engine.network_uuid,
            final(self).routes.last == old(self).routes.last,
            crate::routeset::only_changes(
                old(self).routes.programmer,
                final(self).routes.programmer,
            ),
            reason_views(r.excluded@) == excluded(old(self).asked(view), local@, underlay@),
            exists|
                removed: Seq<Option<Seq<char>>>,
                added: Seq<Option<Seq<char>>>,
                log: Seq<Programmed>,
                outcome: Result<(), String>,
            | #[trigger]
                applied(
                    old(self).routes.installed@,
                    installable(old(self).asked(view), local@, underlay@),
                    removed,
                    added,
                    final(self).routes.installed@,
                    log,
                    outcome,
                ) && final(self).routes.programmer.log() == old(self).routes.programmer.log() + log
                    && opt_text(r.failed) == failure(outcome),
    {
        let (keep, left_out) = crate::member::plan_routes(
            &view,
            self.engine.my_node_id,
            &self.mine,
            local,
            underlay,
        );
        let rekeyed = self.engine.apply_view(view.members);
        let ghost before = self.routes;
        let outcome = self.routes.reconcile(&keep);
        proof {
            let (removed, added, log) = choose|
                removed: Seq<Option<Seq<char>>>,
                added: Seq<Option<Seq<char>>>,
                log: Seq<Programmed>,
            | #[trigger]
                applied(
                    before.installed@,
                    keep@,
                    removed,
                    added,
                    self.routes.installed@,
                    log,
                    outcome,
                ) && self.routes.programmer.log() == before.programmer.log() + log;
            assert(applied(
                before.installed@,
                installable(old(self).asked(view), local@, underlay@),
                removed,
                added,
                self.routes.installed@,
                log,
                outcome,
            ));
        }
        let failed = match outcome {
            Ok(_) => None,
            Err(e) => Some(e),
        };
        Reconciled { rekeyed, excluded: left_out, failed }
    }
}

/// No two members of a view have the same id.
pub open spec fn distinct_ids(members: Seq<PeerInfo>) -> bool {
    forall|i: int, j: int|
        0 <= i < j < members.len() ==> (#[trigger] members[i]).node_id != (
        #[trigger] members[j]).node_id
}

proof fn lemma_known(members: Seq<PeerInfo>, i: int)
    requires
        distinct_ids(members),
        0 <= i < members.len(),
    ensures
        known_after(Map::empty(), members).dom().contains(members[i].node_id),
        known_after(Map::empty(), members)[members[i].node_id] == members[i],
    decreases members.len(),
{
    let d = members.drop_last();
    if i < d.len() {
        assert(distinct_ids(d)) by {
            assert forall|a: int, b: int| 0 <= a < b < d.len() implies (#[trigger] d[a]).node_id != (
            #[trigger] d[b]).node_id by {
                assert(members[a] == d[a] && members[b] == d[b]);
            }
        }
        lemma_known(d, i);
        assert(members[i].node_id != members[members.len() - 1].node_id);
    }
}

proof fn lemma_nobody_rekeyed(known: Map<NodeId, PeerInfo>, members: Seq<PeerInfo>)
    requires
        forall|i: int|
            0 <= i < members.len() ==> known[(#[trigger] members[i]).node_id] == members[i],
    ensures
        rekeyed(known, members).len() == 0,
    decreases members.len(),
{
    if members.len() > 0 {
        let d = members.drop_last();
        assert forall|i: int| 0 <= i < d.len() implies known[(#[trigger] d[i]).node_id] == d[i] by {
            assert(members[i] == d[i]);
        }
        lemma_nobody_rekeyed(known, d);
        assert(members[members.len() - 1] == members.last());
    }
}

/// Taking in the view that was taken in last ends nobody's session.
pub proof fn law_the_same_view_ends_no_session(members: Seq<PeerInfo>)
    requires
        distinct_ids(members),
    ensures
        rekeyed(known_after(Map::empty(), members), members).len() == 0,
{
    let known = known_after(Map::empty(), members);
    assert forall|i: int| 0 <= i < members.len() implies known[(#[trigger] members[i]).node_id]
        == members[i] by {
        lemma_known(members, i);
    }
    lemma_nobody_rekeyed(known, members);
}

} // verus!
