//! A client's control session: what each push from the coordinator makes of
//! whom it knows and what it routes.

use vstd::prelude::*;

use crate::engine::{takes_delta, takes_view, Engine};
use crate::member::SnapshotAssembly;
use crate::net::{all_valid, IpNet};
use crate::nettext::{lemma_sort_by_text_contains, sort_by_text};
use crate::peers::{
    lemma_route_index, lemma_without_stale, put_route, route_index, routed_all, with_routes,
};
use crate::proto::{peer_views, NetworkMtu, NodeId, PeerInfo, PeerView, RelayEntry};

verus! {

/// A push from the coordinator.
#[derive(Debug)]
pub enum Downstream {
    /// A part of the view.
    Chunk { chunk_i: u32, chunk_n: u32, peers: Vec<PeerInfo> },
    /// A change of the view.
    Delta { changed: Vec<PeerInfo>, removed: Vec<NodeId> },
    /// The MTU of the network.
    Mtu(NetworkMtu),
    /// The relays that can be dialed.
    Relays(Vec<RelayEntry>),
    /// A kind that this version does not know, skipped.
    Unknown,
}

/// What a push makes the client do.
#[derive(Debug)]
pub enum Step {
    Nothing,
    /// Install these routes, and no others.
    Routes(Vec<IpNet>),
    /// Give the device this MTU.
    Mtu(NetworkMtu),
    /// Attach to one of these.
    Relays(Vec<RelayEntry>),
}

/// Every prefix of every member is a valid one.
pub open spec fn peers_valid(peers: Seq<PeerInfo>) -> bool {
    forall|i: int| 0 <= i < peers.len() ==> all_valid((#[trigger] peers[i]).prefixes@)
}

/// The prefixes of a push are valid ones.
pub open spec fn push_valid(msg: Downstream) -> bool {
    match msg {
        Downstream::Chunk { peers, .. } => peers_valid(peers@),
        Downstream::Delta { changed, .. } => peers_valid(changed@),
        _ => true,
    }
}

/// What is collected of a snapshot once a part has come. The first one starts
/// over.
pub open spec fn collected_with(
    collected: Seq<PeerInfo>,
    chunk_i: u32,
    peers: Seq<PeerInfo>,
) -> Seq<PeerInfo> {
    if chunk_i == 0 {
        peers
    } else {
        collected + peers
    }
}

/// The routes are those to every prefix that the engine knows an owner of.
pub open spec fn routes_all(e: Engine, s: Step) -> bool {
    s matches Step::Routes(nets) && nets@ == sort_by_text(
        e.peers.lpm.entries@.map_values(|x: (IpNet, NodeId)| x.0),
    )
}

/// What a push does. A view is taken in only once its last part is there;
/// until then nothing changes but what is collected. Whenever whom the client
/// knows has changed, the routes follow.
pub open spec fn follows(
    before: Engine,
    collected: Seq<PeerInfo>,
    msg: Downstream,
    after: Engine,
    kept: Seq<PeerInfo>,
    s: Step,
) -> bool {
    match msg {
        Downstream::Chunk { chunk_i, chunk_n, peers } => {
            let all = collected_with(collected, chunk_i, peers@);
            if chunk_i + 1 == chunk_n {
                &&& exists|changed: Seq<NodeId>| #[trigger] takes_view(before, after, all, changed)
                &&& kept.len() == 0
                &&& routes_all(after, s)
            } else {
                after == before && kept == all && s is Nothing
            }
        },
        Downstream::Delta { changed, removed } => {
            &&& takes_delta(before, after, changed@, removed@)
            &&& kept == collected
            &&& routes_all(after, s)
        },
        Downstream::Mtu(m) => after == before && kept == collected && s == Step::Mtu(m),
        Downstream::Relays(v) => after == before && kept == collected && s == Step::Relays(v),
        Downstream::Unknown => after == before && kept == collected && s is Nothing,
    }
}

/// Take in a push.
pub fn on_push(engine: &mut Engine, assembly: &mut SnapshotAssembly, msg: Downstream) -> (r: Step)
    requires
        old(engine).wf(),
        peers_valid(old(assembly).collected@),
        push_valid(msg),
    ensures
        final(engine).wf(),
        peers_valid(final(assembly).collected@),
        follows(
            *old(engine),
            old(assembly).collected@,
            msg,
            *final(engine),
            final(assembly).collected@,
            r,
        ),
{
    match msg {
        Downstream::Chunk { chunk_i, chunk_n, peers } => {
            let ghost all = collected_with(assembly.collected@, chunk_i, peers@);
            let ghost was = assembly.collected@;
            assert(peers_valid(all)) by {
                assert forall|i: int| 0 <= i < all.len() implies all_valid(
                    (#[trigger] all[i]).prefixes@,
                ) by {
                    if chunk_i == 0 {
                        assert(all[i] == peers@[i]);
                    } else if i < was.len() {
                        assert(all[i] == was[i]);
                    } else {
                        assert(all[i] == peers@[i - was.len()]);
                    }
                }
            }
            assert(chunk_i == 0 ==> Seq::<PeerInfo>::empty() + peers@ =~= peers@);
            match assembly.on_chunk(chunk_i, chunk_n, peers) {
                Some(members) => {
                    assert(members@ == all);
                    let ghost before = *engine;
                    let changed = engine.apply_view(members);
                    assert(takes_view(before, *engine, all, changed@));
                    Step::Routes(engine.peers.all_prefixes())
                },
                None => Step::Nothing,
            }
        },
        Downstream::Delta { changed, removed } => {
            engine.apply_delta(changed, &removed);
            Step::Routes(engine.peers.all_prefixes())
        },
        Downstream::Mtu(m) => Step::Mtu(m),
        Downstream::Relays(v) => Step::Relays(v),
        Downstream::Unknown => Step::Nothing,
    }
}

/// Some member other than `me` claims the prefix.
pub open spec fn claimed(members: Seq<PeerView>, me: NodeId, net: IpNet) -> bool {
    exists|i: int|
        0 <= i < members.len() && (#[trigger] members[i]).node_id != me
            && members[i].prefixes.contains(net)
}

/// No two members have the same id.
pub open spec fn ids_differ(members: Seq<PeerView>) -> bool {
    forall|i: int, j: int|
        0 <= i < j < members.len() ==> (#[trigger] members[i]).node_id != (
        #[trigger] members[j]).node_id
}

/// The table has a route to the prefix.
spec fn has_route(s: Seq<(IpNet, NodeId)>, net: IpNet) -> bool {
    exists|k: int| 0 <= k < s.len() && (#[trigger] s[k]).0 == net
}

proof fn lemma_put(s: Seq<(IpNet, NodeId)>, net: IpNet, id: NodeId)
    ensures
        forall|x: IpNet| #[trigger]
            has_route(put_route(s, net, id), x) <==> has_route(s, x) || x == net,
        forall|e: (IpNet, NodeId)| #[trigger]
            put_route(s, net, id).contains(e) ==> s.contains(e) || e == (net, id),
{
    lemma_route_index(s, net);
    let t = put_route(s, net, id);
    assert forall|x: IpNet| #[trigger] has_route(t, x) <==> has_route(s, x) || x == net by {
        if has_route(s, x) {
            let k = choose|k: int| 0 <= k < s.len() && (#[trigger] s[k]).0 == x;
            assert(t[k].0 == x);
        }
        if x == net {
            match route_index(s, net) {
                Some(i) => assert(t[i].0 == net),
                None => assert(t[s.len() as int].0 == net),
            }
        }
        if has_route(t, x) && x != net {
            let k = choose|k: int| 0 <= k < t.len() && (#[trigger] t[k]).0 == x;
            assert(s[k].0 == x);
        }
    }
    assert forall|e: (IpNet, NodeId)| #[trigger] t.contains(e) implies s.contains(e) || e == (
        net,
        id,
    ) by {
        let k = choose|k: int| 0 <= k < t.len() && t[k] == e;
        if e != (net, id) {
            assert(s[k] == e);
        }
    }
}

proof fn lemma_with(s: Seq<(IpNet, NodeId)>, prefixes: Seq<IpNet>, id: NodeId)
    ensures
        forall|x: IpNet| #[trigger]
            has_route(with_routes(s, prefixes, id), x) <==> has_route(s, x) || prefixes.contains(x),
        forall|e: (IpNet, NodeId)| #[trigger]
            with_routes(s, prefixes, id).contains(e) ==> s.contains(e) || (e.1 == id
                && prefixes.contains(e.0)),
    decreases prefixes.len(),
{
    if prefixes.len() > 0 {
        let d = prefixes.drop_last();
        lemma_with(s, d, id);
        let t = with_routes(s, d, id);
        lemma_put(t, prefixes.last(), id);
        assert forall|x: IpNet| #[trigger] prefixes.contains(x) <==> d.contains(x) || x
            == prefixes.last() by {
            if prefixes.contains(x) {
                let k = choose|k: int| 0 <= k < prefixes.len() && prefixes[k] == x;
                if k < d.len() {
                    assert(d[k] == x);
                }
            }
            if d.contains(x) {
                let k = choose|k: int| 0 <= k < d.len() && d[k] == x;
                assert(prefixes[k] == x);
            }
            if x == prefixes.last() {
                assert(prefixes[prefixes.len() - 1] == x);
            }
        }
    }
}

/// Members with different ids are all routed to, and nothing else is.
proof fn lemma_routed(members: Seq<PeerView>, me: NodeId)
    requires
        ids_differ(members),
    ensures
        forall|x: IpNet| #[trigger]
            has_route(routed_all(Seq::empty(), members, me), x) <==> claimed(members, me, x),
        forall|e: (IpNet, NodeId)| #[trigger]
            routed_all(Seq::empty(), members, me).contains(e) ==> e.1 != me && exists|i: int|
                0 <= i < members.len() && (#[trigger] members[i]).node_id == e.1,
    decreases members.len(),
{
    if members.len() > 0 {
        let d = members.drop_last();
        let p = members.last();
        assert(ids_differ(d)) by {
            assert forall|i: int, j: int| 0 <= i < j < d.len() implies (#[trigger] d[i]).node_id != (
            #[trigger] d[j]).node_id by {
                assert(members[i] == d[i] && members[j] == d[j]);
            }
        }
        lemma_routed(d, me);
        let s = routed_all(Seq::empty(), d, me);
        let mid = if p.node_id == me {
            s
        } else {
            with_routes(s, p.prefixes, p.node_id)
        };
        let t = routed_all(Seq::empty(), members, me);
        lemma_with(s, p.prefixes, p.node_id);
        assert forall|e: (IpNet, NodeId)| #[trigger] t.contains(e) <==> mid.contains(e) by {
            lemma_without_stale(mid, p.prefixes, p.node_id, e);
            if mid.contains(e) && e.1 == p.node_id && s.contains(e) {
                let i = choose|i: int| 0 <= i < d.len() && (#[trigger] d[i]).node_id == e.1;
                assert(members[i].node_id != members[members.len() - 1].node_id);
            }
        }
        assert forall|x: IpNet| #[trigger] has_route(t, x) <==> has_route(mid, x) by {
            if has_route(t, x) {
                let k = choose|k: int| 0 <= k < t.len() && (#[trigger] t[k]).0 == x;
                assert(t.contains(t[k]));
                let q = choose|q: int| 0 <= q < mid.len() && mid[q] == t[k];
                assert(mid[q].0 == x);
            }
            if has_route(mid, x) {
                let k = choose|k: int| 0 <= k < mid.len() && (#[trigger] mid[k]).0 == x;
                assert(mid.contains(mid[k]));
                assert(t.contains(mid[k]));
                let q = choose|q: int| 0 <= q < t.len() && t[q] == mid[k];
                assert(t[q].0 == x);
            }
        }
        assert forall|x: IpNet| #[trigger] has_route(t, x) <==> claimed(members, me, x) by {
            if claimed(d, me, x) {
                let i = choose|i: int|
                    0 <= i < d.len() && (#[trigger] d[i]).node_id != me && d[i].prefixes.contains(
                        x,
                    );
                assert(members[i] == d[i]);
            }
            if p.node_id != me && p.prefixes.contains(x) {
                assert(members[members.len() - 1] == p);
            }
            if claimed(members, me, x) {
                let i = choose|i: int|
                    0 <= i < members.len() && (#[trigger] members[i]).node_id != me
                        && members[i].prefixes.contains(x);
                if i < d.len() {
                    assert(d[i] == members[i]);
                    assert(claimed(d, me, x));
                }
            }
        }
        assert forall|e: (IpNet, NodeId)| #[trigger] t.contains(e) implies e.1 != me && exists|i: int|
            0 <= i < members.len() && (#[trigger] members[i]).node_id == e.1 by {
            if s.contains(e) {
                let i = choose|i: int| 0 <= i < d.len() && (#[trigger] d[i]).node_id == e.1;
                assert(members[i].node_id == e.1);
            } else {
                assert(members[members.len() - 1].node_id == e.1);
            }
        }
    } else {
        let t = routed_all(Seq::empty(), members, me);
        assert(t.len() == 0);
    }
}

/// The last part of a snapshot puts the client in line with the whole of it:
/// it knows exactly the members that all the parts brought, and routes
/// exactly the prefixes that the others among them claim.
pub proof fn law_the_last_part_installs_the_view(
    before: Engine,
    collected: Seq<PeerInfo>,
    chunk_i: u32,
    chunk_n: u32,
    peers: Vec<PeerInfo>,
    after: Engine,
    kept: Seq<PeerInfo>,
    s: Step,
    net: IpNet,
)
    requires
        chunk_i + 1 == chunk_n,
        follows(
            before,
            collected,
            Downstream::Chunk { chunk_i, chunk_n, peers },
            after,
            kept,
            s,
        ),
        ids_differ(peer_views(collected_with(collected, chunk_i, peers@))),
    ensures
        ({
            let all = collected_with(collected, chunk_i, peers@);
            &&& after.peers.peers@ == crate::peers::known_after(Map::empty(), all)
            &&& s matches Step::Routes(nets) && (nets@.contains(net) <==> claimed(
                peer_views(all),
                before.peers.my_node_id,
                net,
            ))
        }),
{
    let all = collected_with(collected, chunk_i, peers@);
    let v = peer_views(all);
    let me = before.peers.my_node_id;
    lemma_routed(v, me);
    let t = after.peers.lpm.entries@;
    assert(t == routed_all(Seq::empty(), v, me));
    let nets = t.map_values(|x: (IpNet, NodeId)| x.0);
    lemma_sort_by_text_contains(nets, net);
    if nets.contains(net) {
        let k = choose|k: int| 0 <= k < nets.len() && nets[k] == net;
        assert(t[k].0 == net);
        assert(has_route(t, net));
    }
    if has_route(t, net) {
        let k = choose|k: int| 0 <= k < t.len() && (#[trigger] t[k]).0 == net;
        assert(nets[k] == net);
    }
}

/// Until the last part of a view has come nothing changes but what is
/// collected: the first part starts over, and each further one is put behind
/// what there is.
pub proof fn law_a_part_waits_for_the_last(
    before: Engine,
    collected: Seq<PeerInfo>,
    chunk_i: u32,
    chunk_n: u32,
    peers: Vec<PeerInfo>,
    after: Engine,
    kept: Seq<PeerInfo>,
    s: Step,
)
    requires
        chunk_i + 1 != chunk_n,
        follows(
            before,
            collected,
            Downstream::Chunk { chunk_i, chunk_n, peers },
            after,
            kept,
            s,
        ),
    ensures
        after == before,
        s is Nothing,
        chunk_i == 0 ==> kept == peers@,
        chunk_i > 0 ==> kept == collected + peers@,
{
}

} // verus!
