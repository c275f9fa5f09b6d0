//! What becomes of packets and of those who send them, said of the header, the
//! routes and the sessions.

use vstd::prelude::*;

use crate::engine::{
    bumped, inbound_effect, lemma_without_ids, outbound_effect, rekeyed, rekeyed_in_turn,
    takes_delta, takes_view, without_ids, Engine, FrameKind, Inbound, Outbound,
    RoutedHeader, SessionTable, PENDING_LIMIT,
};
use crate::net::{IpAddr, IpNet};
use crate::peers::{
    be, ingress_problem, inner_addrs, known_after, law_the_longest_prefix_wins, lemma_without_stale,
    owner_in, put_route, routed, with_routes, without_routes, drop_route, PeerTable,
};
use crate::proto::{NodeId, PeerInfo, PeerView};
use crate::secrets::base64_bytes;

verus! {

/// The addresses of a packet stand in its header in network order: behind the
/// twelfth byte in IPv4, behind the eighth in IPv6, the source first. What is
/// neither, or too short for its header, is no packet.
pub proof fn law_addresses_stand_in_the_header(p: Seq<u8>)
    ensures
        p.len() >= 20 && p[0] / 16 == 4 ==> (inner_addrs(p) matches Some((src, dst)) && src
            == IpAddr::V4(
            (p[12] * 0x100_0000 + p[13] * 0x1_0000 + p[14] * 0x100 + p[15]) as u32,
        ) && dst == IpAddr::V4(
            (p[16] * 0x100_0000 + p[17] * 0x1_0000 + p[18] * 0x100 + p[19]) as u32,
        )),
        p.len() >= 40 && p[0] / 16 == 6 ==> (inner_addrs(p) matches Some((src, dst)) && src
            == IpAddr::V6(be(p.subrange(8, 24)) as u128) && dst == IpAddr::V6(
            be(p.subrange(24, 40)) as u128,
        )),
        p.len() < 20 || (p[0] / 16 != 4 && p[0] / 16 != 6) || (p[0] / 16 == 6 && p.len() < 40)
            ==> inner_addrs(p) is None,
{
    if p.len() >= 20 && p[0] / 16 == 4 {
        lemma_be_of_four(p.subrange(12, 16));
        lemma_be_of_four(p.subrange(16, 20));
    }
}

proof fn lemma_be_of_four(s: Seq<u8>)
    requires
        s.len() == 4,
    ensures
        be(s) == s[0] * 0x100_0000 + s[1] * 0x1_0000 + s[2] * 0x100 + s[3],
{
    reveal_with_fuel(be, 5);
    let a = s.drop_last();
    let b = a.drop_last();
    let c = b.drop_last();
    assert(c.drop_last() =~= Seq::empty());
    assert(c.last() == s[0] && b.last() == s[1] && a.last() == s[2] && s.last() == s[3]);
}

/// Bytes in network order: one more byte shifts what stands before it.
pub proof fn law_bytes_spell_numbers_in_network_order(s: Seq<u8>, b: u8)
    ensures
        be(Seq::<u8>::empty()) == 0,
        be(s.push(b)) == be(s) * 256 + b,
{
    assert(s.push(b).drop_last() =~= s);
}

/// A prefix routes the address to the member, and no more specific one
/// holds the address.
pub open spec fn routes_to(s: Seq<(IpNet, NodeId)>, ip: IpAddr, peer: NodeId) -> bool {
    exists|k: int|
        0 <= k < s.len() && (#[trigger] s[k]).1 == peer && s[k].0.has(ip) && forall|j: int|
            0 <= j < s.len() && (#[trigger] s[j]).0.has(ip) ==> s[j].0.prefix_len
                <= s[k].0.prefix_len
}

/// What becomes of a packet from the device. It is dropped exactly where it is
/// longer than the MTU, is no packet, or goes where no prefix leads; it is
/// handed back where it goes to this node. Otherwise the most specific prefix
/// decides who gets it: it is sealed for that member where a session is ready,
/// and waits behind everything else for it where none is.
pub proof fn law_a_packet_goes_to_the_owner_of_its_destination(
    before: Engine,
    after: Engine,
    packet: Vec<u8>,
    r: Outbound,
)
    requires
        outbound_effect(before, after, packet, r),
    ensures
        ({
            let mine = before.peers.mine@;
            let table = before.peers.lpm.entries@;
            let sessions = before.sessions.sessions@;
            let fits = packet@.len() <= before.mtu;
            let local = fits && (inner_addrs(packet@) matches Some((_, dst)) && exists|i: int|
                0 <= i < mine.len() && (#[trigger] mine[i]).has(dst));
            &&& r is LoopBack <==> local
            &&& r is Dropped <==> !fits || inner_addrs(packet@) is None || (!local && (inner_addrs(
                packet@,
            ) matches Some((_, dst)) && forall|j: int|
                0 <= j < table.len() ==> !(#[trigger] table[j]).0.has(dst)))
            &&& r matches Outbound::Seal(peer) ==> fits && !local && (inner_addrs(
                packet@,
            ) matches Some((_, dst)) && routes_to(table, dst, peer)) && sessions.dom().contains(
                peer,
            ) && sessions[peer].ready && after == before
            &&& r matches Outbound::Handshake { peer, pubkey } ==> fits && !local && (inner_addrs(
                packet@,
            ) matches Some((_, dst)) && routes_to(table, dst, peer)) && !sessions.dom().contains(
                peer,
            ) && after.sessions.pending@.dom().contains(peer)
                && after.sessions.pending@[peer]@.last() == packet
            &&& r is Wait ==> fits && !local && (inner_addrs(packet@) matches Some((_, dst))
                && exists|peer: NodeId|
                #![trigger after.sessions.pending@.dom().contains(peer)]
                routes_to(table, dst, peer) && !(sessions.dom().contains(peer)
                    && sessions[peer].ready) && after.sessions.pending@.dom().contains(peer)
                    && after.sessions.pending@[peer]@.last() == packet)
        }),
{
    if let Some((_, dst)) = inner_addrs(packet@) {
        let table = before.peers.lpm.entries@;
        law_the_longest_prefix_wins(table, dst);
        if let Some(peer) = owner_in(table, dst) {
            let e = crate::peers::best_route(table, dst)->0;
            let k = choose|k: int| 0 <= k < table.len() && table[k] == e;
            assert(table[k].1 == peer);
            assert(routes_to(table, dst, peer));
            let q = before.sessions.waiting(peer);
            assert(crate::engine::queued(q, packet).last() == packet);
            assert(crate::engine::queued(q, packet).len() > 0);
            if after.sessions.waiting(peer) == crate::engine::queued(q, packet) {
                assert(after.sessions.pending@.dom().contains(peer));
            }
        }
    }
}

/// A frame is taken in only where it is for this node. A handshake is handed
/// on; data is unsealed where it carries a counter and there is a session with
/// its sender; everything else is dropped.
pub proof fn law_a_frame_for_us_is_taken_in(
    before: Engine,
    after: Engine,
    header: Option<RoutedHeader>,
    body: Seq<u8>,
    r: Inbound,
)
    requires
        inbound_effect(before, after, header, body, r),
    ensures
        r is Handshake <==> (header matches Some(h) && h.dst_id == before.my_node_id && h.kind
            == FrameKind::Handshake),
        r is Unseal <==> (header matches Some(h) && h.dst_id == before.my_node_id && h.kind
            == FrameKind::Data && body.len() >= 8 && before.sessions.sessions@.dom().contains(
            h.src_id,
        )),
        r matches Inbound::Handshake(peer) ==> peer == header->0.src_id && after == before,
        r matches Inbound::Unseal { peer, ctr } ==> peer == header->0.src_id && ctr == be(
            body.subrange(0, 8),
        ) as u64 && after == before,
        after.peers == before.peers,
        after.sessions == before.sessions,
{
    if body.len() >= 8 {
        assert(body.take(8) =~= body.subrange(0, 8));
    }
}

/// What is unsealed reaches the device exactly where its source is routed to
/// the member that sealed it and its destination is one of ours.
pub proof fn law_nobody_sends_under_anothers_address(
    table: Seq<(IpNet, NodeId)>,
    mine: Seq<IpNet>,
    sender: NodeId,
    packet: Seq<u8>,
    src: IpAddr,
    dst: IpAddr,
)
    requires
        inner_addrs(packet) == Some((src, dst)),
    ensures
        ingress_problem(table, mine, sender, packet) is None ==> routes_to(table, src, sender) && exists|
            i: int,
        |
            0 <= i < mine.len() && (#[trigger] mine[i]).has(dst),
        (forall|k: int|
            0 <= k < table.len() && (#[trigger] table[k]).0.has(src) ==> table[k].1 == sender) && (
        exists|k: int| 0 <= k < table.len() && (#[trigger] table[k]).0.has(src)) && (exists|i: int|
            0 <= i < mine.len() && (#[trigger] mine[i]).has(dst)) ==> ingress_problem(
            table,
            mine,
            sender,
            packet,
        ) is None,
{
    law_the_longest_prefix_wins(table, src);
    if let Some(e) = crate::peers::best_route(table, src) {
        let k = choose|k: int| 0 <= k < table.len() && table[k] == e;
        assert(table[k].0.has(src));
    }
}

/// A counter counts one more each time, from the start again behind the
/// highest number.
pub proof fn law_a_counter_counts_on(n: u64)
    ensures
        n < u64::MAX ==> bumped(n) == n + 1,
        n == u64::MAX ==> bumped(n) == 0,
{
}

/// One of the members has this id.
pub open spec fn tells_of(peers: Seq<PeerInfo>, id: NodeId) -> bool {
    exists|i: int| 0 <= i < peers.len() && (#[trigger] peers[i]).node_id == id
}

/// One of the members has this id and another key than is known of it.
pub open spec fn tells_of_another_key(
    known: Map<NodeId, PeerInfo>,
    peers: Seq<PeerInfo>,
    id: NodeId,
) -> bool {
    known.dom().contains(id) && exists|i: int|
        0 <= i < peers.len() && (#[trigger] peers[i]).node_id == id && known[id].pubkey@
            != peers[i].pubkey@
}

/// No two of the members have the same id.
pub open spec fn one_each(peers: Seq<PeerInfo>) -> bool {
    forall|i: int, j: int|
        0 <= i < j < peers.len() ==> (#[trigger] peers[i]).node_id != (#[trigger] peers[j]).node_id
}

proof fn lemma_tells_of(peers: Seq<PeerInfo>, id: NodeId)
    requires
        peers.len() > 0,
    ensures
        tells_of(peers, id) <==> tells_of(peers.drop_last(), id) || peers.last().node_id == id,
{
    let d = peers.drop_last();
    if tells_of(peers, id) {
        let i = choose|i: int| 0 <= i < peers.len() && (#[trigger] peers[i]).node_id == id;
        if i < d.len() {
            assert(d[i].node_id == id);
        }
    }
    if tells_of(d, id) {
        let i = choose|i: int| 0 <= i < d.len() && (#[trigger] d[i]).node_id == id;
        assert(peers[i].node_id == id);
    }
    if peers.last().node_id == id {
        assert(peers[peers.len() - 1].node_id == id);
    }
}

proof fn lemma_tells_of_another_key(
    known: Map<NodeId, PeerInfo>,
    peers: Seq<PeerInfo>,
    id: NodeId,
)
    requires
        peers.len() > 0,
    ensures
        tells_of_another_key(known, peers, id) <==> tells_of_another_key(
            known,
            peers.drop_last(),
            id,
        ) || (known.dom().contains(id) && peers.last().node_id == id && known[id].pubkey@
            != peers.last().pubkey@),
{
    let d = peers.drop_last();
    if tells_of_another_key(known, peers, id) {
        let i = choose|i: int|
            0 <= i < peers.len() && (#[trigger] peers[i]).node_id == id && known[id].pubkey@
                != peers[i].pubkey@;
        if i < d.len() {
            assert(d[i].node_id == id);
        }
    }
    if tells_of_another_key(known, d, id) {
        let i = choose|i: int|
            0 <= i < d.len() && (#[trigger] d[i]).node_id == id && known[id].pubkey@
                != d[i].pubkey@;
        assert(peers[i].node_id == id);
    }
    if peers.last().node_id == id {
        assert(peers[peers.len() - 1].node_id == id);
    }
}

proof fn lemma_known_dom(m: Map<NodeId, PeerInfo>, peers: Seq<PeerInfo>, id: NodeId)
    ensures
        known_after(m, peers).dom().contains(id) <==> m.dom().contains(id) || tells_of(peers, id),
        !tells_of(peers, id) && m.dom().contains(id) ==> known_after(m, peers)[id] == m[id],
    decreases peers.len(),
{
    if peers.len() > 0 {
        lemma_known_dom(m, peers.drop_last(), id);
        lemma_tells_of(peers, id);
    }
}

proof fn lemma_known_at(m: Map<NodeId, PeerInfo>, peers: Seq<PeerInfo>, i: int)
    requires
        0 <= i < peers.len(),
        forall|j: int|
            i < j < peers.len() ==> (#[trigger] peers[j]).node_id != peers[i].node_id,
    ensures
        known_after(m, peers).dom().contains(peers[i].node_id),
        known_after(m, peers)[peers[i].node_id] == peers[i],
    decreases peers.len(),
{
    let d = peers.drop_last();
    if i < d.len() {
        assert(d[i] == peers[i]);
        assert forall|j: int| i < j < d.len() implies (#[trigger] d[j]).node_id != d[i].node_id by {
            assert(d[j] == peers[j]);
        }
        lemma_known_at(m, d, i);
        assert(peers[peers.len() - 1].node_id != peers[i].node_id);
    }
}

/// What was told of a member last is what is known of it; of whom nothing was
/// told, what was known before.
pub proof fn law_the_last_word_on_a_member_counts(
    m: Map<NodeId, PeerInfo>,
    peers: Seq<PeerInfo>,
    id: NodeId,
    i: int,
)
    ensures
        known_after(m, peers).dom().contains(id) <==> m.dom().contains(id) || exists|k: int|
            0 <= k < peers.len() && (#[trigger] peers[k]).node_id == id,
        0 <= i < peers.len() && (forall|j: int|
            i < j < peers.len() ==> (#[trigger] peers[j]).node_id != peers[i].node_id)
            ==> known_after(m, peers)[peers[i].node_id] == peers[i],
        (forall|k: int| 0 <= k < peers.len() ==> (#[trigger] peers[k]).node_id != id)
            && m.dom().contains(id) ==> known_after(m, peers)[id] == m[id],
{
    lemma_known_dom(m, peers, id);
    if 0 <= i < peers.len() && forall|j: int|
        i < j < peers.len() ==> (#[trigger] peers[j]).node_id != peers[i].node_id {
        lemma_known_at(m, peers, i);
    }
}

proof fn lemma_rekeyed_only(known: Map<NodeId, PeerInfo>, members: Seq<PeerInfo>, id: NodeId)
    ensures
        rekeyed(known, members).contains(id) <==> tells_of_another_key(known, members, id),
    decreases members.len(),
{
    let all = rekeyed(known, members);
    if members.len() == 0 {
        assert(all =~= Seq::empty());
    } else {
        let p = rekeyed(known, members.drop_last());
        lemma_rekeyed_only(known, members.drop_last(), id);
        lemma_tells_of_another_key(known, members, id);
        if all.contains(id) {
            let k = choose|k: int| 0 <= k < all.len() && all[k] == id;
            if k < p.len() {
                assert(p[k] == id);
                assert(p.contains(id));
            }
        }
        if p.contains(id) {
            let k = choose|k: int| 0 <= k < p.len() && p[k] == id;
            assert(all[k] == id);
        }
        if all.len() > p.len() && members.last().node_id == id {
            assert(all[p.len() as int] == id);
        }
    }
}

/// A whole view replaces who is known: those it names and nobody else, each as
/// it says. A session ends exactly where the view names another key for its
/// member than was known, and what waited for that member is dropped.
pub proof fn law_a_view_replaces_who_is_known(
    before: Engine,
    after: Engine,
    members: Seq<PeerInfo>,
    changed: Seq<NodeId>,
    id: NodeId,
    i: int,
)
    requires
        takes_view(before, after, members, changed),
        one_each(members),
    ensures
        after.peers.peers@.dom().contains(id) <==> tells_of(members, id),
        0 <= i < members.len() ==> after.peers.peers@[members[i].node_id] == members[i],
        after.sessions.sessions@.dom().contains(id) <==> before.sessions.sessions@.dom().contains(id)
            && !tells_of_another_key(before.peers.peers@, members, id),
        after.sessions.pending@.dom().contains(id) <==> before.sessions.pending@.dom().contains(id)
            && !tells_of_another_key(before.peers.peers@, members, id),
        changed.contains(id) <==> tells_of_another_key(before.peers.peers@, members, id),
        after.sessions.sessions@.dom().contains(id) ==> after.sessions.sessions@[id]
            == before.sessions.sessions@[id],
        after.peers.mine == before.peers.mine,
        after.my_node_id == before.my_node_id,
        after.mtu == before.mtu,
{
    lemma_known_dom(Map::empty(), members, id);
    lemma_rekeyed_only(before.peers.peers@, members, id);
    lemma_without_ids(before.sessions.sessions@, changed, id);
    lemma_without_ids(before.sessions.pending@, changed, id);
    if 0 <= i < members.len() {
        lemma_known_at(Map::empty(), members, i);
    }
}

proof fn lemma_rekeyed_in_turn(known: Map<NodeId, PeerInfo>, changed: Seq<PeerInfo>, id: NodeId)
    requires
        one_each(changed),
    ensures
        rekeyed_in_turn(known, changed).contains(id) <==> tells_of_another_key(known, changed, id),
    decreases changed.len(),
{
    let all = rekeyed_in_turn(known, changed);
    if changed.len() == 0 {
        assert(all =~= Seq::empty());
    } else {
        let d = changed.drop_last();
        let p = rekeyed_in_turn(known, d);
        let m = changed.last();
        assert(one_each(d)) by {
            assert forall|i: int, j: int| 0 <= i < j < d.len() implies (#[trigger] d[i]).node_id != (
            #[trigger] d[j]).node_id by {
                assert(changed[i].node_id != changed[j].node_id);
            }
        }
        lemma_rekeyed_in_turn(known, d, id);
        lemma_tells_of_another_key(known, changed, id);
        assert(!tells_of(d, m.node_id)) by {
            if tells_of(d, m.node_id) {
                let i = choose|i: int| 0 <= i < d.len() && (#[trigger] d[i]).node_id == m.node_id;
                assert(changed[i].node_id != changed[changed.len() - 1].node_id);
            }
        }
        lemma_known_dom(known, d, m.node_id);
        if all.contains(id) {
            let k = choose|k: int| 0 <= k < all.len() && all[k] == id;
            if k < p.len() {
                assert(p[k] == id);
                assert(p.contains(id));
            }
        }
        if p.contains(id) {
            let k = choose|k: int| 0 <= k < p.len() && p[k] == id;
            assert(all[k] == id);
        }
        if all.len() > p.len() && m.node_id == id {
            assert(all[p.len() as int] == id);
        }
    }
}

/// A change of the view touches those it names. Whoever it removes is known no
/// longer and has no session; whoever it tells of is known as it says, and
/// keeps a session only under the same key; everyone else stays as they were.
pub proof fn law_a_delta_touches_whom_it_names(
    before: Engine,
    after: Engine,
    changed: Seq<PeerInfo>,
    removed: Seq<NodeId>,
    id: NodeId,
    i: int,
)
    requires
        takes_delta(before, after, changed, removed),
        one_each(changed),
    ensures
        removed.contains(id) ==> !after.peers.peers@.dom().contains(id)
            && !after.sessions.sessions@.dom().contains(id)
            && !after.sessions.pending@.dom().contains(id),
        0 <= i < changed.len() && !removed.contains(changed[i].node_id)
            ==> after.peers.peers@.dom().contains(changed[i].node_id)
            && after.peers.peers@[changed[i].node_id] == changed[i],
        !removed.contains(id) && !tells_of(changed, id) ==> {
            &&& after.peers.peers@.dom().contains(id) == before.peers.peers@.dom().contains(id)
            &&& after.peers.peers@.dom().contains(id) ==> after.peers.peers@[id]
                == before.peers.peers@[id]
        },
        !removed.contains(id) ==> (after.sessions.sessions@.dom().contains(id)
            <==> before.sessions.sessions@.dom().contains(id) && !tells_of_another_key(
            before.peers.peers@,
            changed,
            id,
        )),
{
    let known = before.peers.peers@;
    let ended = rekeyed_in_turn(known, changed);
    lemma_known_dom(known, changed, id);
    lemma_rekeyed_in_turn(known, changed, id);
    lemma_without_ids(known_after(known, changed), removed, id);
    lemma_without_ids(before.sessions.sessions@, ended, id);
    lemma_without_ids(without_ids(before.sessions.sessions@, ended), removed, id);
    lemma_without_ids(before.sessions.pending@, ended, id);
    lemma_without_ids(without_ids(before.sessions.pending@, ended), removed, id);
    if 0 <= i < changed.len() {
        lemma_known_at(known, changed, i);
        lemma_without_ids(known_after(known, changed), removed, changed[i].node_id);
    }
}

proof fn lemma_ready_among(t: SessionTable, peers: Seq<NodeId>, id: NodeId)
    ensures
        t.ready_among(peers).contains(id) <==> peers.contains(id) && t.sessions@.dom().contains(id)
            && t.sessions@[id].ready,
    decreases peers.len(),
{
    let all = t.ready_among(peers);
    if peers.len() > 0 {
        let d = peers.drop_last();
        let p = t.ready_among(d);
        lemma_ready_among(t, d, id);
        if all.contains(id) {
            let k = choose|k: int| 0 <= k < all.len() && all[k] == id;
            if k < p.len() {
                assert(p[k] == id);
                let i = choose|i: int| 0 <= i < d.len() && d[i] == id;
                assert(peers[i] == id);
            } else {
                assert(peers[peers.len() - 1] == id);
            }
        }
        if peers.contains(id) && t.ready(id) {
            let i = choose|i: int| 0 <= i < peers.len() && peers[i] == id;
            if i < d.len() {
                assert(d[i] == id);
                let k = choose|k: int| 0 <= k < p.len() && p[k] == id;
                assert(all[k] == id);
            } else {
                assert(all[p.len() as int] == id);
            }
        }
    }
}

/// A session ends where it is ready and past its deadline, or where its
/// handshake went stale; every other one stays.
pub proof fn law_a_session_past_its_deadline_ends(
    t: SessionTable,
    past_deadline: Seq<NodeId>,
    stale: Seq<NodeId>,
    id: NodeId,
)
    ensures
        ({
            let left = without_ids(
                without_ids(t.sessions@, t.ready_among(past_deadline)),
                stale,
            );
            &&& left.dom().contains(id) <==> t.sessions@.dom().contains(id) && !stale.contains(id)
                && !(past_deadline.contains(id) && t.sessions@[id].ready)
            &&& left.dom().contains(id) ==> left[id] == t.sessions@[id]
        }),
{
    lemma_ready_among(t, past_deadline, id);
    lemma_without_ids(t.sessions@, t.ready_among(past_deadline), id);
    lemma_without_ids(without_ids(t.sessions@, t.ready_among(past_deadline)), stale, id);
}

proof fn lemma_with_routes_frame(
    s: Seq<(IpNet, NodeId)>,
    prefixes: Seq<IpNet>,
    id: NodeId,
    e: (IpNet, NodeId),
)
    requires
        !prefixes.contains(e.0),
    ensures
        with_routes(s, prefixes, id).contains(e) <==> s.contains(e),
    decreases prefixes.len(),
{
    if prefixes.len() > 0 {
        let d = prefixes.drop_last();
        let t = with_routes(s, d, id);
        let net = prefixes.last();
        assert(prefixes[prefixes.len() - 1] == net);
        assert(!d.contains(e.0)) by {
            if d.contains(e.0) {
                let i = choose|i: int| 0 <= i < d.len() && d[i] == e.0;
                assert(prefixes[i] == e.0);
            }
        }
        lemma_with_routes_frame(s, d, id, e);
        crate::peers::lemma_route_index(t, net);
        let u = put_route(t, net, id);
        if t.contains(e) {
            let k = choose|k: int| 0 <= k < t.len() && t[k] == e;
            assert(u[k] == e);
        }
        if u.contains(e) {
            let k = choose|k: int| 0 <= k < u.len() && u[k] == e;
            assert(t[k] == e);
        }
    }
}

/// Telling of a member leaves the routes of everyone else, but for the
/// prefixes that it claims now.
pub proof fn law_telling_of_a_member_leaves_the_others(
    s: Seq<(IpNet, NodeId)>,
    p: PeerView,
    me: NodeId,
    e: (IpNet, NodeId),
)
    requires
        e.1 != p.node_id,
        !p.prefixes.contains(e.0),
    ensures
        routed(s, p, me).contains(e) <==> s.contains(e),
{
    let mid = if p.node_id == me {
        s
    } else {
        with_routes(s, p.prefixes, p.node_id)
    };
    lemma_with_routes_frame(s, p.prefixes, p.node_id, e);
    lemma_without_stale(mid, p.prefixes, p.node_id, e);
}

proof fn lemma_drop_route(s: Seq<(IpNet, NodeId)>, net: IpNet, e: (IpNet, NodeId))
    ensures
        drop_route(s, net).contains(e) <==> s.contains(e) && e.0 != net,
    decreases s.len(),
{
    if s.len() > 0 {
        let d = s.drop_last();
        let p = drop_route(d, net);
        let all = drop_route(s, net);
        lemma_drop_route(d, net, e);
        if all.contains(e) {
            let k = choose|k: int| 0 <= k < all.len() && all[k] == e;
            if k < p.len() {
                assert(p[k] == e);
                let i = choose|i: int| 0 <= i < d.len() && d[i] == e;
                assert(s[i] == e);
            } else {
                assert(s[s.len() - 1] == e);
            }
        }
        if s.contains(e) && e.0 != net {
            let i = choose|i: int| 0 <= i < s.len() && s[i] == e;
            if i < d.len() {
                assert(d[i] == e);
                let k = choose|k: int| 0 <= k < p.len() && p[k] == e;
                assert(all[k] == e);
            } else {
                assert(all[p.len() as int] == e);
            }
        }
    }
}

/// A member that is forgotten takes the prefixes with it that it was last
/// known to have, and no others.
pub proof fn law_forgetting_a_member_drops_its_prefixes(
    s: Seq<(IpNet, NodeId)>,
    prefixes: Seq<IpNet>,
    e: (IpNet, NodeId),
)
    ensures
        without_routes(s, prefixes).contains(e) <==> s.contains(e) && !prefixes.contains(e.0),
    decreases prefixes.len(),
{
    if prefixes.len() > 0 {
        let d = prefixes.drop_last();
        law_forgetting_a_member_drops_its_prefixes(s, d, e);
        lemma_drop_route(without_routes(s, d), prefixes.last(), e);
        if d.contains(e.0) {
            let i = choose|i: int| 0 <= i < d.len() && d[i] == e.0;
            assert(prefixes[i] == e.0);
        }
        if prefixes.last() == e.0 {
            assert(prefixes[prefixes.len() - 1] == e.0);
        }
        if prefixes.contains(e.0) {
            let i = choose|i: int| 0 <= i < prefixes.len() && prefixes[i] == e.0;
            if i < d.len() {
                assert(d[i] == e.0);
            }
        }
    }
}

/// A packet whose owner there is no session with waits behind those that wait
/// already, of which only the oldest leaves, and only from a full queue; and
/// the packets for the others stay where they are. A handshake is begun, with
/// the key that the owner is known by, where none is under way.
pub proof fn law_a_packet_waits_for_its_session(
    before: Engine,
    after: Engine,
    packet: Vec<u8>,
    r: Outbound,
    other: NodeId,
)
    requires
        outbound_effect(before, after, packet, r),
    ensures
        r matches Outbound::Handshake { peer, pubkey } ==> {
            let was = before.sessions.waiting(peer);
            let now = after.sessions.waiting(peer);
            &&& before.peers.key(peer) == Some(pubkey@)
            &&& !before.sessions.sessions@.dom().contains(peer)
            &&& after.sessions.sessions == before.sessions.sessions
            &&& was.len() < PENDING_LIMIT ==> now.len() == was.len() + 1 && forall|i: int|
                0 <= i < was.len() ==> #[trigger] now[i] == was[i]
            &&& was.len() == PENDING_LIMIT ==> now.len() == PENDING_LIMIT && forall|i: int|
                0 <= i < was.len() - 1 ==> #[trigger] now[i] == was[i + 1]
            &&& other != peer ==> after.sessions.waiting(other) == before.sessions.waiting(other)
        },
        r is Wait ==> exists|peer: NodeId|
            #![trigger before.peers.key(peer)]
            {
                &&& routes_to(before.peers.lpm.entries@, (inner_addrs(packet@)->0).1, peer)
                &&& before.sessions.sessions@.dom().contains(peer) || before.peers.key(peer) is None
                &&& !before.sessions.ready(peer)
                &&& after.sessions.waiting(peer).last() == packet
                &&& other != peer ==> after.sessions.waiting(other) == before.sessions.waiting(
                    other,
                )
            },
        r is Wait ==> after.sessions.sessions == before.sessions.sessions,
        after.peers == before.peers,
{
    if let Some((_, dst)) = inner_addrs(packet@) {
        let table = before.peers.lpm.entries@;
        law_the_longest_prefix_wins(table, dst);
        if let Some(peer) = owner_in(table, dst) {
            let e = crate::peers::best_route(table, dst)->0;
            let k = choose|k: int| 0 <= k < table.len() && table[k] == e;
            assert(table[k].1 == peer);
            assert(routes_to(table, dst, peer));
            let q = before.sessions.waiting(peer);
            assert(crate::engine::queued(q, packet).last() == packet);
            assert(before.peers.key(peer) == before.peers.key(peer));
        }
    }
}

/// A packet that is not sent is counted once, under why it was not: it is too
/// long, it is none, or nobody owns its destination.
pub proof fn law_a_dropped_packet_is_counted(
    before: Engine,
    after: Engine,
    packet: Vec<u8>,
    r: Outbound,
)
    requires
        outbound_effect(before, after, packet, r),
        r is Dropped,
        before.counters.drop_oversize < u64::MAX,
        before.counters.drop_malformed < u64::MAX,
        before.counters.drop_no_route < u64::MAX,
    ensures
        after.sessions == before.sessions,
        after.counters.drop_oversize - before.counters.drop_oversize == (if packet@.len()
            > before.mtu {
            1int
        } else {
            0
        }),
        after.counters.drop_malformed - before.counters.drop_malformed == (if packet@.len()
            <= before.mtu && inner_addrs(packet@) is None {
            1int
        } else {
            0
        }),
        after.counters.drop_no_route - before.counters.drop_no_route == (if packet@.len()
            <= before.mtu && inner_addrs(packet@) is Some {
            1int
        } else {
            0
        }),
        after.counters.sent == before.counters.sent,
        after.counters.received == before.counters.received,
{
}

/// A member is known by the key that its entry spells, where that is a key of
/// 32 bytes; whoever is not known has none.
pub proof fn law_a_member_is_known_by_the_key_of_its_entry(peers: PeerTable, id: NodeId, b: Seq<u8>)
    ensures
        peers.key(id) == Some(b) <==> peers.peers@.dom().contains(id) && base64_bytes(
            peers.peers@[id].pubkey@,
        ) == Some(b) && b.len() == 32,
{
}

} // verus!
