//! The data plane of an endpoint, as decisions.
//!
//! Outbound: a packet from the device is routed to the member that owns its
//! destination and sealed for it, or waits for a handshake, or is dropped
//! under a name. Inbound: a frame is unsealed, filtered and written to the
//! device, or dropped under a name.

use vstd::prelude::*;

use crate::idmap::IdMap;
use crate::net::{all_valid, IpNet};
use crate::peers::{
    be, ingress_problem, inner_addrs, known_after, owner_in, parse_inner_addrs, read_be, routed_all,
    without_routes, IngressVerdict, PeerTable,
};
use crate::proto::{peer_views, NodeId, PeerInfo};
use crate::text::{bytes_eq, decimal, push_decimal, str_eq};
use crate::validate::any_has;

verus! {

/// What the endpoint counts. Counters wrap.
#[derive(Debug)]
pub struct Counters {
    pub sent: u64,
    pub received: u64,
    pub handshakes_started: u64,
    pub handshakes_completed: u64,
    pub drop_no_route: u64,
    pub drop_no_session: u64,
    pub drop_queue_full: u64,
    pub drop_seal_failed: u64,
    pub drop_replay: u64,
    pub drop_ingress: u64,
    pub drop_oversize: u64,
    pub drop_key_mismatch: u64,
    pub drop_malformed: u64,
    pub handshake_timeouts: u64,
    pub looped_back: u64,
}

/// A counter that counts one more.
pub open spec fn bumped(n: u64) -> u64 {
    if n == u64::MAX {
        0
    } else {
        (n + 1) as u64
    }
}

pub(crate) fn bump(n: u64) -> (r: u64)
    ensures
        r == bumped(n),
{
    if n == u64::MAX {
        0
    } else {
        n + 1
    }
}

impl Default for Counters {
    fn default() -> (r: Counters)
        ensures
            r == zeroes(),
    {
        Counters {
            sent: 0,
            received: 0,
            handshakes_started: 0,
            handshakes_completed: 0,
            drop_no_route: 0,
            drop_no_session: 0,
            drop_queue_full: 0,
            drop_seal_failed: 0,
            drop_replay: 0,
            drop_ingress: 0,
            drop_oversize: 0,
            drop_key_mismatch: 0,
            drop_malformed: 0,
            handshake_timeouts: 0,
            looped_back: 0,
        }
    }
}

/// Nothing counted yet.
pub open spec fn zeroes() -> Counters {
    Counters {
        sent: 0,
        received: 0,
        handshakes_started: 0,
        handshakes_completed: 0,
        drop_no_route: 0,
        drop_no_session: 0,
        drop_queue_full: 0,
        drop_seal_failed: 0,
        drop_replay: 0,
        drop_ingress: 0,
        drop_oversize: 0,
        drop_key_mismatch: 0,
        drop_malformed: 0,
        handshake_timeouts: 0,
        looped_back: 0,
    }
}

impl Counters {
    /// Every counter under its name.
    pub open spec fn named(self) -> Seq<(Seq<char>, u64)> {
        seq![
            ("sent"@, self.sent),
            ("received"@, self.received),
            ("handshakes_started"@, self.handshakes_started),
            ("handshakes_completed"@, self.handshakes_completed),
            ("drop_no_route"@, self.drop_no_route),
            ("drop_no_session"@, self.drop_no_session),
            ("drop_queue_full"@, self.drop_queue_full),
            ("drop_seal_failed"@, self.drop_seal_failed),
            ("drop_replay"@, self.drop_replay),
            ("drop_ingress"@, self.drop_ingress),
            ("drop_oversize"@, self.drop_oversize),
            ("drop_key_mismatch"@, self.drop_key_mismatch),
            ("drop_malformed"@, self.drop_malformed),
            ("handshake_timeouts"@, self.handshake_timeouts),
            ("looped_back"@, self.looped_back),
        ]
    }

    /// Every counter under its name.
    pub fn snapshot(&self) -> (r: Vec<(&'static str, u64)>)
        ensures
            r@.len() == self.named().len(),
            forall|i: int|
                0 <= i < r@.len() ==> (#[trigger] r@[i]).0@ == self.named()[i].0 && r@[i].1
                    == self.named()[i].1,
    {
        vec![
            ("sent", self.sent),
            ("received", self.received),
            ("handshakes_started", self.handshakes_started),
            ("handshakes_completed", self.handshakes_completed),
            ("drop_no_route", self.drop_no_route),
            ("drop_no_session", self.drop_no_session),
            ("drop_queue_full", self.drop_queue_full),
            ("drop_seal_failed", self.drop_seal_failed),
            ("drop_replay", self.drop_replay),
            ("drop_ingress", self.drop_ingress),
            ("drop_oversize", self.drop_oversize),
            ("drop_key_mismatch", self.drop_key_mismatch),
            ("drop_malformed", self.drop_malformed),
            ("handshake_timeouts", self.handshake_timeouts),
            ("looped_back", self.looped_back),
        ]
    }
}

/// How far the session with a peer is.
#[derive(Clone, Copy, PartialEq, Eq, Structural, Debug)]
pub struct PairState {
    /// Packets can be sealed.
    pub ready: bool,
    /// This side started the handshake.
    pub initiator: bool,
}

/// How many packets wait for a handshake at most.
pub const PENDING_LIMIT: usize = 64;

/// A queue with a packet behind it; the oldest leaves where it is full.
pub open spec fn queued(q: Seq<Vec<u8>>, packet: Vec<u8>) -> Seq<Vec<u8>> {
    if q.len() >= PENDING_LIMIT {
        q.drop_first().push(packet)
    } else {
        q.push(packet)
    }
}

/// The end-to-end sessions, and the packets that wait for one.
#[derive(Debug)]
pub struct SessionTable {
    pub sessions: IdMap<PairState>,
    pub pending: IdMap<Vec<Vec<u8>>>,
}

impl SessionTable {
    /// No queue is longer than the limit.
    pub open spec fn wf(self) -> bool {
        &&& self.sessions.wf()
        &&& self.pending.wf()
        &&& forall|id: NodeId| #[trigger]
            self.pending@.dom().contains(id) ==> self.pending@[id]@.len() <= PENDING_LIMIT
    }

    /// The packets that wait for a peer.
    pub open spec fn waiting(self, peer: NodeId) -> Seq<Vec<u8>> {
        if self.pending@.dom().contains(peer) {
            self.pending@[peer]@
        } else {
            Seq::empty()
        }
    }

    /// Packets can be sealed for a peer.
    pub open spec fn ready(self, peer: NodeId) -> bool {
        self.sessions@.dom().contains(peer) && self.sessions@[peer].ready
    }

    pub fn new() -> (r: SessionTable)
        ensures
            r.wf(),
            r.sessions@ == Map::<NodeId, PairState>::empty(),
            r.pending@ == Map::<NodeId, Vec<Vec<u8>>>::empty(),
    {
        SessionTable { sessions: IdMap::new(), pending: IdMap::new() }
    }

    pub fn get(&self, peer: NodeId) -> (r: Option<PairState>)
        requires
            self.wf(),
        ensures
            r == crate::leases::lookup(self.sessions@, peer),
    {
        match self.sessions.get(peer) {
            Some(s) => Some(*s),
            None => None,
        }
    }

    pub fn insert(&mut self, peer: NodeId, s: PairState)
        requires
            old(self).wf(),
        ensures
            final(self).wf(),
            final(self).sessions@ == old(self).sessions@.insert(peer, s),
            final(self).pending == old(self).pending,
    {
        self.sessions.insert(peer, s);
    }

    /// Forget the session with a peer, and what waits for it.
    pub fn remove(&mut self, peer: NodeId)
        requires
            old(self).wf(),
        ensures
            final(self).wf(),
            final(self).sessions@ == old(self).sessions@.remove(peer),
            final(self).pending@ == old(self).pending@.remove(peer),
    {
        self.sessions.remove(peer);
        self.pending.remove(peer);
    }

    pub fn is_ready(&self, peer: NodeId) -> (r: bool)
        requires
            self.wf(),
        ensures
            r == self.ready(peer),
    {
        match self.sessions.get(peer) {
            Some(s) => s.ready,
            None => false,
        }
    }

    pub fn has(&self, peer: NodeId) -> (r: bool)
        requires
            self.wf(),
        ensures
            r == self.sessions@.dom().contains(peer),
    {
        self.sessions.contains_key(peer)
    }

    /// Let a packet wait for a handshake. Returns whether nothing had to
    /// leave for it.
    pub fn queue(&mut self, peer: NodeId, packet: Vec<u8>) -> (r: bool)
        requires
            old(self).wf(),
        ensures
            final(self).wf(),
            final(self).sessions == old(self).sessions,
            final(self).pending@.dom() == old(self).pending@.dom().insert(peer),
            final(self).waiting(peer) == queued(old(self).waiting(peer), packet),
            forall|id: NodeId|
                id != peer ==> #[trigger] final(self).waiting(id) == old(self).waiting(id),
            r == (old(self).waiting(peer).len() < PENDING_LIMIT),
    {
        let ghost before = self.pending@;
        let mut q = match self.pending.remove(peer) {
            Some(q) => q,
            None => Vec::new(),
        };
        let dropped = q.len() >= PENDING_LIMIT;
        let ghost was = q@;
        if dropped {
            q.remove(0);
            assert(q@ =~= was.drop_first());
        }
        q.push(packet);
        self.pending.insert(peer, q);
        assert(self.pending@.dom() =~= before.dom().insert(peer));
        !dropped
    }

    /// Take what waits for a peer.
    pub fn take_pending(&mut self, peer: NodeId) -> (r: Vec<Vec<u8>>)
        requires
            old(self).wf(),
        ensures
            final(self).wf(),
            final(self).sessions == old(self).sessions,
            final(self).pending@ == old(self).pending@.remove(peer),
            r@ == old(self).waiting(peer),
    {
        match self.pending.remove(peer) {
            Some(q) => q,
            None => Vec::new(),
        }
    }

    /// Those of the peers whose session is ready.
    pub open spec fn ready_among(self, peers: Seq<NodeId>) -> Seq<NodeId>
        decreases peers.len(),
    {
        if peers.len() == 0 {
            peers
        } else {
            let p = self.ready_among(peers.drop_last());
            if self.ready(peers.last()) {
                p.push(peers.last())
            } else {
                p
            }
        }
    }

    /// The sessions to replace, of those that are past their deadline.
    pub fn sessions_due_for_rekey(&self, past_deadline: &Vec<NodeId>) -> (r: Vec<NodeId>)
        requires
            self.wf(),
        ensures
            r@ == self.ready_among(past_deadline@),
    {
        let mut out: Vec<NodeId> = Vec::new();
        let mut i: usize = 0;
        assert(past_deadline@.take(0) =~= Seq::empty());
        while i < past_deadline.len()
            invariant
                i <= past_deadline@.len(),
                self.wf(),
                out@ == self.ready_among(past_deadline@.take(i as int)),
            decreases past_deadline.len() - i,
        {
            assert(past_deadline@.take(i + 1).drop_last() =~= past_deadline@.take(i as int));
            if self.is_ready(past_deadline[i]) {
                out.push(past_deadline[i]);
            }
            i = i + 1;
        }
        assert(past_deadline@.take(i as int) =~= past_deadline@);
        out
    }

    /// Forget every session of a list, and what waits for it.
    pub fn remove_all(&mut self, peers: &Vec<NodeId>)
        requires
            old(self).wf(),
        ensures
            final(self).wf(),
            final(self).sessions@ == without_ids(old(self).sessions@, peers@),
            final(self).pending@ == without_ids(old(self).pending@, peers@),
    {
        let mut i: usize = 0;
        assert(peers@.take(0) =~= Seq::empty());
        while i < peers.len()
            invariant
                i <= peers@.len(),
                self.wf(),
                self.sessions@ == without_ids(old(self).sessions@, peers@.take(i as int)),
                self.pending@ == without_ids(old(self).pending@, peers@.take(i as int)),
            decreases peers.len() - i,
        {
            assert(peers@.take(i + 1).drop_last() =~= peers@.take(i as int));
            self.remove(peers[i]);
            i = i + 1;
        }
        assert(peers@.take(i as int) =~= peers@);
    }
}

/// A map without the ids.
pub open spec fn without_ids<V>(m: Map<NodeId, V>, ids: Seq<NodeId>) -> Map<NodeId, V>
    decreases ids.len(),
{
    if ids.len() == 0 {
        m
    } else {
        without_ids(m, ids.drop_last()).remove(ids.last())
    }
}

/// A queue never grows beyond its limit, and holds the newest packet last:
/// where it was full, it is the oldest that leaves.
pub proof fn law_a_queue_keeps_the_newest(q: Seq<Vec<u8>>, packet: Vec<u8>, i: int)
    requires
        q.len() <= PENDING_LIMIT,
    ensures
        queued(q, packet).len() <= PENDING_LIMIT,
        queued(q, packet).last() == packet,
        0 <= i < q.len() ==> (queued(q, packet).contains(q[i]) || (i == 0 && q.len()
            == PENDING_LIMIT)),
{
    if 0 <= i < q.len() {
        if q.len() >= PENDING_LIMIT {
            if i > 0 {
                assert(queued(q, packet)[i - 1] == q[i]);
            }
        } else {
            assert(queued(q, packet)[i] == q[i]);
        }
    }
}

/// What a frame carries.
#[derive(Clone, Copy, PartialEq, Eq, Structural, Debug)]
pub enum FrameKind {
    Handshake,
    Data,
    Other,
}

/// The header of a frame.
#[derive(Clone, Copy, PartialEq, Eq, Structural, Debug)]
pub struct RoutedHeader {
    pub kind: FrameKind,
    pub src_id: NodeId,
    pub dst_id: NodeId,
}

/// What is to be done with a packet from the device.
#[derive(Debug)]
pub enum Outbound {
    Dropped,
    /// Hand it back to the device: it is for this host.
    LoopBack,
    /// Seal it for this peer and send it.
    Seal(NodeId),
    /// It waits for a handshake.
    Wait,
    /// It waits, and the handshake is to be started.
    Handshake { peer: NodeId, pubkey: Vec<u8> },
}

/// What is to be done with a frame from the relay.
#[derive(Debug)]
pub enum Inbound {
    Dropped,
    /// A handshake message from this peer.
    Handshake(NodeId),
    /// Unseal what stands behind the first eight bytes of the body, under
    /// this counter.
    Unseal { peer: NodeId, ctr: u64 },
}

/// What unsealing came to.
#[derive(Debug)]
pub enum Unsealed {
    Inner(Vec<u8>),
    Replay,
    Failed,
}

/// What is to be done with a handshake message.
#[derive(Clone, Copy, PartialEq, Eq, Structural, Debug)]
pub enum HandshakeStep {
    /// It answers the handshake that this side started.
    Finish,
    /// It starts one.
    Respond,
}

/// The data plane of an endpoint.
#[derive(Debug)]
pub struct Engine {
    pub my_node_id: NodeId,
    pub network_uuid: String,
    pub peers: PeerTable,
    pub sessions: SessionTable,
    pub counters: Counters,
    pub mtu: u16,
    /// The parallel lanes that the transport offers.
    pub lanes: u8,
}

/// The packet waits for its peer.
pub open spec fn parked(before: Engine, after: Engine, peer: NodeId, packet: Vec<u8>) -> bool {
    let unkeyed = !before.sessions.sessions@.dom().contains(peer) && before.peers.key(peer) is None;
    &&& after.sessions.sessions == before.sessions.sessions
    &&& after.sessions.waiting(peer) == queued(before.sessions.waiting(peer), packet)
    &&& forall|id: NodeId|
        id != peer ==> #[trigger] after.sessions.waiting(id) == before.sessions.waiting(id)
    &&& after == (Engine {
        sessions: after.sessions,
        counters: Counters {
            drop_queue_full: if before.sessions.waiting(peer).len() >= PENDING_LIMIT {
                bumped(before.counters.drop_queue_full)
            } else {
                before.counters.drop_queue_full
            },
            drop_no_session: if unkeyed {
                bumped(before.counters.drop_no_session)
            } else {
                before.counters.drop_no_session
            },
            ..before.counters
        },
        ..before
    })
}

/// What becomes of a packet from the device.
pub open spec fn outbound_effect(
    before: Engine,
    after: Engine,
    packet: Vec<u8>,
    r: Outbound,
) -> bool {
    let c = before.counters;
    if packet@.len() > before.mtu {
        &&& r is Dropped
        &&& after == (Engine {
            counters: Counters { drop_oversize: bumped(c.drop_oversize), ..c },
            ..before
        })
    } else {
        match inner_addrs(packet@) {
            None => {
                &&& r is Dropped
                &&& after == (Engine {
                    counters: Counters { drop_malformed: bumped(c.drop_malformed), ..c },
                    ..before
                })
            },
            Some((_, dst)) => if any_has(before.peers.mine@, dst) {
                &&& r is LoopBack
                &&& after == (Engine {
                    counters: Counters { looped_back: bumped(c.looped_back), ..c },
                    ..before
                })
            } else {
                match owner_in(before.peers.lpm.entries@, dst) {
                    None => {
                        &&& r is Dropped
                        &&& after == (Engine {
                            counters: Counters { drop_no_route: bumped(c.drop_no_route), ..c },
                            ..before
                        })
                    },
                    Some(peer) => if before.sessions.ready(peer) {
                        r == Outbound::Seal(peer) && after == before
                    } else {
                        &&& parked(before, after, peer, packet)
                        &&& match before.peers.key(peer) {
                            Some(k) if !before.sessions.sessions@.dom().contains(peer) => r matches
                                Outbound::Handshake { peer: p, pubkey } && p == peer && pubkey@
                                == k,
                            _ => r is Wait,
                        }
                    },
                }
            },
        }
    }
}

/// What becomes of a frame from the relay.
pub open spec fn inbound_effect(
    before: Engine,
    after: Engine,
    header: Option<RoutedHeader>,
    body: Seq<u8>,
    r: Inbound,
) -> bool {
    let c = before.counters;
    let malformed = r is Dropped && after == (Engine {
        counters: Counters { drop_malformed: bumped(c.drop_malformed), ..c },
        ..before
    });
    match header {
        None => malformed,
        Some(h) => if h.dst_id != before.my_node_id {
            malformed
        } else {
            match h.kind {
                FrameKind::Handshake => r == Inbound::Handshake(h.src_id) && after == before,
                FrameKind::Data => if body.len() < 8 {
                    malformed
                } else if !before.sessions.sessions@.dom().contains(h.src_id) {
                    &&& r is Dropped
                    &&& after == (Engine {
                        counters: Counters { drop_no_session: bumped(c.drop_no_session), ..c },
                        ..before
                    })
                } else {
                    &&& r == (Inbound::Unseal { peer: h.src_id, ctr: be(body.take(8)) as u64 })
                    &&& after == before
                },
                FrameKind::Other => malformed,
            }
        },
    }
}

/// A counter in network order.
pub open spec fn ctr_bytes(ctr: u64) -> Seq<u8> {
    seq![
        (ctr / 0x100_0000_0000_0000) as u8,
        (ctr / 0x1_0000_0000_0000 % 256) as u8,
        (ctr / 0x100_0000_0000 % 256) as u8,
        (ctr / 0x1_0000_0000 % 256) as u8,
        (ctr / 0x100_0000 % 256) as u8,
        (ctr / 0x1_0000 % 256) as u8,
        (ctr / 0x100 % 256) as u8,
        (ctr % 256) as u8,
    ]
}

/// The body of a data frame: the counter, then what was sealed.
pub fn data_body(ctr: u64, sealed: &Vec<u8>) -> (r: Vec<u8>)
    ensures
        r@ == ctr_bytes(ctr) + sealed@,
{
    let mut out: Vec<u8> = vec![
        (ctr / 0x100_0000_0000_0000) as u8,
        (ctr / 0x1_0000_0000_0000 % 256) as u8,
        (ctr / 0x100_0000_0000 % 256) as u8,
        (ctr / 0x1_0000_0000 % 256) as u8,
        (ctr / 0x100_0000 % 256) as u8,
        (ctr / 0x1_0000 % 256) as u8,
        (ctr / 0x100 % 256) as u8,
        (ctr % 256) as u8,
    ];
    assert(out@ =~= ctr_bytes(ctr));
    let mut i: usize = 0;
    while i < sealed.len()
        invariant
            i <= sealed@.len(),
            out@ == ctr_bytes(ctr) + sealed@.take(i as int),
        decreases sealed.len() - i,
    {
        assert(sealed@.take(i + 1) =~= sealed@.take(i as int).push(sealed@[i as int]));
        out.push(sealed[i]);
        assert(out@ =~= ctr_bytes(ctr) + sealed@.take(i + 1));
        i = i + 1;
    }
    assert(sealed@.take(i as int) =~= sealed@);
    out
}

/// The counter that a data frame carries is the one it was made with.
pub proof fn law_a_counter_survives_the_wire(ctr: u64, sealed: Seq<u8>)
    ensures
        be((ctr_bytes(ctr) + sealed).take(8)) == ctr,
        (ctr_bytes(ctr) + sealed).skip(8) == sealed,
{
    let s = ctr_bytes(ctr);
    assert((s + sealed).take(8) =~= s);
    assert((s + sealed).skip(8) =~= sealed);
    let n = ctr as nat;
    let e = Seq::<u8>::empty();
    let s1 = e.push(s[0]);
    let s2 = s1.push(s[1]);
    let s3 = s2.push(s[2]);
    let s4 = s3.push(s[3]);
    let s5 = s4.push(s[4]);
    let s6 = s5.push(s[5]);
    let s7 = s6.push(s[6]);
    assert(s =~= s7.push(s[7]));
    lemma_be_push(e, s[0]);
    lemma_be_push(s1, s[1]);
    lemma_be_push(s2, s[2]);
    lemma_be_push(s3, s[3]);
    lemma_be_push(s4, s[4]);
    lemma_be_push(s5, s[5]);
    lemma_be_push(s6, s[6]);
    lemma_be_push(s7, s[7]);
    lemma_digit(n, 0x1_0000_0000_0000);
    lemma_digit(n, 0x100_0000_0000);
    lemma_digit(n, 0x1_0000_0000);
    lemma_digit(n, 0x100_0000);
    lemma_digit(n, 0x1_0000);
    lemma_digit(n, 0x100);
    lemma_digit(n, 1);
}

/// A number in base 256 is its upper digits and its lowest one.
proof fn lemma_digit(n: nat, k: nat)
    requires
        k > 0,
    ensures
        (n / (k * 256)) * 256 + (n / k) % 256 == n / k,
{
    vstd::arithmetic::div_mod::lemma_div_denominator(n as int, k as int, 256);
}

proof fn lemma_be_push(s: Seq<u8>, b: u8)
    ensures
        be(s.push(b)) == be(s) * 256 + b as nat,
{
    assert(s.push(b).drop_last() =~= s);
}

impl Engine {
    pub open spec fn wf(self) -> bool {
        self.peers.wf() && self.sessions.wf()
    }

    pub fn new(
        my_node_id: NodeId,
        network_uuid: String,
        peers: PeerTable,
        mtu: u16,
        lanes: u8,
    ) -> (r: Engine)
        requires
            peers.wf(),
        ensures
            r.wf(),
            r.my_node_id == my_node_id,
            r.network_uuid == network_uuid,
            r.peers == peers,
            r.mtu == mtu,
            r.lanes == lanes,
            r.counters == zeroes(),
            r.sessions.sessions@ == Map::<NodeId, PairState>::empty(),
            r.sessions.pending@ == Map::<NodeId, Vec<Vec<u8>>>::empty(),
    {
        Engine {
            my_node_id,
            network_uuid,
            peers,
            sessions: SessionTable::new(),
            counters: Counters::default(),
            mtu,
            lanes,
        }
    }

    /// Decide what becomes of a packet from the device.
    pub fn outbound(&mut self, packet: &Vec<u8>) -> (r: Outbound)
        requires
            old(self).wf(),
        ensures
            final(self).wf(),
            exists|kept: Vec<u8>|
                kept@ == packet@ && #[trigger] outbound_effect(*old(self), *final(self), kept, r),
    {
        let ghost before = *self;
        let kept = crate::device::frame_for_device(packet.as_slice());
        let ghost k = kept;
        if packet.len() > self.mtu as usize {
            self.counters.drop_oversize = bump(self.counters.drop_oversize);
            assert(outbound_effect(before, *self, k, Outbound::Dropped));
            return Outbound::Dropped;
        }
        let dst = match parse_inner_addrs(packet.as_slice()) {
            Some((_, dst)) => dst,
            None => {
                self.counters.drop_malformed = bump(self.counters.drop_malformed);
                assert(outbound_effect(before, *self, k, Outbound::Dropped));
                return Outbound::Dropped;
            },
        };
        if self.peers.is_mine(&dst) {
            self.counters.looped_back = bump(self.counters.looped_back);
            assert(outbound_effect(before, *self, k, Outbound::LoopBack));
            return Outbound::LoopBack;
        }
        let peer = match self.peers.owner_of(&dst) {
            Some(o) => o,
            None => {
                self.counters.drop_no_route = bump(self.counters.drop_no_route);
                assert(outbound_effect(before, *self, k, Outbound::Dropped));
                return Outbound::Dropped;
            },
        };
        if self.sessions.is_ready(peer) {
            assert(outbound_effect(before, *self, k, Outbound::Seal(peer)));
            return Outbound::Seal(peer);
        }
        let has = self.sessions.has(peer);
        if !self.sessions.queue(peer, kept) {
            self.counters.drop_queue_full = bump(self.counters.drop_queue_full);
        }
        if has {
            assert(outbound_effect(before, *self, k, Outbound::Wait));
            return Outbound::Wait;
        }
        match self.peers.pubkey_of(peer) {
            None => {
                self.counters.drop_no_session = bump(self.counters.drop_no_session);
                assert(outbound_effect(before, *self, k, Outbound::Wait));
                Outbound::Wait
            },
            Some(pubkey) => {
                let r = Outbound::Handshake { peer, pubkey };
                assert(outbound_effect(before, *self, k, r));
                r
            },
        }
    }

    /// A packet was sealed, or could not be. Returns the body of the frame to
    /// send.
    pub fn sealed(&mut self, outcome: &Option<(u64, Vec<u8>)>) -> (r: Option<Vec<u8>>)
        requires
            old(self).wf(),
        ensures
            final(self).wf(),
            match *outcome {
                Some((ctr, ct)) => r matches Some(b) && b@ == ctr_bytes(ctr) + ct@ && *final(self)
                    == *old(self),
                None => r is None && *final(self) == (Engine {
                    counters: Counters {
                        drop_seal_failed: bumped(old(self).counters.drop_seal_failed),
                        ..old(self).counters
                    },
                    ..*old(self)
                }),
            },
    {
        match outcome {
            Some((ctr, ct)) => Some(data_body(*ctr, ct)),
            None => {
                self.counters.drop_seal_failed = bump(self.counters.drop_seal_failed);
                None
            },
        }
    }

    /// A data frame was handed to the uplink.
    pub fn sent(&mut self, accepted: bool)
        requires
            old(self).wf(),
        ensures
            final(self).wf(),
            *final(self) == (Engine {
                counters: Counters {
                    sent: if accepted {
                        bumped(old(self).counters.sent)
                    } else {
                        old(self).counters.sent
                    },
                    ..old(self).counters
                },
                ..*old(self)
            }),
    {
        if accepted {
            self.counters.sent = bump(self.counters.sent);
        }
    }

    /// A handshake was started, or could not be. Returns whether its message
    /// is to be sent.
    pub fn initiated(&mut self, peer: NodeId, started: bool) -> (r: bool)
        requires
            old(self).wf(),
        ensures
            final(self).wf(),
            r == started,
            final(self).sessions.pending == old(self).sessions.pending,
            final(self).sessions.sessions@ == if started {
                old(self).sessions.sessions@.insert(
                    peer,
                    PairState { ready: false, initiator: true },
                )
            } else {
                old(self).sessions.sessions@
            },
            *final(self) == (Engine {
                sessions: final(self).sessions,
                counters: if started {
                    Counters {
                        handshakes_started: bumped(old(self).counters.handshakes_started),
                        ..old(self).counters
                    }
                } else {
                    Counters {
                        drop_no_session: bumped(old(self).counters.drop_no_session),
                        ..old(self).counters
                    }
                },
                ..*old(self)
            }),
    {
        if started {
            self.sessions.insert(peer, PairState { ready: false, initiator: true });
            self.counters.handshakes_started = bump(self.counters.handshakes_started);
        } else {
            self.counters.drop_no_session = bump(self.counters.drop_no_session);
        }
        started
    }

    /// Decide what becomes of a frame from the relay.
    pub fn inbound(&mut self, header: Option<RoutedHeader>, body: &[u8]) -> (r: Inbound)
        requires
            old(self).wf(),
        ensures
            final(self).wf(),
            inbound_effect(*old(self), *final(self), header, body@, r),
    {
        let h = match header {
            Some(h) => h,
            None => {
                self.counters.drop_malformed = bump(self.counters.drop_malformed);
                return Inbound::Dropped;
            },
        };
        if h.dst_id != self.my_node_id {
            self.counters.drop_malformed = bump(self.counters.drop_malformed);
            return Inbound::Dropped;
        }
        match h.kind {
            FrameKind::Handshake => Inbound::Handshake(h.src_id),
            FrameKind::Data => {
                if body.len() < 8 {
                    self.counters.drop_malformed = bump(self.counters.drop_malformed);
                    return Inbound::Dropped;
                }
                if !self.sessions.has(h.src_id) {
                    self.counters.drop_no_session = bump(self.counters.drop_no_session);
                    return Inbound::Dropped;
                }
                let ctr = read_be(body, 0, 8);
                assert(body@.subrange(0, 8) =~= body@.take(8));
                proof {
                    crate::peers::lemma_be_bound(body@.take(8));
                    vstd::arithmetic::power2::lemma2_to64();
                    vstd::arithmetic::power2::lemma2_to64_rest();
                }
                Inbound::Unseal { peer: h.src_id, ctr: ctr as u64 }
            },
            FrameKind::Other => {
                self.counters.drop_malformed = bump(self.counters.drop_malformed);
                Inbound::Dropped
            },
        }
    }

    /// A frame from a peer was unsealed, or could not be. Returns the packet
    /// to write to the device.
    pub fn unsealed(&mut self, src: NodeId, outcome: Unsealed) -> (r: Option<Vec<u8>>)
        requires
            old(self).wf(),
        ensures
            final(self).wf(),
            ({
                let c = old(self).counters;
                match outcome {
                    Unsealed::Inner(p) => if ingress_problem(
                        old(self).peers.lpm.entries@,
                        old(self).peers.mine@,
                        src,
                        p@,
                    ) is None {
                        &&& r == Some(p)
                        &&& *final(self) == (Engine {
                            counters: Counters { received: bumped(c.received), ..c },
                            ..*old(self)
                        })
                    } else {
                        &&& r is None
                        &&& *final(self) == (Engine {
                            counters: Counters { drop_ingress: bumped(c.drop_ingress), ..c },
                            ..*old(self)
                        })
                    },
                    Unsealed::Replay => {
                        &&& r is None
                        &&& *final(self) == (Engine {
                            counters: Counters { drop_replay: bumped(c.drop_replay), ..c },
                            ..*old(self)
                        })
                    },
                    Unsealed::Failed => {
                        &&& r is None
                        &&& *final(self) == (Engine {
                            counters: Counters {
                                drop_seal_failed: bumped(c.drop_seal_failed),
                                ..c
                            },
                            ..*old(self)
                        })
                    },
                }
            }),
    {
        match outcome {
            Unsealed::Inner(p) => match self.peers.check_ingress(src, p.as_slice()) {
                IngressVerdict::Accept => {
                    self.counters.received = bump(self.counters.received);
                    Some(p)
                },
                IngressVerdict::Drop(_) => {
                    self.counters.drop_ingress = bump(self.counters.drop_ingress);
                    None
                },
            },
            Unsealed::Replay => {
                self.counters.drop_replay = bump(self.counters.drop_replay);
                None
            },
            Unsealed::Failed => {
                self.counters.drop_seal_failed = bump(self.counters.drop_seal_failed);
                None
            },
        }
    }

    /// Decide what a handshake message from a peer is: an answer to ours
    /// while ours is in flight, and a new handshake otherwise.
    pub fn on_handshake(&self, peer: NodeId) -> (r: HandshakeStep)
        requires
            self.wf(),
        ensures
            r == match crate::leases::lookup(self.sessions.sessions@, peer) {
                Some(s) if !s.ready && s.initiator => HandshakeStep::Finish,
                _ => HandshakeStep::Respond,
            },
    {
        match self.sessions.get(peer) {
            Some(s) => if !s.ready && s.initiator {
                HandshakeStep::Finish
            } else {
                HandshakeStep::Respond
            },
            None => HandshakeStep::Respond,
        }
    }

    /// The handshake that this side started is complete, or is not. Returns
    /// the packets that waited for it, to be sealed and sent.
    pub fn finished(&mut self, peer: NodeId, complete: bool) -> (r: Vec<Vec<u8>>)
        requires
            old(self).wf(),
        ensures
            final(self).wf(),
            !complete ==> r@.len() == 0 && *final(self) == *old(self),
            complete ==> {
                &&& r@ == old(self).sessions.waiting(peer)
                &&& final(self).sessions.pending@ == old(self).sessions.pending@.remove(peer)
                &&& final(self).sessions.sessions@ == old(self).sessions.sessions@.insert(
                    peer,
                    PairState { ready: true, initiator: true },
                )
                &&& *final(self) == (Engine {
                    sessions: final(self).sessions,
                    counters: Counters {
                        handshakes_completed: bumped(old(self).counters.handshakes_completed),
                        ..old(self).counters
                    },
                    ..*old(self)
                })
            },
    {
        if !complete {
            return Vec::new();
        }
        self.counters.handshakes_completed = bump(self.counters.handshakes_completed);
        self.sessions.insert(peer, PairState { ready: true, initiator: true });
        self.sessions.take_pending(peer)
    }

    /// A peer's handshake was answered, or could not be. `proved` is the key
    /// that the peer proved to hold. Returns whether the answer is to be
    /// sent: only when that key is the one that the network published for
    /// this peer.
    pub fn responded(
        &mut self,
        peer: NodeId,
        answered: bool,
        proved: &Option<Vec<u8>>,
        ready: bool,
    ) -> (r: bool)
        requires
            old(self).wf(),
        ensures
            final(self).wf(),
            ({
                let c = old(self).counters;
                let matches = proved matches Some(k) && old(self).peers.key(peer) == Some(k@);
                &&& r == (answered && matches)
                &&& final(self).sessions.pending == old(self).sessions.pending
                &&& final(self).sessions.sessions@ == if r {
                    old(self).sessions.sessions@.insert(peer, PairState { ready, initiator: false })
                } else {
                    old(self).sessions.sessions@
                }
                &&& *final(self) == (Engine {
                    sessions: final(self).sessions,
                    counters: if !answered {
                        Counters { drop_seal_failed: bumped(c.drop_seal_failed), ..c }
                    } else if matches {
                        Counters { handshakes_completed: bumped(c.handshakes_completed), ..c }
                    } else {
                        Counters { drop_key_mismatch: bumped(c.drop_key_mismatch), ..c }
                    },
                    ..*old(self)
                })
            }),
    {
        if !answered {
            self.counters.drop_seal_failed = bump(self.counters.drop_seal_failed);
            return false;
        }
        let same = match (proved, self.peers.pubkey_of(peer)) {
            (Some(got), Some(want)) => bytes_eq(got.as_slice(), want.as_slice()),
            _ => false,
        };
        if same {
            self.sessions.insert(peer, PairState { ready, initiator: false });
            self.counters.handshakes_completed = bump(self.counters.handshakes_completed);
        } else {
            self.counters.drop_key_mismatch = bump(self.counters.drop_key_mismatch);
        }
        same
    }

    /// Drop sessions past their deadline, and handshakes that never
    /// completed: the next packet starts a fresh one.
    pub fn expire_sessions(&mut self, past_deadline: &Vec<NodeId>, stale: &Vec<NodeId>)
        requires
            old(self).wf(),
        ensures
            final(self).wf(),
            final(self).sessions.sessions@ == without_ids(
                without_ids(
                    old(self).sessions.sessions@,
                    old(self).sessions.ready_among(past_deadline@),
                ),
                stale@,
            ),
            final(self).sessions.pending@ == without_ids(
                without_ids(
                    old(self).sessions.pending@,
                    old(self).sessions.ready_among(past_deadline@),
                ),
                stale@,
            ),
            *final(self) == (Engine {
                sessions: final(self).sessions,
                counters: Counters {
                    handshake_timeouts: bumped_by(
                        old(self).counters.handshake_timeouts,
                        stale@.len(),
                    ),
                    ..old(self).counters
                },
                ..*old(self)
            }),
    {
        let due = self.sessions.sessions_due_for_rekey(past_deadline);
        self.sessions.remove_all(&due);
        self.sessions.remove_all(stale);
        let mut i: usize = 0;
        let mut n = self.counters.handshake_timeouts;
        while i < stale.len()
            invariant
                i <= stale@.len(),
                n == bumped_by(self.counters.handshake_timeouts, i as nat),
            decreases stale.len() - i,
        {
            n = bump(n);
            i = i + 1;
        }
        self.counters.handshake_timeouts = n;
    }

    /// Take in a whole view of the members. A peer whose key changed does not
    /// keep its session. Returns those peers.
    pub fn apply_view(&mut self, members: Vec<PeerInfo>) -> (r: Vec<NodeId>)
        requires
            old(self).wf(),
            forall|i: int|
                0 <= i < members@.len() ==> all_valid((#[trigger] members@[i]).prefixes@),
        ensures
            final(self).wf(),
            takes_view(*old(self), *final(self), members@, r@),
    {
        let mut changed: Vec<NodeId> = Vec::new();
        let mut i: usize = 0;
        assert(members@.take(0) =~= Seq::empty());
        while i < members.len()
            invariant
                i <= members@.len(),
                self.wf(),
                *self == *old(self),
                changed@ == rekeyed(self.peers.peers@, members@.take(i as int)),
            decreases members.len() - i,
        {
            assert(members@.take(i + 1).drop_last() =~= members@.take(i as int));
            let m = &members[i];
            assert(members@.take(i + 1).last() == *m);
            let other = match self.peers.get(m.node_id) {
                Some(p) => !str_eq(p.pubkey.as_str(), m.pubkey.as_str()),
                None => false,
            };
            if other {
                changed.push(m.node_id);
            }
            i = i + 1;
        }
        assert(members@.take(i as int) =~= members@);
        self.peers.replace_all(members);
        self.sessions.remove_all(&changed);
        changed
    }

    /// Take in a change of the members. A peer whose key changed, or that is
    /// gone, does not keep its session.
    pub fn apply_delta(&mut self, changed: Vec<PeerInfo>, removed: &Vec<NodeId>)
        requires
            old(self).wf(),
            forall|i: int|
                0 <= i < changed@.len() ==> all_valid((#[trigger] changed@[i]).prefixes@),
        ensures
            final(self).wf(),
            takes_delta(*old(self), *final(self), changed@, removed@),
    {
        let ghost all = changed@;
        let ghost v = peer_views(all);
        let ghost known = self.peers.peers@;
        let ghost table = self.peers.lpm.entries@;
        let ghost me = self.peers.my_node_id;
        let ghost s0 = self.sessions.sessions@;
        let ghost p0 = self.sessions.pending@;
        let mut rest = changed;
        let ghost mut n: int = 0;
        assert(all.skip(0) =~= all);
        assert(all.take(0) =~= Seq::empty());
        assert(v.take(0) =~= Seq::empty());
        while rest.len() > 0
            invariant
                0 <= n <= all.len(),
                rest@ == all.skip(n),
                v == peer_views(all),
                v.len() == all.len(),
                self.wf(),
                self.counters == old(self).counters,
                self.peers.mine == old(self).peers.mine,
                self.my_node_id == old(self).my_node_id,
                self.mtu == old(self).mtu,
                self.lanes == old(self).lanes,
                self.network_uuid == old(self).network_uuid,
                self.peers.my_node_id == me,
                forall|i: int| 0 <= i < all.len() ==> all_valid((#[trigger] all[i]).prefixes@),
                self.peers.peers@ == known_after(known, all.take(n)),
                self.peers.lpm.entries@ == routed_all(table, v.take(n), me),
                self.sessions.sessions@ == without_ids(s0, rekeyed_in_turn(known, all.take(n))),
                self.sessions.pending@ == without_ids(p0, rekeyed_in_turn(known, all.take(n))),
            decreases rest.len(),
        {
            assert(rest@[0] == all[n]);
            let p = rest.remove(0);
            assert(rest@ =~= all.skip(n + 1));
            assert(all.take(n + 1).drop_last() =~= all.take(n));
            assert(v.take(n + 1).drop_last() =~= v.take(n));
            assert(v.take(n + 1).last() == p@);
            assert(all.take(n + 1).last() == p);
            let other = match self.peers.get(p.node_id) {
                Some(o) => !str_eq(o.pubkey.as_str(), p.pubkey.as_str()),
                None => false,
            };
            let id = p.node_id;
            self.peers.upsert(p);
            if other {
                self.sessions.remove(id);
                assert(rekeyed_in_turn(known, all.take(n + 1)).drop_last() =~= rekeyed_in_turn(
                    known,
                    all.take(n),
                ));
            }
            proof {
                n = n + 1;
            }
        }
        assert(all.take(n) =~= all);
        assert(v.take(n) =~= v);
        let ghost mid_known = self.peers.peers@;
        let ghost mid_table = self.peers.lpm.entries@;
        let ghost s1 = self.sessions.sessions@;
        let ghost p1 = self.sessions.pending@;
        let mut i: usize = 0;
        assert(removed@.take(0) =~= Seq::empty());
        while i < removed.len()
            invariant
                i <= removed@.len(),
                self.wf(),
                self.counters == old(self).counters,
                self.peers.mine == old(self).peers.mine,
                self.peers.my_node_id == old(self).peers.my_node_id,
                self.my_node_id == old(self).my_node_id,
                self.mtu == old(self).mtu,
                self.lanes == old(self).lanes,
                self.network_uuid == old(self).network_uuid,
                self.peers.peers@ == without_ids(mid_known, removed@.take(i as int)),
                self.peers.lpm.entries@ == unrouted(
                    mid_table,
                    mid_known,
                    removed@.take(i as int),
                ),
                self.sessions.sessions@ == without_ids(s1, removed@.take(i as int)),
                self.sessions.pending@ == without_ids(p1, removed@.take(i as int)),
            decreases removed.len() - i,
        {
            assert(removed@.take(i + 1).drop_last() =~= removed@.take(i as int));
            self.peers.remove(removed[i]);
            self.sessions.remove(removed[i]);
            i = i + 1;
        }
        assert(removed@.take(i as int) =~= removed@);
    }

    /// The node, its peers, and every counter that is not zero, in one line.
    pub fn status_line(&self) -> (r: String)
        requires
            self.wf(),
        ensures
            r@ == "node="@ + decimal(self.my_node_id as nat) + " peers="@ + decimal(
                self.peers.peers@.dom().len(),
            ) + " "@ + counted(self.counters.named()),
    {
        let mut out = "node=".to_owned();
        push_decimal(&mut out, self.my_node_id as u64);
        out.append(" peers=");
        push_decimal(&mut out, self.peers.len() as u64);
        out.append(" ");
        let ghost head = out@;
        let snap = self.counters.snapshot();
        let ghost all = self.counters.named();
        let mut list = String::new();
        let mut i: usize = 0;
        assert(all.take(0) =~= Seq::empty());
        assert(list@ =~= counted(all.take(0)));
        while i < snap.len()
            invariant
                i <= snap@.len(),
                all == self.counters.named(),
                snap@.len() == all.len(),
                forall|k: int|
                    0 <= k < snap@.len() ==> (#[trigger] snap@[k]).0@ == all[k].0 && snap@[k].1
                        == all[k].1,
                list@ == counted(all.take(i as int)),
            decreases snap.len() - i,
        {
            assert(all.take(i + 1).drop_last() =~= all.take(i as int));
            assert(all.take(i + 1).last() == all[i as int]);
            let (k, v) = snap[i];
            assert(snap@[i as int].0@ == all[i as int].0);
            if v > 0 {
                if !list.as_str().is_empty() {
                    list.append(" ");
                }
                list.append(k);
                list.append("=");
                push_decimal(&mut list, v);
                assert(list@ =~= counted(all.take(i + 1)));
            }
            i = i + 1;
        }
        assert(all.take(i as int) =~= all);
        out.append(list.as_str());
        assert(out@ =~= head + counted(all));
        out
    }
}

/// The counters that are not zero, with blanks between them.
pub open spec fn counted(s: Seq<(Seq<char>, u64)>) -> Seq<char>
    decreases s.len(),
{
    if s.len() == 0 {
        Seq::empty()
    } else {
        let p = counted(s.drop_last());
        let (k, v) = s.last();
        if v == 0 {
            p
        } else if p.len() == 0 {
            k + "="@ + decimal(v as nat)
        } else {
            p + " "@ + k + "="@ + decimal(v as nat)
        }
    }
}

/// A counter that counts several more.
pub open spec fn bumped_by(n: u64, k: nat) -> u64
    decreases k,
{
    if k == 0 {
        n
    } else {
        bumped(bumped_by(n, (k - 1) as nat))
    }
}

/// The members whose key differs from the one that was known.
pub open spec fn rekeyed(known: Map<NodeId, PeerInfo>, members: Seq<PeerInfo>) -> Seq<NodeId>
    decreases members.len(),
{
    if members.len() == 0 {
        Seq::empty()
    } else {
        let p = rekeyed(known, members.drop_last());
        let m = members.last();
        if known.dom().contains(m.node_id) && known[m.node_id].pubkey@ != m.pubkey@ {
            p.push(m.node_id)
        } else {
            p
        }
    }
}

/// The members whose key differs from the one that was known when it was
/// their turn.
pub open spec fn rekeyed_in_turn(known: Map<NodeId, PeerInfo>, changed: Seq<PeerInfo>) -> Seq<
    NodeId,
>
    decreases changed.len(),
{
    if changed.len() == 0 {
        Seq::empty()
    } else {
        let d = changed.drop_last();
        let p = rekeyed_in_turn(known, d);
        let k = known_after(known, d);
        let m = changed.last();
        if k.dom().contains(m.node_id) && k[m.node_id].pubkey@ != m.pubkey@ {
            p.push(m.node_id)
        } else {
            p
        }
    }
}

/// The table after members were forgotten in turn.
pub open spec fn unrouted(
    s: Seq<(IpNet, NodeId)>,
    known: Map<NodeId, PeerInfo>,
    removed: Seq<NodeId>,
) -> Seq<(IpNet, NodeId)>
    decreases removed.len(),
{
    if removed.len() == 0 {
        s
    } else {
        let d = removed.drop_last();
        let p = unrouted(s, known, d);
        let k = without_ids(known, d);
        if k.dom().contains(removed.last()) {
            without_routes(p, k[removed.last()].prefixes@)
        } else {
            p
        }
    }
}

pub proof fn lemma_without_ids<V>(m: Map<NodeId, V>, ids: Seq<NodeId>, id: NodeId)
    ensures
        without_ids(m, ids).dom().contains(id) <==> m.dom().contains(id) && !ids.contains(id),
        without_ids(m, ids).dom().contains(id) ==> without_ids(m, ids)[id] == m[id],
    decreases ids.len(),
{
    if ids.len() > 0 {
        let d = ids.drop_last();
        lemma_without_ids(m, d, id);
        assert(ids[ids.len() - 1] == ids.last());
        if d.contains(id) {
            let i = choose|i: int| 0 <= i < d.len() && d[i] == id;
            assert(ids[i] == id);
        }
        if ids.contains(id) {
            let i = choose|i: int| 0 <= i < ids.len() && ids[i] == id;
            if i < d.len() {
                assert(d[i] == id);
            }
        }
    }
}

proof fn lemma_rekeyed(known: Map<NodeId, PeerInfo>, members: Seq<PeerInfo>, i: int)
    requires
        0 <= i < members.len(),
        known.dom().contains(members[i].node_id),
        known[members[i].node_id].pubkey@ != members[i].pubkey@,
    ensures
        rekeyed(known, members).contains(members[i].node_id),
    decreases members.len(),
{
    let d = members.drop_last();
    let p = rekeyed(known, d);
    let u = rekeyed(known, members);
    if i < d.len() {
        lemma_rekeyed(known, d, i);
        let k = choose|k: int| 0 <= k < p.len() && p[k] == members[i].node_id;
        assert(u[k] == members[i].node_id);
    } else {
        assert(u[p.len() as int] == members[i].node_id);
    }
}

/// A member that comes back with another key never keeps the session that
/// was made with the old one.
pub proof fn law_a_changed_key_ends_the_session(
    known: Map<NodeId, PeerInfo>,
    members: Seq<PeerInfo>,
    sessions: Map<NodeId, PairState>,
    i: int,
)
    requires
        0 <= i < members.len(),
        known.dom().contains(members[i].node_id),
        known[members[i].node_id].pubkey@ != members[i].pubkey@,
    ensures
        !without_ids(sessions, rekeyed(known, members)).dom().contains(members[i].node_id),
{
    lemma_rekeyed(known, members, i);
    lemma_without_ids(sessions, rekeyed(known, members), members[i].node_id);
}

/// An engine took in a whole view: whom it knows, what is routed to whom, and
/// whose sessions ended.
pub open spec fn takes_view(
    before: Engine,
    after: Engine,
    members: Seq<PeerInfo>,
    changed: Seq<NodeId>,
) -> bool {
    &&& changed == rekeyed(before.peers.peers@, members)
    &&& after.peers.peers@ == known_after(Map::empty(), members)
    &&& after.peers.lpm.entries@ == routed_all(
        Seq::empty(),
        peer_views(members),
        before.peers.my_node_id,
    )
    &&& after.sessions.sessions@ == without_ids(before.sessions.sessions@, changed)
    &&& after.sessions.pending@ == without_ids(before.sessions.pending@, changed)
    &&& stays(before, after)
}

/// An engine took in a change of the view.
pub open spec fn takes_delta(
    before: Engine,
    after: Engine,
    changed: Seq<PeerInfo>,
    removed: Seq<NodeId>,
) -> bool {
    let known = before.peers.peers@;
    let table = routed_all(
        before.peers.lpm.entries@,
        peer_views(changed),
        before.peers.my_node_id,
    );
    let ended = rekeyed_in_turn(known, changed);
    &&& after.peers.peers@ == without_ids(known_after(known, changed), removed)
    &&& after.peers.lpm.entries@ == unrouted(table, known_after(known, changed), removed)
    &&& after.sessions.sessions@ == without_ids(
        without_ids(before.sessions.sessions@, ended),
        removed,
    )
    &&& after.sessions.pending@ == without_ids(
        without_ids(before.sessions.pending@, ended),
        removed,
    )
    &&& stays(before, after)
}

/// What a view does not touch.
pub open spec fn stays(before: Engine, after: Engine) -> bool {
    &&& after.peers.mine == before.peers.mine
    &&& after.peers.my_node_id == before.peers.my_node_id
    &&& after.counters == before.counters
    &&& after.my_node_id == before.my_node_id
    &&& after.mtu == before.mtu
    &&& after.lanes == before.lanes
    &&& after.network_uuid == before.network_uuid
}

} // verus!
