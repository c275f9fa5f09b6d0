//! What an endpoint knows of its peers, and the filter on packets that come
//! out of the tunnel.
//!
//! The transport authenticates hops; this layer authenticates origins. The
//! addresses of a packet must belong to the member that sealed it and to this
//! node, or a member could pose as another one, or bounce traffic off us.

use vstd::prelude::*;

use crate::idmap::IdMap;
use crate::net::{all_valid, IpAddr, IpNet};
use crate::nettext::{sort_by_text, sorted_by_text};
use crate::proto::{nets_contain, peer_views, NodeId, PeerInfo, PeerView};
use crate::secrets::{base64_bytes, decode_base64, KEY_LEN};
use crate::validate::{any_contains, any_has};

verus! {

/// Which member owns which prefix.
#[derive(Debug)]
pub struct LpmTable {
    pub entries: Vec<(IpNet, NodeId)>,
}

/// The position of a prefix.
pub open spec fn route_index(s: Seq<(IpNet, NodeId)>, net: IpNet) -> Option<int>
    decreases s.len(),
{
    if s.len() == 0 {
        None
    } else {
        match route_index(s.drop_last(), net) {
            Some(i) => Some(i),
            None => if s.last().0 == net {
                Some(s.len() - 1)
            } else {
                None
            },
        }
    }
}

/// The table with a prefix owned by a member.
pub open spec fn put_route(s: Seq<(IpNet, NodeId)>, net: IpNet, id: NodeId) -> Seq<
    (IpNet, NodeId),
> {
    match route_index(s, net) {
        Some(i) => s.update(i, (net, id)),
        None => s.push((net, id)),
    }
}

/// The table without a prefix.
pub open spec fn drop_route(s: Seq<(IpNet, NodeId)>, net: IpNet) -> Seq<(IpNet, NodeId)>
    decreases s.len(),
{
    if s.len() == 0 {
        s
    } else if s.last().0 == net {
        drop_route(s.drop_last(), net)
    } else {
        drop_route(s.drop_last(), net).push(s.last())
    }
}

/// The most specific prefix that holds an address, with its owner; the
/// first of those that are equally specific.
pub open spec fn best_route(s: Seq<(IpNet, NodeId)>, ip: IpAddr) -> Option<(IpNet, NodeId)>
    decreases s.len(),
{
    if s.len() == 0 {
        None
    } else {
        let p = best_route(s.drop_last(), ip);
        let e = s.last();
        if !e.0.has(ip) {
            p
        } else {
            match p {
                Some(b) if b.0.prefix_len >= e.0.prefix_len => Some(b),
                _ => Some(e),
            }
        }
    }
}

/// The owner of an address.
pub open spec fn owner_in(s: Seq<(IpNet, NodeId)>, ip: IpAddr) -> Option<NodeId> {
    match best_route(s, ip) {
        Some(e) => Some(e.1),
        None => None,
    }
}

/// Every prefix is valid.
pub open spec fn routes_wf(s: Seq<(IpNet, NodeId)>) -> bool {
    forall|i: int| 0 <= i < s.len() ==> (#[trigger] s[i]).0.valid()
}

/// [`route_index`] finds the first entry of a prefix, if there is one.
pub proof fn lemma_route_index(s: Seq<(IpNet, NodeId)>, net: IpNet)
    ensures
        match route_index(s, net) {
            Some(i) => 0 <= i < s.len() && s[i].0 == net && forall|j: int|
                0 <= j < i ==> (#[trigger] s[j]).0 != net,
            None => forall|j: int| 0 <= j < s.len() ==> (#[trigger] s[j]).0 != net,
        },
    decreases s.len(),
{
    if s.len() > 0 {
        let d = s.drop_last();
        lemma_route_index(d, net);
        assert forall|j: int| 0 <= j < d.len() implies d[j] == #[trigger] s[j] by {}
    }
}

impl LpmTable {
    pub open spec fn wf(self) -> bool {
        routes_wf(self.entries@)
    }

    pub fn new() -> (r: LpmTable)
        ensures
            r.wf(),
            r.entries@ == Seq::<(IpNet, NodeId)>::empty(),
    {
        LpmTable { entries: Vec::new() }
    }

    /// Give a prefix to a member.
    pub fn insert(&mut self, net: IpNet, id: NodeId)
        requires
            old(self).wf(),
            net.valid(),
        ensures
            final(self).wf(),
            final(self).entries@ == put_route(old(self).entries@, net, id),
    {
        let mut i: usize = 0;
        while i < self.entries.len()
            invariant
                i <= self.entries@.len(),
                self.entries@ == old(self).entries@,
                self.wf(),
                net.valid(),
                forall|j: int| 0 <= j < i ==> (#[trigger] self.entries@[j]).0 != net,
            decreases self.entries.len() - i,
        {
            if self.entries[i].0 == net {
                proof {
                    lemma_route_index(self.entries@, net);
                }
                self.entries.set(i, (net, id));
                return ;
            }
            i = i + 1;
        }
        proof {
            lemma_route_index(self.entries@, net);
        }
        self.entries.push((net, id));
    }

    /// Take a prefix out.
    pub fn remove(&mut self, net: &IpNet)
        requires
            old(self).wf(),
        ensures
            final(self).wf(),
            final(self).entries@ == drop_route(old(self).entries@, *net),
    {
        let mut out: Vec<(IpNet, NodeId)> = Vec::new();
        let mut i: usize = 0;
        assert(self.entries@.take(0) =~= Seq::empty());
        while i < self.entries.len()
            invariant
                i <= self.entries@.len(),
                self.entries@ == old(self).entries@,
                self.wf(),
                routes_wf(out@),
                out@ == drop_route(self.entries@.take(i as int), *net),
            decreases self.entries.len() - i,
        {
            assert(self.entries@.take(i + 1).drop_last() =~= self.entries@.take(i as int));
            if self.entries[i].0 != *net {
                out.push(self.entries[i]);
            }
            i = i + 1;
        }
        assert(self.entries@.take(i as int) =~= self.entries@);
        self.entries = out;
    }

    /// The owner of the most specific prefix that holds an address.
    pub fn lookup(&self, ip: &IpAddr) -> (r: Option<NodeId>)
        requires
            self.wf(),
        ensures
            r == owner_in(self.entries@, *ip),
    {
        let mut best: Option<(IpNet, NodeId)> = None;
        let mut i: usize = 0;
        assert(self.entries@.take(0) =~= Seq::empty());
        while i < self.entries.len()
            invariant
                i <= self.entries@.len(),
                self.wf(),
                best == best_route(self.entries@.take(i as int), *ip),
            decreases self.entries.len() - i,
        {
            assert(self.entries@.take(i + 1).drop_last() =~= self.entries@.take(i as int));
            let e = self.entries[i];
            if e.0.contains_addr(ip) {
                best = match best {
                    Some(b) if b.0.prefix_len >= e.0.prefix_len => Some(b),
                    _ => Some(e),
                };
            }
            i = i + 1;
        }
        assert(self.entries@.take(i as int) =~= self.entries@);
        match best {
            Some(e) => Some(e.1),
            None => None,
        }
    }
}

/// An address is routed by a prefix that holds it, and by no less specific
/// one than any other that does; and it is not routed only when no prefix
/// holds it.
pub proof fn law_the_longest_prefix_wins(s: Seq<(IpNet, NodeId)>, ip: IpAddr)
    ensures
        match best_route(s, ip) {
            Some(e) => s.contains(e) && e.0.has(ip) && forall|i: int|
                0 <= i < s.len() && (#[trigger] s[i]).0.has(ip) ==> s[i].0.prefix_len
                    <= e.0.prefix_len,
            None => forall|i: int| 0 <= i < s.len() ==> !(#[trigger] s[i]).0.has(ip),
        },
    decreases s.len(),
{
    if s.len() > 0 {
        let d = s.drop_last();
        law_the_longest_prefix_wins(d, ip);
        assert(s[s.len() - 1] == s.last());
        assert forall|i: int| 0 <= i < d.len() implies d[i] == #[trigger] s[i] by {}
        if let Some(b) = best_route(d, ip) {
            let k = choose|k: int| 0 <= k < d.len() && d[k] == b;
            assert(s[k] == b);
        }
    }
}

/// What becomes of a packet from the tunnel.
#[derive(Debug, PartialEq, Eq)]
pub enum IngressVerdict {
    Accept,
    Drop(&'static str),
}

/// The number that bytes spell in network order.
pub open spec fn be(s: Seq<u8>) -> nat
    decreases s.len(),
{
    if s.len() == 0 {
        0
    } else {
        be(s.drop_last()) * 256 + s.last() as nat
    }
}

/// The source and destination of a packet, if it is one: the version says
/// which header it has, and the header is all there.
pub open spec fn inner_addrs(p: Seq<u8>) -> Option<(IpAddr, IpAddr)> {
    if p.len() >= 20 && p[0] / 16 == 4 {
        Some(
            (
                IpAddr::V4(be(p.subrange(12, 16)) as u32),
                IpAddr::V4(be(p.subrange(16, 20)) as u32),
            ),
        )
    } else if p.len() >= 40 && p[0] / 16 == 6 {
        Some(
            (
                IpAddr::V6(be(p.subrange(8, 24)) as u128),
                IpAddr::V6(be(p.subrange(24, 40)) as u128),
            ),
        )
    } else {
        None
    }
}

/// Bytes spell a number of as many bits.
pub proof fn lemma_be_bound(s: Seq<u8>)
    ensures
        be(s) < vstd::arithmetic::power2::pow2(8 * s.len()),
    decreases s.len(),
{
    vstd::arithmetic::power2::lemma2_to64();
    if s.len() > 0 {
        lemma_be_bound(s.drop_last());
        let n = (8 * (s.len() - 1)) as nat;
        vstd::arithmetic::power2::lemma_pow2_adds(n, 8);
        assert(vstd::arithmetic::power2::pow2(8 * s.len()) == vstd::arithmetic::power2::pow2(n)
            * 256);
    }
}

/// The number that bytes spell in network order.
pub fn read_be(p: &[u8], from: usize, to: usize) -> (r: u128)
    requires
        from <= to <= p@.len(),
        to - from <= 16,
    ensures
        r as nat == be(p@.subrange(from as int, to as int)),
{
    let mut n: u128 = 0;
    let mut i: usize = from;
    assert(p@.subrange(from as int, from as int) =~= Seq::empty());
    while i < to
        invariant
            from <= i <= to <= p@.len(),
            to - from <= 16,
            n as nat == be(p@.subrange(from as int, i as int)),
        decreases to - i,
    {
        let ghost next = p@.subrange(from as int, i + 1);
        proof {
            assert(next.drop_last() =~= p@.subrange(from as int, i as int));
            lemma_be_bound(next);
            crate::net::lemma_family_bounds(IpAddr::V6(0));
            if next.len() < 16 {
                vstd::arithmetic::power2::lemma_pow2_strictly_increases(8 * next.len(), 128);
            }
        }
        n = n * 256 + p[i] as u128;
        i = i + 1;
    }
    n
}

/// The source and destination of a packet.
pub fn parse_inner_addrs(packet: &[u8]) -> (r: Option<(IpAddr, IpAddr)>)
    ensures
        r == inner_addrs(packet@),
{
    if packet.len() == 0 {
        return None;
    }
    let version = packet[0] / 16;
    if version == 4 && packet.len() >= 20 {
        proof {
            lemma_be_bound(packet@.subrange(12, 16));
            lemma_be_bound(packet@.subrange(16, 20));
            crate::net::lemma_family_bounds(IpAddr::V6(0));
        }
        let src = read_be(packet, 12, 16);
        let dst = read_be(packet, 16, 20);
        return Some((IpAddr::V4(src as u32), IpAddr::V4(dst as u32)));
    }
    if version == 6 && packet.len() >= 40 {
        let src = read_be(packet, 8, 24);
        let dst = read_be(packet, 24, 40);
        return Some((IpAddr::V6(src), IpAddr::V6(dst)));
    }
    None
}

/// What the endpoint knows of the network.
#[derive(Debug)]
pub struct PeerTable {
    pub peers: IdMap<PeerInfo>,
    pub lpm: LpmTable,
    /// The prefixes that this node owns.
    pub mine: Vec<IpNet>,
    pub my_node_id: NodeId,
}

/// The table with every prefix owned by a member.
pub open spec fn with_routes(
    s: Seq<(IpNet, NodeId)>,
    prefixes: Seq<IpNet>,
    id: NodeId,
) -> Seq<(IpNet, NodeId)>
    decreases prefixes.len(),
{
    if prefixes.len() == 0 {
        s
    } else {
        put_route(with_routes(s, prefixes.drop_last(), id), prefixes.last(), id)
    }
}

/// The table without what a member owned and does not claim any more.
pub open spec fn without_stale(
    s: Seq<(IpNet, NodeId)>,
    prefixes: Seq<IpNet>,
    id: NodeId,
) -> Seq<(IpNet, NodeId)>
    decreases s.len(),
{
    if s.len() == 0 {
        s
    } else if s.last().1 == id && !prefixes.contains(s.last().0) {
        without_stale(s.drop_last(), prefixes, id)
    } else {
        without_stale(s.drop_last(), prefixes, id).push(s.last())
    }
}

/// The table after a member was told of.
pub open spec fn routed(s: Seq<(IpNet, NodeId)>, p: PeerView, me: NodeId) -> Seq<(IpNet, NodeId)> {
    without_stale(
        if p.node_id == me {
            s
        } else {
            with_routes(s, p.prefixes, p.node_id)
        },
        p.prefixes,
        p.node_id,
    )
}

/// The table after members were told of in turn.
pub open spec fn routed_all(s: Seq<(IpNet, NodeId)>, peers: Seq<PeerView>, me: NodeId) -> Seq<
    (IpNet, NodeId),
>
    decreases peers.len(),
{
    if peers.len() == 0 {
        s
    } else {
        routed(routed_all(s, peers.drop_last(), me), peers.last(), me)
    }
}

/// The table without the prefixes.
pub open spec fn without_routes(s: Seq<(IpNet, NodeId)>, prefixes: Seq<IpNet>) -> Seq<
    (IpNet, NodeId),
>
    decreases prefixes.len(),
{
    if prefixes.len() == 0 {
        s
    } else {
        drop_route(without_routes(s, prefixes.drop_last()), prefixes.last())
    }
}

/// The members after they were told of in turn.
pub open spec fn known_after(m: Map<NodeId, PeerInfo>, peers: Seq<PeerInfo>) -> Map<
    NodeId,
    PeerInfo,
>
    decreases peers.len(),
{
    if peers.len() == 0 {
        m
    } else {
        known_after(m, peers.drop_last()).insert(peers.last().node_id, peers.last())
    }
}

/// Why a packet from a member is dropped.
pub open spec fn ingress_problem(
    lpm: Seq<(IpNet, NodeId)>,
    mine: Seq<IpNet>,
    src_id: NodeId,
    packet: Seq<u8>,
) -> Option<Seq<char>> {
    match inner_addrs(packet) {
        None => Some("malformed_inner"@),
        Some((src, dst)) => if owner_in(lpm, src) != Some(src_id) {
            Some("inner_src_not_owned"@)
        } else if !any_has(mine, dst) {
            Some("inner_dst_not_mine"@)
        } else {
            None
        },
    }
}

/// The key that a member's entry names, if it names one.
pub open spec fn key_of(pubkey: Seq<char>) -> Option<Seq<u8>> {
    match base64_bytes(pubkey) {
        Some(b) if b.len() == KEY_LEN => Some(b),
        _ => None,
    }
}

/// The key that a member's entry names, if it names one.
pub fn decode_pubkey(text: &str) -> (r: Option<Vec<u8>>)
    ensures
        match r {
            Some(k) => key_of(text@) == Some(k@),
            None => key_of(text@) is None,
        },
{
    match decode_base64(text) {
        Some(b) => if b.len() == KEY_LEN {
            Some(b)
        } else {
            None
        },
        None => None,
    }
}

impl PeerTable {
    /// Every prefix is valid.
    pub open spec fn wf(self) -> bool {
        &&& self.peers.wf()
        &&& self.lpm.wf()
        &&& all_valid(self.mine@)
        &&& forall|id: NodeId| #[trigger]
            self.peers@.dom().contains(id) ==> all_valid(self.peers@[id].prefixes@)
    }

    pub fn new(my_node_id: NodeId) -> (r: PeerTable)
        ensures
            r.wf(),
            r.my_node_id == my_node_id,
            r.peers@ == Map::<NodeId, PeerInfo>::empty(),
            r.lpm.entries@ == Seq::<(IpNet, NodeId)>::empty(),
            r.mine@ == Seq::<IpNet>::empty(),
    {
        PeerTable { peers: IdMap::new(), lpm: LpmTable::new(), mine: Vec::new(), my_node_id }
    }

    /// Say which prefixes this node owns.
    pub fn set_mine(&mut self, prefixes: Vec<IpNet>)
        requires
            old(self).wf(),
            all_valid(prefixes@),
        ensures
            final(self).wf(),
            *final(self) == (PeerTable { mine: prefixes, ..*old(self) }),
    {
        self.mine = prefixes;
    }

    /// Take in what is known of a member. Prefixes that it does not claim any
    /// more are not routed to it any more.
    pub fn upsert(&mut self, p: PeerInfo)
        requires
            old(self).wf(),
            all_valid(p.prefixes@),
        ensures
            final(self).wf(),
            final(self).mine == old(self).mine,
            final(self).my_node_id == old(self).my_node_id,
            final(self).peers@ == old(self).peers@.insert(p.node_id, p),
            final(self).lpm.entries@ == routed(
                old(self).lpm.entries@,
                p@,
                old(self).my_node_id,
            ),
    {
        let ghost before = self.lpm.entries@;
        if p.node_id != self.my_node_id {
            let mut i: usize = 0;
            assert(p.prefixes@.take(0) =~= Seq::empty());
            while i < p.prefixes.len()
                invariant
                    i <= p.prefixes@.len(),
                    all_valid(p.prefixes@),
                    self.lpm.wf(),
                    self.mine == old(self).mine,
                    self.my_node_id == old(self).my_node_id,
                    self.peers == old(self).peers,
                    self.lpm.entries@ == with_routes(
                        before,
                        p.prefixes@.take(i as int),
                        p.node_id,
                    ),
                decreases p.prefixes.len() - i,
            {
                assert(p.prefixes@.take(i + 1).drop_last() =~= p.prefixes@.take(i as int));
                self.lpm.insert(p.prefixes[i], p.node_id);
                i = i + 1;
            }
            assert(p.prefixes@.take(i as int) =~= p.prefixes@);
        }
        let ghost mid = self.lpm.entries@;
        let mut out: Vec<(IpNet, NodeId)> = Vec::new();
        let mut k: usize = 0;
        assert(mid.take(0) =~= Seq::empty());
        while k < self.lpm.entries.len()
            invariant
                k <= mid.len(),
                mid == self.lpm.entries@,
                self.lpm.wf(),
                self.mine == old(self).mine,
                self.my_node_id == old(self).my_node_id,
                self.peers == old(self).peers,
                routes_wf(out@),
                out@ == without_stale(mid.take(k as int), p.prefixes@, p.node_id),
            decreases mid.len() - k,
        {
            assert(mid.take(k + 1).drop_last() =~= mid.take(k as int));
            let e = self.lpm.entries[k];
            assert(mid.take(k + 1).last() == e);
            let stale = e.1 == p.node_id && !nets_contain(&p.prefixes, &e.0);
            if !stale {
                out.push(e);
            }
            k = k + 1;
        }
        assert(mid.take(k as int) =~= mid);
        self.lpm.entries = out;
        let id = p.node_id;
        self.peers.insert(id, p);
    }

    /// Forget a member, and every prefix that it was last known to have.
    pub fn remove(&mut self, id: NodeId)
        requires
            old(self).wf(),
        ensures
            final(self).wf(),
            final(self).mine == old(self).mine,
            final(self).my_node_id == old(self).my_node_id,
            final(self).peers@ == old(self).peers@.remove(id),
            final(self).lpm.entries@ == if old(self).peers@.dom().contains(id) {
                without_routes(old(self).lpm.entries@, old(self).peers@[id].prefixes@)
            } else {
                old(self).lpm.entries@
            },
    {
        let ghost before = self.lpm.entries@;
        let ghost was = self.peers@;
        match self.peers.remove(id) {
            None => {
                assert(self.peers@ =~= was);
            },
            Some(p) => {
                let mut i: usize = 0;
                assert(p.prefixes@.take(0) =~= Seq::empty());
                while i < p.prefixes.len()
                    invariant
                        i <= p.prefixes@.len(),
                        self.lpm.wf(),
                        self.mine == old(self).mine,
                        self.my_node_id == old(self).my_node_id,
                        self.peers.wf(),
                        self.peers@ == was.remove(id),
                        self.lpm.entries@ == without_routes(before, p.prefixes@.take(i as int)),
                    decreases p.prefixes.len() - i,
                {
                    assert(p.prefixes@.take(i + 1).drop_last() =~= p.prefixes@.take(i as int));
                    self.lpm.remove(&p.prefixes[i]);
                    i = i + 1;
                }
                assert(p.prefixes@.take(i as int) =~= p.prefixes@);
            },
        }
    }

    /// Replace everything that is known of the members.
    pub fn replace_all(&mut self, peers: Vec<PeerInfo>)
        requires
            old(self).wf(),
            forall|i: int| 0 <= i < peers@.len() ==> all_valid((#[trigger] peers@[i]).prefixes@),
        ensures
            final(self).wf(),
            final(self).mine == old(self).mine,
            final(self).my_node_id == old(self).my_node_id,
            final(self).peers@ == known_after(Map::empty(), peers@),
            final(self).lpm.entries@ == routed_all(
                Seq::empty(),
                peer_views(peers@),
                old(self).my_node_id,
            ),
    {
        let ghost all = peers@;
        let ghost v = peer_views(peers@);
        self.peers = IdMap::new();
        self.lpm = LpmTable::new();
        let mut rest = peers;
        let ghost mut n: int = 0;
        assert(all.skip(0) =~= all);
        assert(all.take(0) =~= Seq::empty());
        assert(v.take(0) =~= Seq::empty());
        while rest.len() > 0
            invariant
                0 <= n <= all.len(),
                rest@ == all.skip(n),
                v == peer_views(all),
                v.len() == all.len(),
                self.wf(),
                self.mine == old(self).mine,
                self.my_node_id == old(self).my_node_id,
                forall|i: int| 0 <= i < all.len() ==> all_valid((#[trigger] all[i]).prefixes@),
                self.peers@ == known_after(Map::empty(), all.take(n)),
                self.lpm.entries@ == routed_all(Seq::empty(), v.take(n), self.my_node_id),
            decreases rest.len(),
        {
            assert(rest@[0] == all[n]);
            let p = rest.remove(0);
            assert(rest@ =~= all.skip(n + 1));
            assert(all.take(n + 1).drop_last() =~= all.take(n));
            assert(v.take(n + 1).drop_last() =~= v.take(n));
            assert(v.take(n + 1).last() == p@);
            assert(all.take(n + 1).last() == p);
            self.upsert(p);
            proof {
                n = n + 1;
            }
        }
        assert(all.take(n) =~= all);
        assert(v.take(n) =~= v);
    }

    /// The member that owns an address.
    pub fn owner_of(&self, addr: &IpAddr) -> (r: Option<NodeId>)
        requires
            self.wf(),
        ensures
            r == owner_in(self.lpm.entries@, *addr),
    {
        self.lpm.lookup(addr)
    }

    /// Is this one of our own addresses?
    pub fn is_mine(&self, addr: &IpAddr) -> (r: bool)
        requires
            self.wf(),
        ensures
            r == any_has(self.mine@, *addr),
    {
        any_contains(&self.mine, addr)
    }

    pub fn get(&self, id: NodeId) -> (r: Option<&PeerInfo>)
        requires
            self.wf(),
        ensures
            match r {
                Some(p) => self.peers@.dom().contains(id) && *p == self.peers@[id],
                None => !self.peers@.dom().contains(id),
            },
    {
        self.peers.get(id)
    }

    /// The key that a member has.
    pub open spec fn key(self, id: NodeId) -> Option<Seq<u8>> {
        if self.peers@.dom().contains(id) {
            key_of(self.peers@[id].pubkey@)
        } else {
            None
        }
    }

    /// The key that a member has.
    pub fn pubkey_of(&self, id: NodeId) -> (r: Option<Vec<u8>>)
        requires
            self.wf(),
        ensures
            match r {
                Some(k) => self.key(id) == Some(k@),
                None => self.key(id) is None,
            },
    {
        match self.peers.get(id) {
            Some(p) => decode_pubkey(p.pubkey.as_str()),
            None => None,
        }
    }

    /// Every prefix that a peer owns, in the order of their text.
    pub fn all_prefixes(&self) -> (r: Vec<IpNet>)
        requires
            self.wf(),
        ensures
            r@ == sort_by_text(self.lpm.entries@.map_values(|e: (IpNet, NodeId)| e.0)),
            all_valid(r@),
    {
        let mut out: Vec<IpNet> = Vec::new();
        let mut i: usize = 0;
        while i < self.lpm.entries.len()
            invariant
                i <= self.lpm.entries@.len(),
                self.wf(),
                out@.len() == i,
                all_valid(out@),
                forall|k: int| 0 <= k < i ==> #[trigger] out@[k] == self.lpm.entries@[k].0,
            decreases self.lpm.entries.len() - i,
        {
            out.push(self.lpm.entries[i].0);
            i = i + 1;
        }
        assert(out@ =~= self.lpm.entries@.map_values(|e: (IpNet, NodeId)| e.0));
        sorted_by_text(&out)
    }

    /// How many members are known.
    pub fn len(&self) -> (r: usize)
        requires
            self.wf(),
        ensures
            r as nat == self.peers@.dom().len(),
    {
        self.peers.len()
    }

    pub fn is_empty(&self) -> (r: bool)
        requires
            self.wf(),
        ensures
            r == (self.peers@ == Map::<NodeId, PeerInfo>::empty()),
    {
        self.peers.is_empty()
    }

    /// The filter on packets that a member sealed, before they reach the
    /// device.
    pub fn check_ingress(&self, src_id: NodeId, packet: &[u8]) -> (r: IngressVerdict)
        requires
            self.wf(),
        ensures
            match (r, ingress_problem(self.lpm.entries@, self.mine@, src_id, packet@)) {
                (IngressVerdict::Accept, None) => true,
                (IngressVerdict::Drop(why), Some(p)) => why@ == p,
                _ => false,
            },
    {
        let (src, dst) = match parse_inner_addrs(packet) {
            Some(a) => a,
            None => {
                return IngressVerdict::Drop("malformed_inner");
            },
        };
        let owned = match self.owner_of(&src) {
            Some(owner) => owner == src_id,
            None => false,
        };
        if !owned {
            return IngressVerdict::Drop("inner_src_not_owned");
        }
        if !self.is_mine(&dst) {
            return IngressVerdict::Drop("inner_dst_not_mine");
        }
        IngressVerdict::Accept
    }
}

/// A packet is accepted exactly when it parses, its source belongs to the
/// member that sealed it, and its destination is ours.
pub proof fn law_an_accepted_packet_is_from_its_owner_to_us(
    lpm: Seq<(IpNet, NodeId)>,
    mine: Seq<IpNet>,
    src_id: NodeId,
    packet: Seq<u8>,
)
    ensures
        ingress_problem(lpm, mine, src_id, packet) is None <==> (inner_addrs(packet) matches Some(
            (src, dst),
        ) && owner_in(lpm, src) == Some(src_id) && any_has(mine, dst)),
{
}

pub proof fn lemma_without_stale(
    s: Seq<(IpNet, NodeId)>,
    prefixes: Seq<IpNet>,
    id: NodeId,
    e: (IpNet, NodeId),
)
    ensures
        without_stale(s, prefixes, id).contains(e) <==> s.contains(e) && !(e.1 == id
            && !prefixes.contains(e.0)),
    decreases s.len(),
{
    if s.len() > 0 {
        let d = s.drop_last();
        let t = without_stale(d, prefixes, id);
        let u = without_stale(s, prefixes, id);
        lemma_without_stale(d, prefixes, id, e);
        if s.contains(e) && !(e.1 == id && !prefixes.contains(e.0)) {
            let i = choose|i: int| 0 <= i < s.len() && s[i] == e;
            if i < d.len() {
                assert(d[i] == e);
                let k = choose|k: int| 0 <= k < t.len() && t[k] == e;
                assert(u[k] == e);
            } else {
                assert(u[t.len() as int] == e);
            }
        }
        if u.contains(e) {
            let k = choose|k: int| 0 <= k < u.len() && u[k] == e;
            if k < t.len() {
                assert(t[k] == e);
                let i = choose|i: int| 0 <= i < d.len() && d[i] == e;
                assert(s[i] == e);
            } else {
                assert(s[s.len() - 1] == e);
            }
        }
    }
}

proof fn lemma_put_route(s: Seq<(IpNet, NodeId)>, net: IpNet, id: NodeId, other: IpNet)
    ensures
        put_route(s, net, id).contains((net, id)),
        put_route(s, net, id).contains((other, id)) <== s.contains((other, id)),
{
    lemma_route_index(s, net);
    let t = put_route(s, net, id);
    match route_index(s, net) {
        Some(i) => {
            assert(t[i] == (net, id));
            if s.contains((other, id)) {
                let k = choose|k: int| 0 <= k < s.len() && s[k] == (other, id);
                if k == i {
                    assert(t[i] == (other, id));
                } else {
                    assert(t[k] == (other, id));
                }
            }
        },
        None => {
            assert(t[s.len() as int] == (net, id));
            if s.contains((other, id)) {
                let k = choose|k: int| 0 <= k < s.len() && s[k] == (other, id);
                assert(t[k] == (other, id));
            }
        },
    }
}

proof fn lemma_with_routes(
    s: Seq<(IpNet, NodeId)>,
    prefixes: Seq<IpNet>,
    id: NodeId,
    net: IpNet,
)
    requires
        prefixes.contains(net),
    ensures
        with_routes(s, prefixes, id).contains((net, id)),
    decreases prefixes.len(),
{
    let d = prefixes.drop_last();
    let i = choose|i: int| 0 <= i < prefixes.len() && prefixes[i] == net;
    if i < d.len() {
        assert(d[i] == net);
        lemma_with_routes(s, d, id, net);
    }
    lemma_put_route(with_routes(s, d, id), prefixes.last(), id, net);
}

/// After a member was told of, exactly the prefixes that it claims are
/// routed to it.
pub proof fn law_a_member_is_routed_what_it_claims(
    s: Seq<(IpNet, NodeId)>,
    p: PeerView,
    me: NodeId,
    net: IpNet,
)
    requires
        p.node_id != me,
    ensures
        routed(s, p, me).contains((net, p.node_id)) <==> p.prefixes.contains(net),
{
    let mid = with_routes(s, p.prefixes, p.node_id);
    lemma_without_stale(mid, p.prefixes, p.node_id, (net, p.node_id));
    if p.prefixes.contains(net) {
        lemma_with_routes(s, p.prefixes, p.node_id, net);
    }
}

} // verus!
