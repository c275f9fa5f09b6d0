//! The values that the coordinator, the relays and the clients exchange.

use vstd::prelude::*;

use crate::net::IpNet;
use crate::text::str_eq;

verus! {

/// A member's identity on the wire, assigned by the coordinator.
pub type NodeId = u32;

/// What a member does in the network.
#[derive(Clone, Copy, PartialEq, Eq, Structural, Debug)]
pub enum Role {
    Client,
    Relay,
}

impl Role {
    /// The role as text.
    pub fn as_str(&self) -> (r: &'static str)
        ensures
            r@ == self.text(),
    {
        match self {
            Role::Client => "client",
            Role::Relay => "relay",
        }
    }

    pub open spec fn text(self) -> Seq<char> {
        match self {
            Role::Client => "client"@,
            Role::Relay => "relay"@,
        }
    }
}

/// What the network knows of one member.
#[derive(Debug)]
pub struct PeerInfo {
    pub node_id: NodeId,
    pub name: String,
    pub role: Role,
    /// The prefixes that are routed to this member.
    pub prefixes: Vec<IpNet>,
    pub pubkey: String,
    pub online: bool,
    /// Raised whenever another machine takes over the identity.
    pub login_gen: u64,
}

/// The content of a [`PeerInfo`].
#[verifier::ext_equal]
pub struct PeerView {
    pub node_id: NodeId,
    pub name: Seq<char>,
    pub role: Role,
    pub prefixes: Seq<IpNet>,
    pub pubkey: Seq<char>,
    pub online: bool,
    pub login_gen: u64,
}

impl View for PeerInfo {
    type V = PeerView;

    open spec fn view(&self) -> PeerView {
        PeerView {
            node_id: self.node_id,
            name: self.name@,
            role: self.role,
            prefixes: self.prefixes@,
            pubkey: self.pubkey@,
            online: self.online,
            login_gen: self.login_gen,
        }
    }
}

/// A copy of a list of prefixes.
pub fn copy_nets(v: &Vec<IpNet>) -> (r: Vec<IpNet>)
    ensures
        r@ == v@,
{
    let mut out: Vec<IpNet> = Vec::new();
    let mut i: usize = 0;
    while i < v.len()
        invariant
            i <= v.len(),
            out@ == v@.take(i as int),
        decreases v.len() - i,
    {
        out.push(v[i]);
        assert(v@.take(i + 1) =~= v@.take(i as int).push(v@[i as int]));
        i = i + 1;
    }
    assert(v@.take(i as int) =~= v@);
    out
}

/// Do the two lists hold the same prefixes in the same order?
pub fn nets_eq(a: &Vec<IpNet>, b: &Vec<IpNet>) -> (r: bool)
    ensures
        r == (a@ == b@),
{
    if a.len() != b.len() {
        return false;
    }
    let mut i: usize = 0;
    while i < a.len()
        invariant
            i <= a.len(),
            a.len() == b.len(),
            forall|k: int| 0 <= k < i ==> a@[k] == b@[k],
        decreases a.len() - i,
    {
        if a[i] != b[i] {
            return false;
        }
        i = i + 1;
    }
    assert(a@ =~= b@);
    true
}

/// Is `x` one of the prefixes?
pub fn nets_contain(v: &Vec<IpNet>, x: &IpNet) -> (r: bool)
    ensures
        r == v@.contains(*x),
{
    let mut i: usize = 0;
    while i < v.len()
        invariant
            i <= v.len(),
            forall|k: int| 0 <= k < i ==> v@[k] != *x,
        decreases v.len() - i,
    {
        if v[i] == *x {
            return true;
        }
        i = i + 1;
    }
    false
}

impl PeerInfo {
    /// A copy of this entry.
    pub fn copy(&self) -> (r: PeerInfo)
        ensures
            r@ == self@,
    {
        PeerInfo {
            node_id: self.node_id,
            name: self.name.clone(),
            role: self.role,
            prefixes: copy_nets(&self.prefixes),
            pubkey: self.pubkey.clone(),
            online: self.online,
            login_gen: self.login_gen,
        }
    }

    /// Do the two entries say the same?
    pub fn same(&self, other: &PeerInfo) -> (r: bool)
        ensures
            r == (self@ == other@),
    {
        self.node_id == other.node_id && str_eq(self.name.as_str(), other.name.as_str())
            && self.role == other.role && nets_eq(&self.prefixes, &other.prefixes) && str_eq(
            self.pubkey.as_str(),
            other.pubkey.as_str(),
        ) && self.online == other.online && self.login_gen == other.login_gen
    }
}

/// The content of a list of members.
pub open spec fn peer_views(v: Seq<PeerInfo>) -> Seq<PeerView> {
    v.map_values(|p: PeerInfo| p@)
}

/// A copy of a list of members.
pub fn copy_peers(v: &Vec<PeerInfo>) -> (r: Vec<PeerInfo>)
    ensures
        peer_views(r@) == peer_views(v@),
{
    let mut out: Vec<PeerInfo> = Vec::new();
    let mut i: usize = 0;
    while i < v.len()
        invariant
            i <= v.len(),
            peer_views(out@) == peer_views(v@.take(i as int)),
        decreases v.len() - i,
    {
        out.push(v[i].copy());
        assert(peer_views(out@) =~= peer_views(v@.take(i as int)).push(v@[i as int]@));
        assert(peer_views(v@.take(i + 1)) =~= peer_views(v@.take(i as int)).push(v@[i as int]@));
        i = i + 1;
    }
    assert(v@.take(i as int) =~= v@);
    out
}

/// A change to the published view: what to replace and what to forget.
#[derive(Debug)]
pub struct MembershipDelta {
    pub base_rev: u64,
    pub new_rev: u64,
    pub changed: Vec<PeerInfo>,
    pub removed: Vec<NodeId>,
}

/// Which relay holds a client's session.
#[derive(Clone, Copy, PartialEq, Eq, Structural, Debug)]
pub struct AttachmentEntry {
    pub node_id: NodeId,
    pub relay_id: NodeId,
}

/// A change to the attachment table.
#[derive(Debug)]
pub struct AttachmentDelta {
    pub base_rev: u64,
    pub new_rev: u64,
    pub changed: Vec<AttachmentEntry>,
    pub detached: Vec<NodeId>,
}

/// One client that a relay holds a session with.
#[derive(Clone, Copy, PartialEq, Eq, Structural, Debug)]
pub struct AttachedClient {
    pub node_id: NodeId,
    pub session_id: u64,
}

/// What a member declares at every heartbeat.
#[derive(Debug)]
pub struct Heartbeat {
    /// The generation of the view that the member holds.
    pub gen: u64,
    /// The digest of that view.
    pub digest: u64,
    /// Relays: every client that the relay holds.
    pub attached: Vec<AttachedClient>,
    /// Clients: the relay that the client is attached to.
    pub attached_to: Option<NodeId>,
    /// Relays: the relays that a mesh link is up to.
    pub mesh_up: Vec<NodeId>,
}

/// Cumulative counters of one mesh link.
#[derive(Clone, Copy, PartialEq, Eq, Structural, Debug)]
pub struct LinkTraffic {
    pub peer_id: NodeId,
    pub tx_bytes: u64,
    pub tx_pkts: u64,
    pub rx_bytes: u64,
    pub rx_pkts: u64,
    pub up: bool,
}

/// A relay's traffic counters since it started.
#[derive(Debug)]
pub struct TrafficReport {
    pub links: Vec<LinkTraffic>,
    pub local_bytes: u64,
    pub local_pkts: u64,
    pub terminated_bytes: u64,
    pub terminated_pkts: u64,
}

/// The tunnel MTU of the network, and who limits it.
#[derive(Debug)]
pub struct NetworkMtu {
    pub mtu: u16,
    pub limited_by: String,
}

/// A relay that can be dialed.
#[derive(Debug)]
pub struct RelayEntry {
    pub relay_id: NodeId,
    pub name: String,
    pub addr: String,
    pub cert_fp: String,
}

/// The content of a [`RelayEntry`].
#[verifier::ext_equal]
pub struct RelayView {
    pub relay_id: NodeId,
    pub name: Seq<char>,
    pub addr: Seq<char>,
    pub cert_fp: Seq<char>,
}

impl View for RelayEntry {
    type V = RelayView;

    open spec fn view(&self) -> RelayView {
        RelayView {
            relay_id: self.relay_id,
            name: self.name@,
            addr: self.addr@,
            cert_fp: self.cert_fp@,
        }
    }
}

impl RelayEntry {
    /// A copy of this entry.
    pub fn copy(&self) -> (r: RelayEntry)
        ensures
            r@ == self@,
    {
        RelayEntry {
            relay_id: self.relay_id,
            name: self.name.clone(),
            addr: self.addr.clone(),
            cert_fp: self.cert_fp.clone(),
        }
    }

    /// Do the two entries say the same?
    pub fn same(&self, other: &RelayEntry) -> (r: bool)
        ensures
            r == (self@ == other@),
    {
        self.relay_id == other.relay_id && str_eq(self.name.as_str(), other.name.as_str())
            && str_eq(self.addr.as_str(), other.addr.as_str()) && str_eq(
            self.cert_fp.as_str(),
            other.cert_fp.as_str(),
        )
    }
}

/// The content of a relay fleet.
pub open spec fn relay_views(v: Seq<RelayEntry>) -> Seq<RelayView> {
    v.map_values(|r: RelayEntry| r@)
}

/// A copy of a relay fleet.
pub fn copy_relays(v: &Vec<RelayEntry>) -> (r: Vec<RelayEntry>)
    ensures
        relay_views(r@) == relay_views(v@),
{
    let mut out: Vec<RelayEntry> = Vec::new();
    let mut i: usize = 0;
    while i < v.len()
        invariant
            i <= v.len(),
            relay_views(out@) == relay_views(v@.take(i as int)),
        decreases v.len() - i,
    {
        out.push(v[i].copy());
        assert(relay_views(out@) =~= relay_views(v@.take(i as int)).push(v@[i as int]@));
        assert(relay_views(v@.take(i + 1)) =~= relay_views(v@.take(i as int)).push(v@[i as int]@));
        i = i + 1;
    }
    assert(v@.take(i as int) =~= v@);
    out
}

/// Are the two fleets the same?
pub fn relays_eq(a: &Vec<RelayEntry>, b: &Vec<RelayEntry>) -> (r: bool)
    ensures
        r == (relay_views(a@) == relay_views(b@)),
{
    if a.len() != b.len() {
        assert(relay_views(a@).len() == a@.len());
        assert(relay_views(b@).len() == b@.len());
        return false;
    }
    let mut i: usize = 0;
    while i < a.len()
        invariant
            i <= a.len(),
            a.len() == b.len(),
            forall|k: int| 0 <= k < i ==> a@[k]@ == b@[k]@,
        decreases a.len() - i,
    {
        if !a[i].same(&b[i]) {
            assert(relay_views(a@)[i as int] != relay_views(b@)[i as int]);
            return false;
        }
        i = i + 1;
    }
    assert(relay_views(a@) =~= relay_views(b@));
    true
}

/// A key that credentials are signed with, as members see it.
#[derive(Debug)]
pub struct KeyInfo {
    pub kid: String,
    /// The public key in base64.
    pub key: String,
    pub state: String,
}

/// The published view of a network.
#[derive(Debug)]
pub struct Snapshot {
    pub gen: u64,
    pub members: Vec<PeerInfo>,
    pub attachments: Vec<AttachmentEntry>,
    pub relays: Vec<RelayEntry>,
    pub mtu: u16,
    /// Everything that belongs to the network, owned at the moment or not.
    pub reserved_prefixes: Vec<IpNet>,
}

} // verus!
