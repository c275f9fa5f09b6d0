//! Configuration of the coordinator and of its networks.
//!
//! A network's configuration is the operator's plan of record. What the
//! whole of it must meet is stated by [`crate::validate`].

use vstd::prelude::*;

use crate::namemap::{lemma_distinct, lemma_named_entry, NameMap};
use crate::net::{all_valid, IpNet};
use crate::proto::{copy_nets, nets_eq, Role};
use crate::text::{copy_opt, opt_eq, opt_text, text_before, trim, trimmed};

verus! {

/// The coordinator's own configuration.
#[derive(Debug)]
pub struct CoordConfig {
    pub listen: ListenCfg,
    /// A certificate for the HTTPS API and the control port. Without one a
    /// self-signed certificate is generated on first start.
    pub tls: Option<TlsCfg>,
    pub state: StateCfg,
    pub admin: AdminCfg,
    pub limits: LimitsCfg,
}

/// Where the coordinator listens.
#[derive(Debug)]
pub struct ListenCfg {
    pub api: String,
    /// The control port, published to members at join.
    pub quic: String,
    /// The URL that goes into tokens.
    pub public_url: Option<String>,
}

#[derive(Debug)]
pub struct TlsCfg {
    pub cert: String,
    pub key: String,
}

#[derive(Debug)]
pub struct StateCfg {
    pub dir: String,
}

/// How an administrator gets in.
#[derive(Debug)]
pub struct AdminCfg {
    pub bearer_token: Option<String>,
    pub bearer_token_file: Option<String>,
    pub user: Option<String>,
    pub password_hash: Option<String>,
    pub session_hours: u64,
}

#[derive(Debug)]
pub struct LimitsCfg {
    pub join_rate_per_min: u32,
}

/// The default control address.
pub fn d_quic() -> (r: String)
    ensures
        r@ == "0.0.0.0:14433"@,
{
    "0.0.0.0:14433".to_owned()
}

/// The default number of joins per minute.
pub fn default_join_rate() -> (r: u32)
    ensures
        r == 30,
{
    30
}

impl Default for LimitsCfg {
    fn default() -> (r: LimitsCfg)
        ensures
            r.join_rate_per_min == 30,
    {
        LimitsCfg { join_rate_per_min: default_join_rate() }
    }
}

/// A range that addresses are drawn from.
#[derive(Clone, Copy, PartialEq, Eq, Structural, Debug)]
pub struct PoolCfg {
    pub cidr: IpNet,
}

/// What holds for every member of a network.
#[derive(Debug)]
pub struct SettingsCfg {
    pub credential_ttl_mins: u64,
    /// Seconds between heartbeats.
    pub heartbeat_secs: u16,
    /// Missed heartbeats before a member is offline.
    pub offline_after: u32,
    pub hold_down_secs: u64,
    pub mtu: u16,
    /// What to do when a relay's address cannot be dialed: `off`, `warn` or
    /// `deny`.
    pub relay_reachability: String,
    /// `datagram` or `stream`.
    pub transport: String,
    pub lanes: u8,
    /// Bandwidth cap per client applied by relays; 0 means none.
    pub max_session_mbps: u32,
    /// Let relays advertise loopback addresses, for a whole network on one
    /// machine.
    pub allow_loopback_relays: bool,
}

/// The content of [`SettingsCfg`].
#[verifier::ext_equal]
pub struct SettingsView {
    pub credential_ttl_mins: u64,
    pub heartbeat_secs: u16,
    pub offline_after: u32,
    pub hold_down_secs: u64,
    pub mtu: u16,
    pub relay_reachability: Seq<char>,
    pub transport: Seq<char>,
    pub lanes: u8,
    pub max_session_mbps: u32,
    pub allow_loopback_relays: bool,
}

impl View for SettingsCfg {
    type V = SettingsView;

    open spec fn view(&self) -> SettingsView {
        SettingsView {
            credential_ttl_mins: self.credential_ttl_mins,
            heartbeat_secs: self.heartbeat_secs,
            offline_after: self.offline_after,
            hold_down_secs: self.hold_down_secs,
            mtu: self.mtu,
            relay_reachability: self.relay_reachability@,
            transport: self.transport@,
            lanes: self.lanes,
            max_session_mbps: self.max_session_mbps,
            allow_loopback_relays: self.allow_loopback_relays,
        }
    }
}

pub fn d_ttl() -> (r: u64)
    ensures
        r == 15,
{
    15
}

pub fn d_heartbeat() -> (r: u16)
    ensures
        r == 5,
{
    5
}

pub fn d_offline_after() -> (r: u32)
    ensures
        r == 3,
{
    3
}

pub fn d_hold_down() -> (r: u64)
    ensures
        r == 60,
{
    60
}

pub fn d_mtu() -> (r: u16)
    ensures
        r == 1350,
{
    1350
}

pub fn d_reach_policy() -> (r: String)
    ensures
        r@ == "warn"@,
{
    "warn".to_owned()
}

pub fn d_lanes() -> (r: u8)
    ensures
        r == 1,
{
    1
}

pub fn d_transport() -> (r: String)
    ensures
        r@ == "stream"@,
{
    "stream".to_owned()
}

/// The settings of a network that says nothing about them.
pub open spec fn default_settings() -> SettingsView {
    SettingsView {
        credential_ttl_mins: 15,
        heartbeat_secs: 5,
        offline_after: 3,
        hold_down_secs: 60,
        mtu: 1350,
        relay_reachability: "warn"@,
        transport: "stream"@,
        lanes: 1,
        max_session_mbps: 0,
        allow_loopback_relays: false,
    }
}

impl Default for SettingsCfg {
    fn default() -> (r: SettingsCfg)
        ensures
            r@ == default_settings(),
    {
        SettingsCfg {
            credential_ttl_mins: d_ttl(),
            heartbeat_secs: d_heartbeat(),
            offline_after: d_offline_after(),
            hold_down_secs: d_hold_down(),
            mtu: d_mtu(),
            relay_reachability: d_reach_policy(),
            transport: d_transport(),
            lanes: d_lanes(),
            max_session_mbps: 0,
            allow_loopback_relays: false,
        }
    }
}

impl SettingsView {
    /// Seconds without a heartbeat before a member is offline: a heartbeat
    /// interval and a count of at least one each.
    pub open spec fn liveness_window(self) -> nat {
        let beat: nat = if self.heartbeat_secs == 0 {
            1
        } else {
            self.heartbeat_secs as nat
        };
        let count: nat = if self.offline_after == 0 {
            1
        } else {
            self.offline_after as nat
        };
        beat * count
    }
}

impl SettingsCfg {
    /// Seconds without a heartbeat before a member is offline.
    pub fn liveness_window_secs(&self) -> (r: u64)
        ensures
            r as nat == self@.liveness_window(),
            r > 0,
    {
        let beat: u64 = if self.heartbeat_secs == 0 {
            1
        } else {
            self.heartbeat_secs as u64
        };
        let count: u64 = if self.offline_after == 0 {
            1
        } else {
            self.offline_after as u64
        };
        assert(0 < beat * count <= 0xffff * 0xffff_ffff) by (nonlinear_arith)
            requires
                0 < beat <= 0xffff,
                0 < count <= 0xffff_ffff,
        ;
        beat * count
    }

    /// A copy of the settings.
    pub fn copy(&self) -> (r: SettingsCfg)
        ensures
            r@ == self@,
    {
        SettingsCfg {
            credential_ttl_mins: self.credential_ttl_mins,
            heartbeat_secs: self.heartbeat_secs,
            offline_after: self.offline_after,
            hold_down_secs: self.hold_down_secs,
            mtu: self.mtu,
            relay_reachability: self.relay_reachability.clone(),
            transport: self.transport.clone(),
            lanes: self.lanes,
            max_session_mbps: self.max_session_mbps,
            allow_loopback_relays: self.allow_loopback_relays,
        }
    }
}

/// A member as the operator configured it.
#[derive(Debug)]
pub struct MemberCfg {
    /// A member without a secret cannot join.
    pub secret: Option<String>,
    /// Relays: the address to dial, or `auto:port` for where it joins from.
    pub relay_addr: Option<String>,
    /// Relays: prefixes that the member may register.
    pub allowed_cidrs: Vec<IpNet>,
    /// Relays: prefixes that the member registers.
    pub local_cidrs: Vec<IpNet>,
    /// Relays: the member is a way out to the internet.
    pub internet_gateway: Option<bool>,
    pub preferred_ip4: Option<u32>,
    pub preferred_ip6: Option<u128>,
    /// Draw addresses of the pool's family from this pool.
    pub pool: Option<String>,
    pub want_vpn_ip: Option<bool>,
    pub max_session_mbps: Option<u32>,
    /// Clients: the relay to attach to when it is reachable.
    pub preferred_relay: Option<String>,
}

/// The content of a [`MemberCfg`].
#[verifier::ext_equal]
pub struct MemberView {
    pub secret: Option<Seq<char>>,
    pub relay_addr: Option<Seq<char>>,
    pub allowed_cidrs: Seq<IpNet>,
    pub local_cidrs: Seq<IpNet>,
    pub internet_gateway: Option<bool>,
    pub preferred_ip4: Option<u32>,
    pub preferred_ip6: Option<u128>,
    pub pool: Option<Seq<char>>,
    pub want_vpn_ip: Option<bool>,
    pub max_session_mbps: Option<u32>,
    pub preferred_relay: Option<Seq<char>>,
}

impl View for MemberCfg {
    type V = MemberView;

    open spec fn view(&self) -> MemberView {
        MemberView {
            secret: opt_text(self.secret),
            relay_addr: opt_text(self.relay_addr),
            allowed_cidrs: self.allowed_cidrs@,
            local_cidrs: self.local_cidrs@,
            internet_gateway: self.internet_gateway,
            preferred_ip4: self.preferred_ip4,
            preferred_ip6: self.preferred_ip6,
            pool: opt_text(self.pool),
            want_vpn_ip: self.want_vpn_ip,
            max_session_mbps: self.max_session_mbps,
            preferred_relay: opt_text(self.preferred_relay),
        }
    }
}

/// A member of which nothing is configured.
pub open spec fn blank_member() -> MemberView {
    MemberView {
        secret: None,
        relay_addr: None,
        allowed_cidrs: Seq::empty(),
        local_cidrs: Seq::empty(),
        internet_gateway: None,
        preferred_ip4: None,
        preferred_ip6: None,
        pool: None,
        want_vpn_ip: None,
        max_session_mbps: None,
        preferred_relay: None,
    }
}

impl Default for MemberCfg {
    fn default() -> (r: MemberCfg)
        ensures
            r@ == blank_member(),
    {
        MemberCfg {
            secret: None,
            relay_addr: None,
            allowed_cidrs: Vec::new(),
            local_cidrs: Vec::new(),
            internet_gateway: None,
            preferred_ip4: None,
            preferred_ip6: None,
            pool: None,
            want_vpn_ip: None,
            max_session_mbps: None,
            preferred_relay: None,
        }
    }
}

impl MemberView {
    /// Every prefix is a valid one.
    pub open spec fn wf(self) -> bool {
        all_valid(self.allowed_cidrs) && all_valid(self.local_cidrs)
    }

    /// The same, but for the secret and what the member may register.
    pub open spec fn same_facts(self, other: MemberView) -> bool {
        (MemberView {
            secret: other.secret,
            allowed_cidrs: other.allowed_cidrs,
            ..self
        }) == other
    }
}

impl MemberCfg {
    /// A copy of this configuration.
    pub fn copy(&self) -> (r: MemberCfg)
        ensures
            r@ == self@,
    {
        MemberCfg {
            secret: copy_opt(&self.secret),
            relay_addr: copy_opt(&self.relay_addr),
            allowed_cidrs: copy_nets(&self.allowed_cidrs),
            local_cidrs: copy_nets(&self.local_cidrs),
            internet_gateway: self.internet_gateway,
            preferred_ip4: self.preferred_ip4,
            preferred_ip6: self.preferred_ip6,
            pool: copy_opt(&self.pool),
            want_vpn_ip: self.want_vpn_ip,
            max_session_mbps: self.max_session_mbps,
            preferred_relay: copy_opt(&self.preferred_relay),
        }
    }

    /// Do the two say the same of everything that a member is told at join?
    pub fn facts_equal(&self, other: &MemberCfg) -> (r: bool)
        ensures
            r == self@.same_facts(other@),
    {
        let r = opt_eq(&self.relay_addr, &other.relay_addr) && nets_eq(
            &self.local_cidrs,
            &other.local_cidrs,
        ) && self.internet_gateway == other.internet_gateway && self.preferred_ip4
            == other.preferred_ip4 && self.preferred_ip6 == other.preferred_ip6
            && opt_eq(&self.pool, &other.pool) && self.want_vpn_ip == other.want_vpn_ip
            && self.max_session_mbps == other.max_session_mbps && opt_eq(
            &self.preferred_relay,
            &other.preferred_relay,
        );
        r
    }
}

/// A network as it is configured.
#[derive(Debug)]
pub struct NetworkConfig {
    pub network_id: String,
    /// The tunnel space.
    pub cidrs: Vec<IpNet>,
    pub pools: NameMap<PoolCfg>,
    pub settings: SettingsCfg,
    pub relays: NameMap<MemberCfg>,
    pub clients: NameMap<MemberCfg>,
}

/// The content of a [`NetworkConfig`]; members and pools in the order of
/// their names.
#[verifier::ext_equal]
pub struct NetworkView {
    pub network_id: Seq<char>,
    pub cidrs: Seq<IpNet>,
    pub pools: Seq<(Seq<char>, IpNet)>,
    pub settings: SettingsView,
    pub relays: Seq<(Seq<char>, MemberView)>,
    pub clients: Seq<(Seq<char>, MemberView)>,
}

/// The content of a list of named members.
pub open spec fn member_views(s: Seq<(String, MemberCfg)>) -> Seq<(Seq<char>, MemberView)> {
    s.map_values(|e: (String, MemberCfg)| (e.0@, e.1@))
}

/// The content of a list of named pools.
pub open spec fn pool_views(s: Seq<(String, PoolCfg)>) -> Seq<(Seq<char>, IpNet)> {
    s.map_values(|e: (String, PoolCfg)| (e.0@, e.1.cidr))
}

impl View for NetworkConfig {
    type V = NetworkView;

    open spec fn view(&self) -> NetworkView {
        NetworkView {
            network_id: self.network_id@,
            cidrs: self.cidrs@,
            pools: pool_views(self.pools.entries@),
            settings: self.settings@,
            relays: member_views(self.relays.entries@),
            clients: member_views(self.clients.entries@),
        }
    }
}

/// What stands under a name: the first entry that has it.
pub open spec fn assoc<T>(s: Seq<(Seq<char>, T)>, name: Seq<char>) -> Option<T>
    decreases s.len(),
{
    if s.len() == 0 {
        None
    } else {
        match assoc(s.drop_last(), name) {
            Some(v) => Some(v),
            None => if s.last().0 == name {
                Some(s.last().1)
            } else {
                None
            },
        }
    }
}

/// The first entry of a name fixes [`assoc`].
pub proof fn lemma_assoc_at<T>(s: Seq<(Seq<char>, T)>, name: Seq<char>, i: int)
    requires
        0 <= i < s.len(),
        s[i].0 == name,
        forall|j: int| 0 <= j < i ==> (#[trigger] s[j]).0 != name,
    ensures
        assoc(s, name) == Some(s[i].1),
    decreases s.len(),
{
    let d = s.drop_last();
    if i < d.len() {
        assert forall|j: int| 0 <= j < i implies (#[trigger] d[j]).0 != name by {
            assert(d[j] == s[j]);
        }
        lemma_assoc_at(d, name, i);
    } else {
        assert forall|j: int| 0 <= j < d.len() implies (#[trigger] d[j]).0 != name by {
            assert(d[j] == s[j]);
        }
        lemma_assoc_none(d, name);
    }
}

/// A name that no entry has stands for nothing.
pub proof fn lemma_assoc_none<T>(s: Seq<(Seq<char>, T)>, name: Seq<char>)
    requires
        forall|j: int| 0 <= j < s.len() ==> (#[trigger] s[j]).0 != name,
    ensures
        assoc(s, name) is None,
    decreases s.len(),
{
    if s.len() > 0 {
        let d = s.drop_last();
        assert forall|j: int| 0 <= j < d.len() implies (#[trigger] d[j]).0 != name by {
            assert(d[j] == s[j]);
        }
        lemma_assoc_none(d, name);
    }
}

/// What [`assoc`] gives stands in the list.
pub proof fn lemma_assoc_some<T>(s: Seq<(Seq<char>, T)>, name: Seq<char>) -> (i: int)
    requires
        assoc(s, name) is Some,
    ensures
        0 <= i < s.len(),
        s[i].0 == name,
        assoc(s, name) == Some(s[i].1),
        forall|j: int| 0 <= j < i ==> (#[trigger] s[j]).0 != name,
    decreases s.len(),
{
    let d = s.drop_last();
    if assoc(d, name) is Some {
        let i = lemma_assoc_some(d, name);
        assert(d[i] == s[i]);
        assert forall|j: int| 0 <= j < i implies (#[trigger] s[j]).0 != name by {
            assert(d[j] == s[j]);
        }
        i
    } else {
        assert forall|j: int| 0 <= j < d.len() implies (#[trigger] s[j]).0 != name by {
            if s[j].0 == name {
                lemma_assoc_exists(d, name, j);
            }
        }
        s.len() - 1
    }
}

proof fn lemma_assoc_exists<T>(s: Seq<(Seq<char>, T)>, name: Seq<char>, j: int)
    requires
        0 <= j < s.len(),
        s[j].0 == name,
    ensures
        assoc(s, name) is Some,
    decreases s.len(),
{
    if j < s.len() - 1 {
        assert(s.drop_last()[j] == s[j]);
        lemma_assoc_exists(s.drop_last(), name, j);
    }
}

/// The names of a list sort one before the other.
pub open spec fn ordered<T>(s: Seq<(Seq<char>, T)>) -> bool {
    forall|i: int, j: int|
        0 <= i < j < s.len() ==> text_before((#[trigger] s[i]).0, (#[trigger] s[j]).0)
}

/// Every member's prefixes are valid.
pub open spec fn members_wf(s: Seq<(Seq<char>, MemberView)>) -> bool {
    forall|i: int| 0 <= i < s.len() ==> (#[trigger] s[i]).1.wf()
}

impl NetworkView {
    /// Names are in order and every prefix is a valid one.
    pub open spec fn wf(self) -> bool {
        &&& all_valid(self.cidrs)
        &&& ordered(self.pools)
        &&& forall|i: int| 0 <= i < self.pools.len() ==> (#[trigger] self.pools[i]).1.valid()
        &&& ordered(self.relays)
        &&& ordered(self.clients)
        &&& members_wf(self.relays)
        &&& members_wf(self.clients)
    }

    /// The member of this name: a client, or else a relay.
    pub open spec fn member(self, name: Seq<char>) -> Option<(MemberView, Role)> {
        match assoc(self.clients, name) {
            Some(m) => Some((m, Role::Client)),
            None => match assoc(self.relays, name) {
                Some(m) => Some((m, Role::Relay)),
                None => None,
            },
        }
    }

    /// Every member with its name and role: clients, then relays.
    pub open spec fn everyone(self) -> Seq<(Seq<char>, MemberView, Role)> {
        self.clients.map_values(|e: (Seq<char>, MemberView)| (e.0, e.1, Role::Client))
            + self.relays.map_values(|e: (Seq<char>, MemberView)| (e.0, e.1, Role::Relay))
    }

    /// The first IPv4 range of the tunnel space.
    pub open spec fn ipv4(self) -> Option<IpNet> {
        first_of_family(self.cidrs, true)
    }

    /// The first IPv6 range of the tunnel space.
    pub open spec fn ipv6(self) -> Option<IpNet> {
        first_of_family(self.cidrs, false)
    }

    /// The pool that a member draws its address of a family from, if it is
    /// tied to one of that family.
    pub open spec fn pool_of(self, name: Seq<char>, v4: bool) -> Option<(Seq<char>, IpNet)> {
        match self.member(name) {
            Some((m, _)) => match m.pool {
                Some(pool) => match assoc(self.pools, pool) {
                    Some(cidr) if cidr.addr.v4() == v4 => Some((pool, cidr)),
                    _ => None,
                },
                None => None,
            },
            None => None,
        }
    }

    /// The range that a member draws its address of a family from: its pool,
    /// or else the first range of the tunnel space.
    pub open spec fn range(self, name: Seq<char>, v4: bool) -> Option<IpNet> {
        match self.pool_of(name, v4) {
            Some((_, cidr)) => Some(cidr),
            None => first_of_family(self.cidrs, v4),
        }
    }
}

/// The first prefix of the family.
pub open spec fn first_of_family(s: Seq<IpNet>, v4: bool) -> Option<IpNet>
    decreases s.len(),
{
    if s.len() == 0 {
        None
    } else if s[0].addr.v4() == v4 {
        Some(s[0])
    } else {
        first_of_family(s.drop_first(), v4)
    }
}

/// Looking a name up in the map finds the same entry as in the list.
pub proof fn lemma_member_lookup(m: NameMap<MemberCfg>, name: Seq<char>)
    requires
        m.wf(),
    ensures
        assoc(member_views(m.entries@), name) == match m.at(name) {
            Some(v) => Some(v@),
            None => None,
        },
{
    let s = m.entries@;
    let v = member_views(s);
    assert(v.len() == s.len());
    if m@.dom().contains(name) {
        let i = crate::namemap::lemma_name_key(s, name);
        assert forall|j: int| 0 <= j < i implies (#[trigger] v[j]).0 != name by {
            if s[j].0@ == name {
                lemma_distinct(s, i, j);
            }
        }
        lemma_assoc_at(v, name, i);
    } else {
        assert forall|j: int| 0 <= j < v.len() implies (#[trigger] v[j]).0 != name by {
            if s[j].0@ == name {
                lemma_named_entry(s, j);
            }
        }
        lemma_assoc_none(v, name);
    }
}

/// Looking a pool up in the map finds the same entry as in the list.
proof fn lemma_pool_lookup(m: NameMap<PoolCfg>, name: Seq<char>)
    requires
        m.wf(),
    ensures
        assoc(pool_views(m.entries@), name) == match m.at(name) {
            Some(v) => Some(v.cidr),
            None => None,
        },
{
    let s = m.entries@;
    let v = pool_views(s);
    assert(v.len() == s.len());
    if m@.dom().contains(name) {
        let i = crate::namemap::lemma_name_key(s, name);
        assert forall|j: int| 0 <= j < i implies (#[trigger] v[j]).0 != name by {
            if s[j].0@ == name {
                lemma_distinct(s, i, j);
            }
        }
        lemma_assoc_at(v, name, i);
    } else {
        assert forall|j: int| 0 <= j < v.len() implies (#[trigger] v[j]).0 != name by {
            if s[j].0@ == name {
                lemma_named_entry(s, j);
            }
        }
        lemma_assoc_none(v, name);
    }
}

/// The range that a member draws from is valid and of the family. There is
/// one wherever the tunnel space has one.
pub proof fn lemma_range_of(n: NetworkView, name: Seq<char>, v4: bool)
    requires
        n.wf(),
    ensures
        n.range(name, v4) matches Some(net) ==> net.valid() && net.addr.v4() == v4,
        first_of_family(n.cidrs, v4) is Some ==> n.range(name, v4) is Some,
{
    lemma_first_of_family(n.cidrs, v4);
    if let Some((pool, cidr)) = n.pool_of(name, v4) {
        let i = lemma_assoc_some(n.pools, pool);
    } else if let Some(net) = first_of_family(n.cidrs, v4) {
        let k = choose|k: int| 0 <= k < n.cidrs.len() && n.cidrs[k] == net;
    }
}

/// A list in order has each name once, so its entries are what looking
/// their names up gives.
pub proof fn lemma_ordered_assoc<T>(s: Seq<(Seq<char>, T)>, i: int)
    requires
        ordered(s),
        0 <= i < s.len(),
    ensures
        assoc(s, s[i].0) == Some(s[i].1),
{
    assert forall|j: int| 0 <= j < i implies (#[trigger] s[j]).0 != s[i].0 by {
        assert(text_before(s[j].0, s[i].0));
        crate::text::lemma_text_irreflexive(s[i].0);
    }
    lemma_assoc_at(s, s[i].0, i);
}

/// A name stands for the client that is configured under it, or else for the
/// relay; a name that neither list holds stands for nobody.
pub proof fn law_a_member_is_found_by_its_name(n: NetworkView, name: Seq<char>)
    requires
        n.wf(),
    ensures
        forall|i: int|
            0 <= i < n.clients.len() && (#[trigger] n.clients[i]).0 == name ==> n.member(name)
                == Some((n.clients[i].1, Role::Client)),
        (forall|i: int| 0 <= i < n.clients.len() ==> (#[trigger] n.clients[i]).0 != name) ==> (
        forall|i: int|
            0 <= i < n.relays.len() && (#[trigger] n.relays[i]).0 == name ==> n.member(name)
                == Some((n.relays[i].1, Role::Relay))),
        match n.member(name) {
            Some((m, Role::Client)) => exists|i: int|
                0 <= i < n.clients.len() && #[trigger] n.clients[i] == (name, m),
            Some((m, Role::Relay)) => (exists|i: int|
                0 <= i < n.relays.len() && #[trigger] n.relays[i] == (name, m)) && forall|i: int|
                0 <= i < n.clients.len() ==> (#[trigger] n.clients[i]).0 != name,
            None => (forall|i: int| 0 <= i < n.clients.len() ==> (#[trigger] n.clients[i]).0 != name)
                && forall|i: int| 0 <= i < n.relays.len() ==> (#[trigger] n.relays[i]).0 != name,
        },
{
    assert forall|i: int| 0 <= i < n.clients.len() && (#[trigger] n.clients[i]).0
        == name implies n.member(name) == Some((n.clients[i].1, Role::Client)) by {
        lemma_ordered_assoc(n.clients, i);
    }
    if forall|i: int| 0 <= i < n.clients.len() ==> (#[trigger] n.clients[i]).0 != name {
        lemma_assoc_none(n.clients, name);
    }
    assert forall|i: int| 0 <= i < n.relays.len() && (#[trigger] n.relays[i]).0 == name implies assoc(
        n.relays,
        name,
    ) == Some(n.relays[i].1) by {
        lemma_ordered_assoc(n.relays, i);
    }
    if let Some(m) = assoc(n.clients, name) {
        let i = lemma_assoc_some(n.clients, name);
        assert(n.clients[i] == (name, m));
    } else {
        assert forall|i: int| 0 <= i < n.clients.len() implies (#[trigger] n.clients[i]).0
            != name by {
            if n.clients[i].0 == name {
                lemma_ordered_assoc(n.clients, i);
            }
        }
        if let Some(m) = assoc(n.relays, name) {
            let i = lemma_assoc_some(n.relays, name);
            assert(n.relays[i] == (name, m));
        }
    }
}

/// Two members say the same of what is told at a join exactly when they agree
/// on each of these: where a relay is dialed, its LANs, whether it is a way
/// out, the preferred addresses, the pool, whether an address is wanted, the
/// cap, and the preferred relay.
pub proof fn law_the_facts_of_a_member(a: MemberView, b: MemberView)
    ensures
        a.same_facts(b) <==> {
            &&& a.relay_addr == b.relay_addr
            &&& a.local_cidrs == b.local_cidrs
            &&& a.internet_gateway == b.internet_gateway
            &&& a.preferred_ip4 == b.preferred_ip4
            &&& a.preferred_ip6 == b.preferred_ip6
            &&& a.pool == b.pool
            &&& a.want_vpn_ip == b.want_vpn_ip
            &&& a.max_session_mbps == b.max_session_mbps
            &&& a.preferred_relay == b.preferred_relay
        },
{
}

/// Everyone who is configured is a client or a relay, and each of them is
/// counted.
pub proof fn law_everyone_is_a_client_or_a_relay(n: NetworkView)
    ensures
        n.everyone().len() == n.clients.len() + n.relays.len(),
        forall|i: int|
            0 <= i < n.clients.len() ==> n.everyone().contains(
                ((#[trigger] n.clients[i]).0, n.clients[i].1, Role::Client),
            ),
        forall|i: int|
            0 <= i < n.relays.len() ==> n.everyone().contains(
                ((#[trigger] n.relays[i]).0, n.relays[i].1, Role::Relay),
            ),
        forall|k: int|
            0 <= k < n.everyone().len() ==> {
                let e = #[trigger] n.everyone()[k];
                match e.2 {
                    Role::Client => n.clients.contains((e.0, e.1)),
                    Role::Relay => n.relays.contains((e.0, e.1)),
                }
            },
{
    let all = n.everyone();
    assert forall|i: int| 0 <= i < n.clients.len() implies all.contains(
        ((#[trigger] n.clients[i]).0, n.clients[i].1, Role::Client),
    ) by {
        assert(all[i] == (n.clients[i].0, n.clients[i].1, Role::Client));
    }
    assert forall|i: int| 0 <= i < n.relays.len() implies all.contains(
        ((#[trigger] n.relays[i]).0, n.relays[i].1, Role::Relay),
    ) by {
        assert(all[n.clients.len() + i] == (n.relays[i].0, n.relays[i].1, Role::Relay));
    }
    assert forall|k: int| 0 <= k < all.len() implies ({
        let e = #[trigger] all[k];
        match e.2 {
            Role::Client => n.clients.contains((e.0, e.1)),
            Role::Relay => n.relays.contains((e.0, e.1)),
        }
    }) by {
        if k < n.clients.len() {
            assert(n.clients[k] == (all[k].0, all[k].1));
        } else {
            assert(n.relays[k - n.clients.len()] == (all[k].0, all[k].1));
        }
    }
}

/// The range of a family is the first of that family in the tunnel space.
pub proof fn law_the_first_range_of_a_family_counts(s: Seq<IpNet>, v4: bool)
    ensures
        match first_of_family(s, v4) {
            Some(n) => exists|i: int|
                0 <= i < s.len() && #[trigger] s[i] == n && (n.addr is V4) == v4 && forall|j: int|
                    0 <= j < i ==> ((#[trigger] s[j]).addr is V4) != v4,
            None => forall|j: int| 0 <= j < s.len() ==> ((#[trigger] s[j]).addr is V4) != v4,
        },
    decreases s.len(),
{
    if s.len() > 0 {
        if s[0].addr.v4() == v4 {
            assert(s[0] == first_of_family(s, v4)->0);
        } else {
            let d = s.drop_first();
            law_the_first_range_of_a_family_counts(d, v4);
            assert forall|j: int| 0 < j < s.len() implies #[trigger] s[j] == d[j - 1] by {}
            if let Some(n) = first_of_family(d, v4) {
                let i = choose|i: int|
                    0 <= i < d.len() && #[trigger] d[i] == n && (n.addr is V4) == v4 && forall|
                        j: int,
                    |
                        0 <= j < i ==> ((#[trigger] d[j]).addr is V4) != v4;
                assert(s[i + 1] == n);
                assert forall|j: int| 0 <= j < i + 1 implies ((#[trigger] s[j]).addr is V4) != v4 by {
                    if j > 0 {
                        assert(s[j] == d[j - 1]);
                    }
                }
            }
        }
    }
}

/// A member that is tied to a pool draws its address of the pool's family
/// from that pool, and everyone else from the tunnel space.
pub proof fn law_a_pool_is_drawn_from_by_its_members(
    n: NetworkView,
    name: Seq<char>,
    m: MemberView,
    role: Role,
    v4: bool,
)
    requires
        n.wf(),
        n.member(name) == Some((m, role)),
    ensures
        forall|p: int|
            0 <= p < n.pools.len() && m.pool == Some((#[trigger] n.pools[p]).0) && (
            n.pools[p].1.addr is V4) == v4 ==> n.range(name, v4) == Some(n.pools[p].1)
                && n.pool_of(name, v4) == Some(n.pools[p]),
        (m.pool is None || forall|p: int|
            0 <= p < n.pools.len() && m.pool == Some((#[trigger] n.pools[p]).0) ==> (
            n.pools[p].1.addr is V4) != v4) ==> n.range(name, v4) == first_of_family(n.cidrs, v4)
            && n.pool_of(name, v4) is None,
{
    assert forall|p: int|
        0 <= p < n.pools.len() && m.pool == Some((#[trigger] n.pools[p]).0) && (
        n.pools[p].1.addr is V4) == v4 implies n.range(name, v4) == Some(n.pools[p].1)
        && n.pool_of(name, v4) == Some(n.pools[p]) by {
        lemma_ordered_assoc(n.pools, p);
    }
    if let Some(pool) = m.pool {
        if assoc(n.pools, pool) is Some {
            let i = lemma_assoc_some(n.pools, pool);
            assert(n.pools[i].0 == pool);
        }
    }
}

impl NetworkConfig {
    /// The maps are in order and every prefix is a valid one.
    pub open spec fn wf(self) -> bool {
        &&& self.pools.wf()
        &&& self.relays.wf()
        &&& self.clients.wf()
        &&& self@.wf()
    }

    /// The member of this name, with its role.
    pub fn member_by_name(&self, name: &str) -> (r: Option<(&MemberCfg, Role)>)
        requires
            self.wf(),
        ensures
            match r {
                Some((m, role)) => self@.member(name@) == Some((m@, role)) && m@.wf(),
                None => self@.member(name@) is None,
            },
    {
        proof {
            lemma_member_lookup(self.clients, name@);
            lemma_member_lookup(self.relays, name@);
        }
        if let Some(m) = self.clients.get(name) {
            proof {
                let i = lemma_assoc_some(self@.clients, name@);
            }
            return Some((m, Role::Client));
        }
        if let Some(m) = self.relays.get(name) {
            proof {
                let i = lemma_assoc_some(self@.relays, name@);
            }
            return Some((m, Role::Relay));
        }
        None
    }

    /// The pool that a member draws its address of a family from.
    pub fn member_pool(&self, name: &str, v4: bool) -> (r: Option<(&str, IpNet)>)
        requires
            self.wf(),
        ensures
            match r {
                Some((pool, cidr)) => self@.pool_of(name@, v4) == Some((pool@, cidr)),
                None => self@.pool_of(name@, v4) is None,
            },
    {
        match self.member_by_name(name) {
            Some((m, _)) => match &m.pool {
                Some(pool) => {
                    proof {
                        lemma_pool_lookup(self.pools, pool@);
                    }
                    match self.pools.get(pool.as_str()) {
                        Some(p) => if p.cidr.addr.is_ipv4() == v4 {
                            Some((pool.as_str(), p.cidr))
                        } else {
                            None
                        },
                        None => None,
                    }
                },
                None => None,
            },
            None => None,
        }
    }

    /// The range that a member draws its address of a family from.
    pub fn member_range(&self, name: &str, v4: bool) -> (r: Option<IpNet>)
        requires
            self.wf(),
        ensures
            r == self@.range(name@, v4),
    {
        match self.member_pool(name, v4) {
            Some((_, cidr)) => Some(cidr),
            None => find_family(&self.cidrs, v4),
        }
    }

    /// The first IPv4 range of the tunnel space.
    pub fn ipv4_cidr(&self) -> (r: Option<IpNet>)
        ensures
            r == self@.ipv4(),
    {
        find_family(&self.cidrs, true)
    }

    /// The first IPv6 range of the tunnel space.
    pub fn ipv6_cidr(&self) -> (r: Option<IpNet>)
        ensures
            r == self@.ipv6(),
    {
        find_family(&self.cidrs, false)
    }
}

/// What [`first_of_family`] finds is one of the prefixes, and of the family.
pub proof fn lemma_first_of_family(s: Seq<IpNet>, v4: bool)
    ensures
        match first_of_family(s, v4) {
            Some(n) => s.contains(n) && n.addr.v4() == v4,
            None => forall|i: int| 0 <= i < s.len() ==> (#[trigger] s[i]).addr.v4() != v4,
        },
    decreases s.len(),
{
    if s.len() > 0 {
        if s[0].addr.v4() == v4 {
            assert(s.contains(s[0]));
        } else {
            let d = s.drop_first();
            lemma_first_of_family(d, v4);
            assert forall|i: int| 0 < i < s.len() implies #[trigger] s[i] == d[i - 1] by {}
            if let Some(n) = first_of_family(d, v4) {
                let k = choose|k: int| 0 <= k < d.len() && d[k] == n;
                assert(s[k + 1] == n);
            }
        }
    }
}

fn find_family(v: &Vec<IpNet>, v4: bool) -> (r: Option<IpNet>)
    ensures
        r == first_of_family(v@, v4),
{
    let mut i: usize = 0;
    assert(v@.skip(0) =~= v@);
    while i < v.len()
        invariant
            i <= v.len(),
            first_of_family(v@, v4) == first_of_family(v@.skip(i as int), v4),
        decreases v.len() - i,
    {
        if v[i].addr.is_ipv4() == v4 {
            return Some(v[i]);
        }
        assert(v@.skip(i as int).drop_first() =~= v@.skip(i + 1));
        i = i + 1;
    }
    None
}

/// The configured admin token, and what was read from its file: the token in
/// the configuration wins, and white space around either does not count.
pub open spec fn bearer_token(
    direct: Option<Seq<char>>,
    file: Option<Seq<char>>,
) -> Option<Seq<char>> {
    match (direct, file) {
        (Some(t), _) => Some(trimmed(t)),
        (None, Some(t)) => Some(trimmed(t)),
        (None, None) => None,
    }
}

/// The admin token: from the configuration, or else from the content of the
/// token file, which is read only when the configuration has none.
pub fn read_bearer_token(cfg: &AdminCfg, file_content: &Option<String>) -> (r: Option<String>)
    ensures
        opt_text(r) == bearer_token(opt_text(cfg.bearer_token), opt_text(*file_content)),
{
    match &cfg.bearer_token {
        Some(t) => Some(trim(t.as_str())),
        None => match file_content {
            Some(t) => Some(trim(t.as_str())),
            None => None,
        },
    }
}

/// What a network has that says nothing of its settings.
pub proof fn law_settings_have_their_defaults()
    ensures
        ({
            let s = default_settings();
            &&& s.credential_ttl_mins == 15
            &&& s.heartbeat_secs == 5
            &&& s.offline_after == 3
            &&& s.hold_down_secs == 60
            &&& s.mtu == 1350
            &&& s.relay_reachability == "warn"@
            &&& s.transport == "stream"@
            &&& s.lanes == 1
            &&& s.max_session_mbps == 0
            &&& !s.allow_loopback_relays
        }),
{
}

} // verus!
