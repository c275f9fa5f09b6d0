//! What a network's configuration must meet.
//!
//! The checks run in a fixed order, and the first one that fails gives the
//! message. A configuration that passes them all is accepted.

use vstd::prelude::*;

use crate::config::{assoc, MemberCfg, MemberView, NetworkConfig, NetworkView, PoolCfg};
use crate::net::{all_valid, overlaps, IpAddr, IpNet};
use crate::proto::Role;
use crate::text::{
    debug_text, decimal, decimal_text, number_read, opt_text, parse_number, quoted, rsplit_once,
    said, say, split_last, str_eq, strip_leading, strip_trailing, texts, trim, trimmed,
    without_leading, without_trailing,
};

verus! {

/// The host part of an address that means "where the relay joins from".
pub open spec fn auto_host() -> Seq<char> {
    "auto"@
}

/// The addresses that host names stand for, as they were resolved.
pub open spec fn resolved_view(s: Seq<(String, Vec<IpAddr>)>) -> Seq<(Seq<char>, Seq<IpAddr>)> {
    s.map_values(|e: (String, Vec<IpAddr>)| (e.0@, e.1@))
}

impl IpAddr {
    /// An address of the machine itself.
    pub open spec fn loopback(self) -> bool {
        match self {
            IpAddr::V4(a) => 0x7f00_0000 <= a <= 0x7fff_ffff,
            IpAddr::V6(a) => a == 1,
        }
    }

    pub open spec fn unspecified(self) -> bool {
        self.bits() == 0
    }

    pub open spec fn multicast(self) -> bool {
        match self {
            IpAddr::V4(a) => 0xe000_0000 <= a <= 0xefff_ffff,
            IpAddr::V6(a) => 0xff00_0000_0000_0000_0000_0000_0000_0000 <= a,
        }
    }

    pub open spec fn link_local(self) -> bool {
        match self {
            IpAddr::V4(a) => 0xa9fe_0000 <= a <= 0xa9fe_ffff,
            IpAddr::V6(a) => 0xfe80_0000_0000_0000_0000_0000_0000_0000 <= a
                <= 0xfebf_ffff_ffff_ffff_ffff_ffff_ffff_ffff,
        }
    }

    pub open spec fn broadcast(self) -> bool {
        self == IpAddr::V4(0xffff_ffff)
    }

    /// An address that nobody can be reached at across a network.
    pub open spec fn unroutable(self) -> bool {
        ||| self.loopback()
        ||| self.unspecified()
        ||| self.multicast()
        ||| self.link_local()
        ||| self.broadcast()
        ||| self.v4() && self.bits() < 0x100_0000
    }

    pub fn is_loopback(&self) -> (r: bool)
        ensures
            r == self.loopback(),
    {
        match self {
            IpAddr::V4(a) => 0x7f00_0000 <= *a && *a <= 0x7fff_ffff,
            IpAddr::V6(a) => *a == 1,
        }
    }

    pub fn is_unspecified(&self) -> (r: bool)
        ensures
            r == self.unspecified(),
    {
        self.value() == 0
    }

    pub fn is_multicast(&self) -> (r: bool)
        ensures
            r == self.multicast(),
    {
        match self {
            IpAddr::V4(a) => 0xe000_0000 <= *a && *a <= 0xefff_ffff,
            IpAddr::V6(a) => 0xff00_0000_0000_0000_0000_0000_0000_0000 <= *a,
        }
    }

    pub fn is_link_local(&self) -> (r: bool)
        ensures
            r == self.link_local(),
    {
        match self {
            IpAddr::V4(a) => 0xa9fe_0000 <= *a && *a <= 0xa9fe_ffff,
            IpAddr::V6(a) => 0xfe80_0000_0000_0000_0000_0000_0000_0000 <= *a && *a
                <= 0xfebf_ffff_ffff_ffff_ffff_ffff_ffff_ffff,
        }
    }

    pub fn is_broadcast(&self) -> (r: bool)
        ensures
            r == self.broadcast(),
    {
        match self {
            IpAddr::V4(a) => *a == 0xffff_ffff,
            IpAddr::V6(_) => false,
        }
    }
}

/// Can nobody be reached at this address across a network?
pub fn unroutable(ip: &IpAddr) -> (r: bool)
    ensures
        r == ip.unroutable(),
{
    ip.is_loopback() || ip.is_unspecified() || ip.is_multicast() || ip.is_link_local()
        || ip.is_broadcast() || (ip.is_ipv4() && ip.value() < 0x100_0000)
}

/// One of the prefixes holds the address.
pub open spec fn any_has(cidrs: Seq<IpNet>, ip: IpAddr) -> bool {
    exists|i: int| 0 <= i < cidrs.len() && (#[trigger] cidrs[i]).has(ip)
}

/// Does one of the prefixes hold the address?
pub fn any_contains(cidrs: &Vec<IpNet>, ip: &IpAddr) -> (r: bool)
    requires
        all_valid(cidrs@),
    ensures
        r == any_has(cidrs@, *ip),
{
    let mut i: usize = 0;
    while i < cidrs.len()
        invariant
            i <= cidrs.len(),
            all_valid(cidrs@),
            forall|k: int| 0 <= k < i ==> !(#[trigger] cidrs@[k]).has(*ip),
        decreases cidrs.len() - i,
    {
        if cidrs[i].contains_addr(ip) {
            return true;
        }
        i = i + 1;
    }
    false
}

/// What is wrong with the settings.
pub open spec fn settings_problem(n: NetworkView, max_lanes: u8) -> Option<Seq<char>> {
    let s = n.settings;
    if s.relay_reachability != "off"@ && s.relay_reachability != "warn"@ && s.relay_reachability
        != "deny"@ {
        Some(
            said(
                seq![
                    "network "@,
                    n.network_id,
                    ": relay_reachability must be \"off\", \"warn\", or \"deny\" (got "@,
                    debug_text(s.relay_reachability),
                    ")"@,
                ],
            ),
        )
    } else if s.transport != "datagram"@ && s.transport != "stream"@ {
        Some(
            said(
                seq![
                    "network "@,
                    n.network_id,
                    ": transport must be \"datagram\" or \"stream\""@,
                ],
            ),
        )
    } else if s.lanes == 0 || s.lanes > max_lanes {
        Some(
            said(
                seq![
                    "network "@,
                    n.network_id,
                    ": lanes must be between 1 and "@,
                    decimal(max_lanes as nat),
                    " (got "@,
                    decimal(s.lanes as nat),
                    ")"@,
                ],
            ),
        )
    } else if s.credential_ttl_mins == 0 || s.heartbeat_secs == 0 || s.offline_after == 0 {
        Some(
            said(
                seq![
                    "network "@,
                    n.network_id,
                    ": credential_ttl_mins, heartbeat_secs and offline_after must be > 0"@,
                ],
            ),
        )
    } else if s.mtu < 1280 || s.mtu > 9000 {
        Some(
            said(
                seq![
                    "network "@,
                    n.network_id,
                    ": mtu "@,
                    decimal(s.mtu as nat),
                    " is outside 1280..=9000"@,
                ],
            ),
        )
    } else {
        None
    }
}

fn check_settings(cfg: &NetworkConfig, max_lanes: u8) -> (r: Option<String>)
    ensures
        opt_text(r) == settings_problem(cfg@, max_lanes),
{
    let s = &cfg.settings;
    let id = cfg.network_id.as_str();
    let reach = s.relay_reachability.as_str();
    let transport = s.transport.as_str();
    if !str_eq(reach, "off") && !str_eq(reach, "warn") && !str_eq(reach, "deny") {
        let got = quoted(reach);
        let parts = vec![
            "network ",
            id,
            ": relay_reachability must be \"off\", \"warn\", or \"deny\" (got ",
            got.as_str(),
            ")",
        ];
        assert(texts(parts@) =~= seq![
            "network "@,
            id@,
            ": relay_reachability must be \"off\", \"warn\", or \"deny\" (got "@,
            debug_text(reach@),
            ")"@,
        ]);
        return Some(say(&parts));
    }
    if !str_eq(transport, "datagram") && !str_eq(transport, "stream") {
        let parts = vec!["network ", id, ": transport must be \"datagram\" or \"stream\""];
        assert(texts(parts@) =~= seq![
            "network "@,
            id@,
            ": transport must be \"datagram\" or \"stream\""@,
        ]);
        return Some(say(&parts));
    }
    if s.lanes == 0 || s.lanes > max_lanes {
        let most = decimal_text(max_lanes as u64);
        let got = decimal_text(s.lanes as u64);
        let parts = vec![
            "network ",
            id,
            ": lanes must be between 1 and ",
            most.as_str(),
            " (got ",
            got.as_str(),
            ")",
        ];
        assert(texts(parts@) =~= seq![
            "network "@,
            id@,
            ": lanes must be between 1 and "@,
            decimal(max_lanes as nat),
            " (got "@,
            decimal(s.lanes as nat),
            ")"@,
        ]);
        return Some(say(&parts));
    }
    if s.credential_ttl_mins == 0 || s.heartbeat_secs == 0 || s.offline_after == 0 {
        let parts = vec![
            "network ",
            id,
            ": credential_ttl_mins, heartbeat_secs and offline_after must be > 0",
        ];
        assert(texts(parts@) =~= seq![
            "network "@,
            id@,
            ": credential_ttl_mins, heartbeat_secs and offline_after must be > 0"@,
        ]);
        return Some(say(&parts));
    }
    if s.mtu < 1280 || s.mtu > 9000 {
        let got = decimal_text(s.mtu as u64);
        let parts = vec!["network ", id, ": mtu ", got.as_str(), " is outside 1280..=9000"];
        assert(texts(parts@) =~= seq![
            "network "@,
            id@,
            ": mtu "@,
            decimal(s.mtu as nat),
            " is outside 1280..=9000"@,
        ]);
        return Some(say(&parts));
    }
    None
}

/// The first prefix that has an address in common with `a`.
pub open spec fn overlap_with(a: IpNet, rest: Seq<IpNet>) -> Option<IpNet>
    decreases rest.len(),
{
    if rest.len() == 0 {
        None
    } else if a.meets(rest[0]) {
        Some(rest[0])
    } else {
        overlap_with(a, rest.drop_first())
    }
}

/// The first two prefixes that have an address in common.
pub open spec fn overlap_pair(s: Seq<IpNet>) -> Option<(IpNet, IpNet)>
    decreases s.len(),
{
    if s.len() == 0 {
        None
    } else {
        match overlap_with(s[0], s.drop_first()) {
            Some(b) => Some((s[0], b)),
            None => overlap_pair(s.drop_first()),
        }
    }
}

fn find_overlap_with(a: &IpNet, v: &Vec<IpNet>, from: usize) -> (r: Option<IpNet>)
    requires
        a.valid(),
        all_valid(v@),
        from <= v@.len(),
    ensures
        r == overlap_with(*a, v@.skip(from as int)),
        r matches Some(n) ==> n.valid(),
{
    let mut i: usize = from;
    while i < v.len()
        invariant
            from <= i <= v.len(),
            a.valid(),
            all_valid(v@),
            overlap_with(*a, v@.skip(i as int)) == overlap_with(*a, v@.skip(from as int)),
        decreases v.len() - i,
    {
        if overlaps(a, &v[i]) {
            return Some(v[i]);
        }
        assert(v@.skip(i as int).drop_first() =~= v@.skip(i + 1));
        i = i + 1;
    }
    None
}

fn find_overlap_pair(v: &Vec<IpNet>) -> (r: Option<(IpNet, IpNet)>)
    requires
        all_valid(v@),
    ensures
        r == overlap_pair(v@),
        r matches Some((a, b)) ==> a.valid() && b.valid(),
{
    let mut i: usize = 0;
    assert(v@.skip(0) =~= v@);
    while i < v.len()
        invariant
            i <= v.len(),
            all_valid(v@),
            overlap_pair(v@.skip(i as int)) == overlap_pair(v@),
        decreases v.len() - i,
    {
        let a = v[i];
        assert(v@.skip(i as int).drop_first() =~= v@.skip(i + 1));
        if let Some(b) = find_overlap_with(&a, v, i + 1) {
            return Some((a, b));
        }
        i = i + 1;
    }
    None
}

/// What is wrong with the tunnel space.
pub open spec fn cidrs_problem(n: NetworkView) -> Option<Seq<char>> {
    if n.cidrs.len() == 0 {
        Some(said(seq!["network "@, n.network_id, ": cidrs must not be empty"@]))
    } else if n.ipv4() is None {
        Some(
            said(
                seq![
                    "network "@,
                    n.network_id,
                    ": at least one IPv4 tunnel cidr is required"@,
                ],
            ),
        )
    } else {
        match overlap_pair(n.cidrs) {
            Some((a, b)) => Some(
                said(seq!["network cidrs overlap: "@, a.text(), " vs "@, b.text()]),
            ),
            None => None,
        }
    }
}

fn check_cidrs(cfg: &NetworkConfig) -> (r: Option<String>)
    requires
        cfg.wf(),
    ensures
        opt_text(r) == cidrs_problem(cfg@),
{
    let id = cfg.network_id.as_str();
    if cfg.cidrs.len() == 0 {
        let parts = vec!["network ", id, ": cidrs must not be empty"];
        assert(texts(parts@) =~= seq!["network "@, id@, ": cidrs must not be empty"@]);
        return Some(say(&parts));
    }
    if cfg.ipv4_cidr().is_none() {
        let parts = vec!["network ", id, ": at least one IPv4 tunnel cidr is required"];
        assert(texts(parts@) =~= seq![
            "network "@,
            id@,
            ": at least one IPv4 tunnel cidr is required"@,
        ]);
        return Some(say(&parts));
    }
    match find_overlap_pair(&cfg.cidrs) {
        Some((a, b)) => {
            let (x, y) = (a.to_text(), b.to_text());
            let parts = vec!["network cidrs overlap: ", x.as_str(), " vs ", y.as_str()];
            assert(texts(parts@) =~= seq![
                "network cidrs overlap: "@,
                a.text(),
                " vs "@,
                b.text(),
            ]);
            Some(say(&parts))
        },
        None => None,
    }
}

/// The range lies inside one of the ranges of the tunnel space, whole.
pub open spec fn inside_one(cidrs: Seq<IpNet>, p: IpNet) -> bool {
    exists|i: int| 0 <= i < cidrs.len() && (#[trigger] cidrs[i]).covers(p)
}

/// The first pool that does not lie inside the tunnel space.
pub open spec fn pool_outside(cidrs: Seq<IpNet>, pools: Seq<(Seq<char>, IpNet)>) -> Option<(
    Seq<char>,
    IpNet,
)>
    decreases pools.len(),
{
    if pools.len() == 0 {
        None
    } else if !inside_one(cidrs, pools[0].1) {
        Some(pools[0])
    } else {
        pool_outside(cidrs, pools.drop_first())
    }
}

/// The first pool that has an address in common with `a`.
pub open spec fn pool_overlap_with(a: IpNet, rest: Seq<(Seq<char>, IpNet)>) -> Option<(
    Seq<char>,
    IpNet,
)>
    decreases rest.len(),
{
    if rest.len() == 0 {
        None
    } else if a.meets(rest[0].1) {
        Some(rest[0])
    } else {
        pool_overlap_with(a, rest.drop_first())
    }
}

/// The first two pools that have an address in common.
pub open spec fn pool_overlap_pair(s: Seq<(Seq<char>, IpNet)>) -> Option<(
    (Seq<char>, IpNet),
    (Seq<char>, IpNet),
)>
    decreases s.len(),
{
    if s.len() == 0 {
        None
    } else {
        match pool_overlap_with(s[0].1, s.drop_first()) {
            Some(b) => Some((s[0], b)),
            None => pool_overlap_pair(s.drop_first()),
        }
    }
}

/// What is wrong with the pools.
pub open spec fn pools_problem(n: NetworkView) -> Option<Seq<char>> {
    match pool_outside(n.cidrs, n.pools) {
        Some((name, p)) => Some(
            said(seq!["pool "@, name, ": "@, p.text(), " is not inside any network cidr"@]),
        ),
        None => match pool_overlap_pair(n.pools) {
            Some((a, b)) => Some(
                said(
                    seq![
                        "pools "@,
                        a.0,
                        " and "@,
                        b.0,
                        " overlap ("@,
                        a.1.text(),
                        " vs "@,
                        b.1.text(),
                        ")"@,
                    ],
                ),
            ),
            None => None,
        },
    }
}

fn is_inside_one(cidrs: &Vec<IpNet>, p: &IpNet) -> (r: bool)
    requires
        all_valid(cidrs@),
        p.valid(),
    ensures
        r == inside_one(cidrs@, *p),
{
    let mut i: usize = 0;
    while i < cidrs.len()
        invariant
            i <= cidrs.len(),
            all_valid(cidrs@),
            p.valid(),
            forall|k: int| 0 <= k < i ==> !(#[trigger] cidrs@[k]).covers(*p),
        decreases cidrs.len() - i,
    {
        if cidrs[i].contains(p) {
            return true;
        }
        i = i + 1;
    }
    false
}

fn check_pools(cfg: &NetworkConfig) -> (r: Option<String>)
    requires
        cfg.wf(),
    ensures
        opt_text(r) == pools_problem(cfg@),
{
    let pools = &cfg.pools.entries;
    let ghost v = cfg@.pools;
    assert(v.len() == pools@.len());
    let mut i: usize = 0;
    assert(v.skip(0) =~= v);
    while i < pools.len()
        invariant
            i <= pools@.len(),
            cfg.wf(),
            pools == &cfg.pools.entries,
            v == cfg@.pools,
            v.len() == pools@.len(),
            pool_outside(cfg@.cidrs, v) == pool_outside(cfg@.cidrs, v.skip(i as int)),
        decreases pools.len() - i,
    {
        let p = &pools[i].1.cidr;
        assert(v[i as int] == (pools@[i as int].0@, *p));
        if !is_inside_one(&cfg.cidrs, p) {
            let t = p.to_text();
            let name = pools[i].0.as_str();
            let parts = vec!["pool ", name, ": ", t.as_str(), " is not inside any network cidr"];
            assert(texts(parts@) =~= seq![
                "pool "@,
                name@,
                ": "@,
                p.text(),
                " is not inside any network cidr"@,
            ]);
            return Some(say(&parts));
        }
        assert(v.skip(i as int).drop_first() =~= v.skip(i + 1));
        i = i + 1;
    }
    let mut a: usize = 0;
    while a < pools.len()
        invariant
            a <= pools@.len(),
            cfg.wf(),
            pools == &cfg.pools.entries,
            v == cfg@.pools,
            v.len() == pools@.len(),
            pool_outside(cfg@.cidrs, v) is None,
            pool_overlap_pair(v) == pool_overlap_pair(v.skip(a as int)),
        decreases pools.len() - a,
    {
        let p = &pools[a].1.cidr;
        assert(v[a as int] == (pools@[a as int].0@, *p));
        assert(v.skip(a as int).drop_first() =~= v.skip(a + 1));
        let mut b: usize = a + 1;
        while b < pools.len()
            invariant
                a < b <= pools@.len(),
                cfg.wf(),
                pools == &cfg.pools.entries,
                v == cfg@.pools,
                v.len() == pools@.len(),
                p.valid(),
                v[a as int] == (pools@[a as int].0@, *p),
                pool_outside(cfg@.cidrs, v) is None,
                pool_overlap_pair(v) == pool_overlap_pair(v.skip(a as int)),
                v.skip(a as int).drop_first() == v.skip(a + 1),
                pool_overlap_with(*p, v.skip(a + 1)) == pool_overlap_with(*p, v.skip(b as int)),
            decreases pools.len() - b,
        {
            let q = &pools[b].1.cidr;
            assert(v[b as int] == (pools@[b as int].0@, *q));
            if overlaps(p, q) {
                let (x, y) = (p.to_text(), q.to_text());
                let (an, bn) = (pools[a].0.as_str(), pools[b].0.as_str());
                let parts = vec![
                    "pools ",
                    an,
                    " and ",
                    bn,
                    " overlap (",
                    x.as_str(),
                    " vs ",
                    y.as_str(),
                    ")",
                ];
                assert(texts(parts@) =~= seq![
                    "pools "@,
                    an@,
                    " and "@,
                    bn@,
                    " overlap ("@,
                    p.text(),
                    " vs "@,
                    q.text(),
                    ")"@,
                ]);
                return Some(say(&parts));
            }
            assert(v.skip(b as int).drop_first() =~= v.skip(b + 1));
            b = b + 1;
        }
        a = a + 1;
    }
    None
}

/// The first client that is also a relay.
pub open spec fn both_roles(
    clients: Seq<(Seq<char>, MemberView)>,
    relays: Seq<(Seq<char>, MemberView)>,
) -> Option<Seq<char>>
    decreases clients.len(),
{
    if clients.len() == 0 {
        None
    } else if assoc(relays, clients[0].0) is Some {
        Some(clients[0].0)
    } else {
        both_roles(clients.drop_first(), relays)
    }
}

/// What is wrong with who is what.
pub open spec fn roles_problem(n: NetworkView) -> Option<Seq<char>> {
    match both_roles(n.clients, n.relays) {
        Some(name) => Some(said(seq!["member "@, name, " defined as both client and relay"@])),
        None => None,
    }
}

fn check_roles(cfg: &NetworkConfig) -> (r: Option<String>)
    requires
        cfg.wf(),
    ensures
        opt_text(r) == roles_problem(cfg@),
{
    let clients = &cfg.clients.entries;
    let ghost v = cfg@.clients;
    assert(v.len() == clients@.len());
    let mut i: usize = 0;
    assert(v.skip(0) =~= v);
    while i < clients.len()
        invariant
            i <= clients@.len(),
            cfg.wf(),
            clients == &cfg.clients.entries,
            v == cfg@.clients,
            v.len() == clients@.len(),
            both_roles(v, cfg@.relays) == both_roles(v.skip(i as int), cfg@.relays),
        decreases clients.len() - i,
    {
        let name = clients[i].0.as_str();
        assert(v[i as int].0 == name@);
        proof {
            crate::config::lemma_member_lookup(cfg.relays, name@);
        }
        if cfg.relays.contains_key(name) {
            let parts = vec!["member ", name, " defined as both client and relay"];
            assert(texts(parts@) =~= seq![
                "member "@,
                name@,
                " defined as both client and relay"@,
            ]);
            return Some(say(&parts));
        }
        assert(v.skip(i as int).drop_first() =~= v.skip(i + 1));
        i = i + 1;
    }
    None
}

/// Some member may register, or registers, a prefix that holds the address.
pub open spec fn routed_lan_has(members: Seq<(Seq<char>, MemberView)>, ip: IpAddr) -> bool {
    exists|i: int|
        0 <= i < members.len() && (any_has((#[trigger] members[i]).1.allowed_cidrs, ip) || any_has(
            members[i].1.local_cidrs,
            ip,
        ))
}

/// What is wrong with one address that a relay advertises.
pub open spec fn relay_ip_problem(
    n: NetworkView,
    name: Seq<char>,
    addr: Seq<char>,
    ip: IpAddr,
) -> Option<Seq<char>> {
    if n.settings.allow_loopback_relays && ip.loopback() {
        None
    } else if ip.unroutable() {
        Some(
            said(
                seq![
                    "relay "@,
                    name,
                    ": relay_addr "@,
                    debug_text(addr),
                    " resolves to an unroutable address "@,
                    ip.text(),
                ],
            ),
        )
    } else if any_has(n.cidrs, ip) {
        Some(
            said(
                seq![
                    "relay "@,
                    name,
                    ": relay_addr "@,
                    debug_text(addr),
                    " ("@,
                    ip.text(),
                    ") lies inside tunnel space"@,
                ],
            ),
        )
    } else if routed_lan_has(n.relays, ip) || routed_lan_has(n.clients, ip) {
        Some(
            said(
                seq![
                    "relay "@,
                    name,
                    ": relay_addr "@,
                    debug_text(addr),
                    " ("@,
                    ip.text(),
                    ") lies inside a routed LAN prefix"@,
                ],
            ),
        )
    } else {
        None
    }
}

/// What is wrong with the first bad one of a relay's addresses.
pub open spec fn relay_ips_problem(
    n: NetworkView,
    name: Seq<char>,
    addr: Seq<char>,
    ips: Seq<IpAddr>,
) -> Option<Seq<char>>
    decreases ips.len(),
{
    if ips.len() == 0 {
        None
    } else {
        match relay_ip_problem(n, name, addr, ips[0]) {
            Some(p) => Some(p),
            None => relay_ips_problem(n, name, addr, ips.drop_first()),
        }
    }
}

/// The host that an address names, without brackets.
pub open spec fn bare_host(host: Seq<char>) -> Seq<char> {
    without_trailing(without_leading(host, '['), ']')
}

/// The addresses that a host stands for: the one it spells, or those it was
/// resolved to. `auto` stands for none: it is known when the relay joins.
pub open spec fn host_addresses(
    host: Seq<char>,
    resolved: Seq<(Seq<char>, Seq<IpAddr>)>,
) -> Seq<IpAddr> {
    if host == auto_host() {
        Seq::empty()
    } else {
        match IpAddr::read(host) {
            Some(ip) => seq![ip],
            None => match assoc(resolved, host) {
                Some(ips) => ips,
                None => Seq::empty(),
            },
        }
    }
}

/// What is wrong with the address that a relay advertises.
pub open spec fn relay_addr_problem(
    n: NetworkView,
    name: Seq<char>,
    addr: Seq<char>,
    resolved: Seq<(Seq<char>, Seq<IpAddr>)>,
) -> Option<Seq<char>> {
    match split_last(addr, ':') {
        None => Some(
            said(
                seq![
                    "relay "@,
                    name,
                    ": relay_addr "@,
                    debug_text(addr),
                    " must be host:port"@,
                ],
            ),
        ),
        Some((host, port)) => if number_read(port, 65535) is None {
            Some(said(seq!["relay "@, name, ": bad port in relay_addr "@, debug_text(addr)]))
        } else {
            relay_ips_problem(n, name, addr, host_addresses(bare_host(host), resolved))
        },
    }
}

fn lan_contains(members: &Vec<(String, MemberCfg)>, ip: &IpAddr) -> (r: bool)
    requires
        crate::config::members_wf(crate::config::member_views(members@)),
    ensures
        r == routed_lan_has(crate::config::member_views(members@), *ip),
{
    let ghost v = crate::config::member_views(members@);
    let mut i: usize = 0;
    while i < members.len()
        invariant
            i <= members@.len(),
            v == crate::config::member_views(members@),
            v.len() == members@.len(),
            crate::config::members_wf(v),
            forall|k: int|
                0 <= k < i ==> !any_has((#[trigger] v[k]).1.allowed_cidrs, *ip) && !any_has(
                    v[k].1.local_cidrs,
                    *ip,
                ),
        decreases members.len() - i,
    {
        let m = &members[i].1;
        assert(v[i as int].1 == m@);
        if any_contains(&m.allowed_cidrs, ip) || any_contains(&m.local_cidrs, ip) {
            return true;
        }
        i = i + 1;
    }
    false
}

fn check_relay_ip(cfg: &NetworkConfig, name: &str, addr: &str, ip: &IpAddr) -> (r: Option<String>)
    requires
        cfg.wf(),
    ensures
        opt_text(r) == relay_ip_problem(cfg@, name@, addr@, *ip),
{
    if cfg.settings.allow_loopback_relays && ip.is_loopback() {
        return None;
    }
    let a = quoted(addr);
    let t = ip.to_text();
    if unroutable(ip) {
        let parts = vec![
            "relay ",
            name,
            ": relay_addr ",
            a.as_str(),
            " resolves to an unroutable address ",
            t.as_str(),
        ];
        assert(texts(parts@) =~= seq![
            "relay "@,
            name@,
            ": relay_addr "@,
            debug_text(addr@),
            " resolves to an unroutable address "@,
            ip.text(),
        ]);
        return Some(say(&parts));
    }
    if any_contains(&cfg.cidrs, ip) {
        let parts = vec![
            "relay ",
            name,
            ": relay_addr ",
            a.as_str(),
            " (",
            t.as_str(),
            ") lies inside tunnel space",
        ];
        assert(texts(parts@) =~= seq![
            "relay "@,
            name@,
            ": relay_addr "@,
            debug_text(addr@),
            " ("@,
            ip.text(),
            ") lies inside tunnel space"@,
        ]);
        return Some(say(&parts));
    }
    if lan_contains(&cfg.relays.entries, ip) || lan_contains(&cfg.clients.entries, ip) {
        let parts = vec![
            "relay ",
            name,
            ": relay_addr ",
            a.as_str(),
            " (",
            t.as_str(),
            ") lies inside a routed LAN prefix",
        ];
        assert(texts(parts@) =~= seq![
            "relay "@,
            name@,
            ": relay_addr "@,
            debug_text(addr@),
            " ("@,
            ip.text(),
            ") lies inside a routed LAN prefix"@,
        ]);
        return Some(say(&parts));
    }
    None
}

/// What a host name was resolved to.
fn lookup_host(resolved: &Vec<(String, Vec<IpAddr>)>, host: &str) -> (r: Vec<IpAddr>)
    ensures
        r@ == match assoc(resolved_view(resolved@), host@) {
            Some(ips) => ips,
            None => Seq::empty(),
        },
{
    let ghost v = resolved_view(resolved@);
    assert(v.len() == resolved@.len());
    let mut i: usize = 0;
    while i < resolved.len()
        invariant
            i <= resolved@.len(),
            v == resolved_view(resolved@),
            v.len() == resolved@.len(),
            forall|k: int| 0 <= k < i ==> (#[trigger] v[k]).0 != host@,
        decreases resolved.len() - i,
    {
        assert(v[i as int] == (resolved@[i as int].0@, resolved@[i as int].1@));
        if str_eq(resolved[i].0.as_str(), host) {
            proof {
                crate::config::lemma_assoc_at(v, host@, i as int);
            }
            let ips = resolved[i].1.clone();
            assert(ips@ =~= resolved@[i as int].1@);
            return ips;
        }
        i = i + 1;
    }
    proof {
        crate::config::lemma_assoc_none(v, host@);
    }
    Vec::new()
}

/// Check the address that a relay advertises: no address that cannot be
/// routed, none in tunnel space and none in a routed LAN. A host name is
/// checked by what it was resolved to; one that could not be resolved passes.
pub fn validate_relay_addr(
    cfg: &NetworkConfig,
    name: &str,
    addr: &str,
    resolved: &Vec<(String, Vec<IpAddr>)>,
) -> (r: Option<String>)
    requires
        cfg.wf(),
    ensures
        opt_text(r) == relay_addr_problem(cfg@, name@, addr@, resolved_view(resolved@)),
{
    match rsplit_once(addr, ':') {
        None => {
            let a = quoted(addr);
            let parts = vec!["relay ", name, ": relay_addr ", a.as_str(), " must be host:port"];
            assert(texts(parts@) =~= seq![
                "relay "@,
                name@,
                ": relay_addr "@,
                debug_text(addr@),
                " must be host:port"@,
            ]);
            Some(say(&parts))
        },
        Some((host, port)) => {
            if parse_number(port.as_str(), 65535).is_none() {
                let a = quoted(addr);
                let parts = vec!["relay ", name, ": bad port in relay_addr ", a.as_str()];
                assert(texts(parts@) =~= seq![
                    "relay "@,
                    name@,
                    ": bad port in relay_addr "@,
                    debug_text(addr@),
                ]);
                return Some(say(&parts));
            }
            let host = strip_trailing(strip_leading(host.as_str(), '[').as_str(), ']');
            let ips: Vec<IpAddr> = if str_eq(host.as_str(), "auto") {
                Vec::new()
            } else {
                match IpAddr::parse(host.as_str()) {
                    Some(ip) => {
                        let one = vec![ip];
                        assert(one@ =~= seq![ip]);
                        one
                    },
                    None => lookup_host(resolved, host.as_str()),
                }
            };
            assert(ips@ == host_addresses(host@, resolved_view(resolved@)));
            let mut i: usize = 0;
            assert(ips@.skip(0) =~= ips@);
            while i < ips.len()
                invariant
                    i <= ips@.len(),
                    cfg.wf(),
                    relay_addr_problem(cfg@, name@, addr@, resolved_view(resolved@))
                        == relay_ips_problem(cfg@, name@, addr@, ips@.skip(i as int)),
                decreases ips.len() - i,
            {
                if let Some(p) = check_relay_ip(cfg, name, addr, &ips[i]) {
                    return Some(p);
                }
                assert(ips@.skip(i as int).drop_first() =~= ips@.skip(i + 1));
                i = i + 1;
            }
            None
        },
    }
}

/// The first of `mine` that has an address in common with one of `other`,
/// with the first of those.
pub open spec fn clash(mine: Seq<IpNet>, other: Seq<IpNet>) -> Option<(IpNet, IpNet)>
    decreases mine.len(),
{
    if mine.len() == 0 {
        None
    } else {
        match overlap_with(mine[0], other) {
            Some(t) => Some((mine[0], t)),
            None => clash(mine.drop_first(), other),
        }
    }
}

fn find_clash(mine: &Vec<IpNet>, other: &Vec<IpNet>) -> (r: Option<(IpNet, IpNet)>)
    requires
        all_valid(mine@),
        all_valid(other@),
    ensures
        r == clash(mine@, other@),
        r matches Some((a, b)) ==> a.valid() && b.valid(),
{
    let mut i: usize = 0;
    assert(mine@.skip(0) =~= mine@);
    assert(other@.skip(0) =~= other@);
    while i < mine.len()
        invariant
            i <= mine@.len(),
            all_valid(mine@),
            all_valid(other@),
            other@.skip(0) == other@,
            clash(mine@, other@) == clash(mine@.skip(i as int), other@),
        decreases mine.len() - i,
    {
        let a = mine[i];
        if let Some(b) = find_overlap_with(&a, other, 0) {
            return Some((a, b));
        }
        assert(mine@.skip(i as int).drop_first() =~= mine@.skip(i + 1));
        i = i + 1;
    }
    None
}

/// The first prefix that has an address in common with `a` without being the
/// same prefix. The same prefix may be registered twice: the second
/// registrant is the standby.
pub open spec fn partial_overlap(a: IpNet, rest: Seq<IpNet>) -> Option<IpNet>
    decreases rest.len(),
{
    if rest.len() == 0 {
        None
    } else if a.meets(rest[0]) && a.truncated() != rest[0].truncated() {
        Some(rest[0])
    } else {
        partial_overlap(a, rest.drop_first())
    }
}

/// The first member other than `name` that registers a prefix that overlaps
/// `a` in part.
pub open spec fn rival_with(
    name: Seq<char>,
    a: IpNet,
    others: Seq<(Seq<char>, MemberView)>,
) -> Option<(Seq<char>, IpNet)>
    decreases others.len(),
{
    if others.len() == 0 {
        None
    } else {
        match partial_overlap(a, others[0].1.local_cidrs) {
            Some(b) if others[0].0 != name => Some((others[0].0, b)),
            _ => rival_with(name, a, others.drop_first()),
        }
    }
}

/// The first of a relay's prefixes that overlaps another relay's in part.
pub open spec fn rivalry(
    name: Seq<char>,
    mine: Seq<IpNet>,
    others: Seq<(Seq<char>, MemberView)>,
) -> Option<(IpNet, Seq<char>, IpNet)>
    decreases mine.len(),
{
    if mine.len() == 0 {
        None
    } else {
        match rival_with(name, mine[0], others) {
            Some((who, b)) => Some((mine[0], who, b)),
            None => rivalry(name, mine.drop_first(), others),
        }
    }
}

/// What is wrong with what a relay routes.
pub open spec fn relay_cidrs_problem(n: NetworkView, name: Seq<char>, m: MemberView) -> Option<
    Seq<char>,
> {
    match clash(m.allowed_cidrs, n.cidrs) {
        Some((c, t)) => Some(
            said(
                seq![
                    "relay "@,
                    name,
                    ": allowed cidr "@,
                    c.text(),
                    " overlaps tunnel space "@,
                    t.text(),
                ],
            ),
        ),
        None => match clash(m.local_cidrs, n.cidrs) {
            Some((c, t)) => Some(
                said(
                    seq![
                        "relay "@,
                        name,
                        ": local cidr "@,
                        c.text(),
                        " overlaps tunnel space "@,
                        t.text(),
                    ],
                ),
            ),
            None => match rivalry(name, m.local_cidrs, n.relays) {
                Some((c, who, b)) => Some(
                    said(
                        seq![
                            "relay "@,
                            name,
                            ": local cidr "@,
                            c.text(),
                            " overlaps "@,
                            b.text(),
                            " of "@,
                            who,
                        ],
                    ),
                ),
                None => None,
            },
        },
    }
}

fn find_partial_overlap(a: &IpNet, v: &Vec<IpNet>) -> (r: Option<IpNet>)
    requires
        a.valid(),
        all_valid(v@),
    ensures
        r == partial_overlap(*a, v@),
        r matches Some(n) ==> n.valid(),
{
    let mut i: usize = 0;
    assert(v@.skip(0) =~= v@);
    while i < v.len()
        invariant
            i <= v.len(),
            a.valid(),
            all_valid(v@),
            partial_overlap(*a, v@.skip(i as int)) == partial_overlap(*a, v@),
        decreases v.len() - i,
    {
        if overlaps(a, &v[i]) && a.trunc() != v[i].trunc() {
            return Some(v[i]);
        }
        assert(v@.skip(i as int).drop_first() =~= v@.skip(i + 1));
        i = i + 1;
    }
    None
}

fn check_relay_cidrs(cfg: &NetworkConfig, name: &str, m: &MemberCfg) -> (r: Option<String>)
    requires
        cfg.wf(),
        m@.wf(),
    ensures
        opt_text(r) == relay_cidrs_problem(cfg@, name@, m@),
{
    if let Some((c, t)) = find_clash(&m.allowed_cidrs, &cfg.cidrs) {
        let (x, y) = (c.to_text(), t.to_text());
        let parts = vec![
            "relay ",
            name,
            ": allowed cidr ",
            x.as_str(),
            " overlaps tunnel space ",
            y.as_str(),
        ];
        assert(texts(parts@) =~= seq![
            "relay "@,
            name@,
            ": allowed cidr "@,
            c.text(),
            " overlaps tunnel space "@,
            t.text(),
        ]);
        return Some(say(&parts));
    }
    if let Some((c, t)) = find_clash(&m.local_cidrs, &cfg.cidrs) {
        let (x, y) = (c.to_text(), t.to_text());
        let parts = vec![
            "relay ",
            name,
            ": local cidr ",
            x.as_str(),
            " overlaps tunnel space ",
            y.as_str(),
        ];
        assert(texts(parts@) =~= seq![
            "relay "@,
            name@,
            ": local cidr "@,
            c.text(),
            " overlaps tunnel space "@,
            t.text(),
        ]);
        return Some(say(&parts));
    }
    let ghost mine = m.local_cidrs@;
    let ghost others = cfg@.relays;
    let relays = &cfg.relays.entries;
    assert(others.len() == relays@.len());
    let mut i: usize = 0;
    assert(mine.skip(0) =~= mine);
    while i < m.local_cidrs.len()
        invariant
            i <= mine.len(),
            mine == m.local_cidrs@,
            others == cfg@.relays,
            relays == &cfg.relays.entries,
            others.len() == relays@.len(),
            cfg.wf(),
            m@.wf(),
            clash(m@.allowed_cidrs, cfg@.cidrs) is None,
            clash(m@.local_cidrs, cfg@.cidrs) is None,
            rivalry(name@, mine, others) == rivalry(name@, mine.skip(i as int), others),
        decreases mine.len() - i,
    {
        let c = m.local_cidrs[i];
        let mut k: usize = 0;
        assert(others.skip(0) =~= others);
        while k < relays.len()
            invariant
                k <= others.len(),
                c == mine[i as int],
                i < mine.len(),
                c.valid(),
                mine == m.local_cidrs@,
                others == cfg@.relays,
                relays == &cfg.relays.entries,
                others.len() == relays@.len(),
                cfg.wf(),
                clash(m@.allowed_cidrs, cfg@.cidrs) is None,
                clash(m@.local_cidrs, cfg@.cidrs) is None,
                rivalry(name@, mine, others) == rivalry(name@, mine.skip(i as int), others),
                rival_with(name@, c, others) == rival_with(name@, c, others.skip(k as int)),
            decreases others.len() - k,
        {
            let who = relays[k].0.as_str();
            assert(others[k as int] == (who@, relays@[k as int].1@));
            assert(others[k as int].1.wf());
            if !str_eq(who, name) {
                if let Some(b) = find_partial_overlap(&c, &relays[k].1.local_cidrs) {
                    let (x, y) = (c.to_text(), b.to_text());
                    let parts = vec![
                        "relay ",
                        name,
                        ": local cidr ",
                        x.as_str(),
                        " overlaps ",
                        y.as_str(),
                        " of ",
                        who,
                    ];
                    assert(texts(parts@) =~= seq![
                        "relay "@,
                        name@,
                        ": local cidr "@,
                        c.text(),
                        " overlaps "@,
                        b.text(),
                        " of "@,
                        who@,
                    ]);
                    return Some(say(&parts));
                }
            }
            assert(others.skip(k as int).drop_first() =~= others.skip(k + 1));
            k = k + 1;
        }
        assert(mine.skip(i as int).drop_first() =~= mine.skip(i + 1));
        i = i + 1;
    }
    None
}

/// The first member that prefers this IPv4 address.
pub open spec fn prefers4(members: Seq<(Seq<char>, MemberView, Role)>, ip: u32) -> Option<Seq<char>>
    decreases members.len(),
{
    if members.len() == 0 {
        None
    } else {
        match prefers4(members.drop_last(), ip) {
            Some(who) => Some(who),
            None => if members.last().1.preferred_ip4 == Some(ip) {
                Some(members.last().0)
            } else {
                None
            },
        }
    }
}

/// The first member that prefers this IPv6 address.
pub open spec fn prefers6(members: Seq<(Seq<char>, MemberView, Role)>, ip: u128) -> Option<
    Seq<char>,
>
    decreases members.len(),
{
    if members.len() == 0 {
        None
    } else {
        match prefers6(members.drop_last(), ip) {
            Some(who) => Some(who),
            None => if members.last().1.preferred_ip6 == Some(ip) {
                Some(members.last().0)
            } else {
                None
            },
        }
    }
}

/// What is said of an address outside the tunnel space.
pub open spec fn outside_text(ip: IpAddr) -> Seq<char> {
    said(seq!["address "@, ip.text(), " is outside every network cidr"@])
}

/// What is wrong with the addresses that a member prefers, `before` being
/// the members checked already.
pub open spec fn preferred_problem(
    n: NetworkView,
    before: Seq<(Seq<char>, MemberView, Role)>,
    name: Seq<char>,
    m: MemberView,
) -> Option<Seq<char>> {
    let p4 = match m.preferred_ip4 {
        Some(a) => {
            let ip = IpAddr::V4(a);
            if !any_has(n.cidrs, ip) {
                Some(
                    said(
                        seq![
                            "member "@,
                            name,
                            ": preferred_ip4 "@,
                            ip.text(),
                            ": "@,
                            outside_text(ip),
                        ],
                    ),
                )
            } else {
                match prefers4(before, a) {
                    Some(prev) => Some(
                        said(
                            seq![
                                "preferred_ip4 "@,
                                ip.text(),
                                " claimed by both "@,
                                prev,
                                " and "@,
                                name,
                            ],
                        ),
                    ),
                    None => None,
                }
            }
        },
        None => None,
    };
    let p6 = match m.preferred_ip6 {
        Some(a) => {
            let ip = IpAddr::V6(a);
            if !any_has(n.cidrs, ip) {
                Some(
                    said(
                        seq![
                            "member "@,
                            name,
                            ": preferred_ip6 "@,
                            ip.text(),
                            ": "@,
                            outside_text(ip),
                        ],
                    ),
                )
            } else {
                match prefers6(before, a) {
                    Some(prev) => Some(
                        said(
                            seq![
                                "preferred_ip6 "@,
                                ip.text(),
                                " claimed by both "@,
                                prev,
                                " and "@,
                                name,
                            ],
                        ),
                    ),
                    None => None,
                }
            }
        },
        None => None,
    };
    match p4 {
        Some(p) => Some(p),
        None => p6,
    }
}

/// The first default route of a list.
pub open spec fn first_default(v: Seq<IpNet>) -> Option<IpNet>
    decreases v.len(),
{
    if v.len() == 0 {
        None
    } else if v[0].prefix_len == 0 {
        Some(v[0])
    } else {
        first_default(v.drop_first())
    }
}

/// What is said of a default route that is given as a routed prefix.
pub open spec fn default_text(name: Seq<char>, c: IpNet) -> Seq<char> {
    said(
        seq![
            "relay "@,
            name,
            ": "@,
            c.text(),
            " is a default route: set internet_gateway instead"@,
        ],
    )
}

/// A way out to the internet is a capability, not a prefix: a default route
/// is not routed like a site.
pub open spec fn default_problem(name: Seq<char>, m: MemberView) -> Option<Seq<char>> {
    match first_default(m.allowed_cidrs) {
        Some(c) => Some(default_text(name, c)),
        None => match first_default(m.local_cidrs) {
            Some(c) => Some(default_text(name, c)),
            None => None,
        },
    }
}

/// What is wrong with the first relay that routes a default route.
pub open spec fn defaults_problem(relays: Seq<(Seq<char>, MemberView)>) -> Option<Seq<char>>
    decreases relays.len(),
{
    if relays.len() == 0 {
        None
    } else {
        match default_problem(relays[0].0, relays[0].1) {
            Some(p) => Some(p),
            None => defaults_problem(relays.drop_first()),
        }
    }
}

fn find_default(v: &Vec<IpNet>) -> (r: Option<IpNet>)
    requires
        all_valid(v@),
    ensures
        r == first_default(v@),
        r matches Some(n) ==> n.valid(),
{
    let mut i: usize = 0;
    assert(v@.skip(0) =~= v@);
    while i < v.len()
        invariant
            i <= v@.len(),
            all_valid(v@),
            first_default(v@) == first_default(v@.skip(i as int)),
        decreases v.len() - i,
    {
        if v[i].prefix_len == 0 {
            return Some(v[i]);
        }
        assert(v@.skip(i as int).drop_first() =~= v@.skip(i + 1));
        i = i + 1;
    }
    None
}

fn check_defaults(name: &str, m: &MemberCfg) -> (r: Option<String>)
    requires
        m@.wf(),
    ensures
        opt_text(r) == default_problem(name@, m@),
{
    let found = match find_default(&m.allowed_cidrs) {
        Some(c) => Some(c),
        None => find_default(&m.local_cidrs),
    };
    match found {
        None => None,
        Some(c) => {
            let t = c.to_text();
            let parts = vec![
                "relay ",
                name,
                ": ",
                t.as_str(),
                " is a default route: set internet_gateway instead",
            ];
            assert(texts(parts@) =~= seq![
                "relay "@,
                name@,
                ": "@,
                c.text(),
                " is a default route: set internet_gateway instead"@,
            ]);
            Some(say(&parts))
        },
    }
}

fn check_all_defaults(cfg: &NetworkConfig) -> (r: Option<String>)
    requires
        cfg.wf(),
    ensures
        opt_text(r) == defaults_problem(cfg@.relays),
{
    let ghost v = cfg@.relays;
    assert(v.len() == cfg.relays.entries@.len());
    let mut i: usize = 0;
    assert(v.skip(0) =~= v);
    while i < cfg.relays.entries.len()
        invariant
            i <= v.len(),
            v == cfg@.relays,
            v.len() == cfg.relays.entries@.len(),
            cfg.wf(),
            defaults_problem(v) == defaults_problem(v.skip(i as int)),
        decreases v.len() - i,
    {
        let (name, m) = &cfg.relays.entries[i];
        assert(v[i as int] == (name@, m@));
        if let Some(p) = check_defaults(name.as_str(), m) {
            return Some(p);
        }
        assert(v.skip(i as int).drop_first() =~= v.skip(i + 1));
        i = i + 1;
    }
    None
}

/// What is wrong with one member, `before` being those checked already.
pub open spec fn member_problem(
    n: NetworkView,
    before: Seq<(Seq<char>, MemberView, Role)>,
    name: Seq<char>,
    m: MemberView,
    role: Role,
    resolved: Seq<(Seq<char>, Seq<IpAddr>)>,
) -> Option<Seq<char>> {
    let own = if m.secret matches Some(s) && trimmed(s).len() == 0 {
        Some(said(seq!["member "@, name, ": secret must not be empty"@]))
    } else {
        match role {
            Role::Client => if m.relay_addr is Some || m.allowed_cidrs.len() > 0
                || m.local_cidrs.len() > 0 {
                Some(
                    said(
                        seq![
                            "client "@,
                            name,
                            ": relay_addr/allowed_cidrs/local_cidrs are relay-only fields"@,
                        ],
                    ),
                )
            } else if m.internet_gateway == Some(true) {
                Some(said(seq!["client "@, name, ": internet_gateway is a relay-only field"@]))
            } else {
                None
            },
            Role::Relay => match m.relay_addr {
                None => Some(said(seq!["relay "@, name, ": relay_addr is required"@])),
                Some(addr) => match relay_addr_problem(n, name, addr, resolved) {
                    Some(p) => Some(p),
                    None => relay_cidrs_problem(n, name, m),
                },
            },
        }
    };
    match own {
        Some(p) => Some(p),
        None => match m.pool {
            Some(pool) if assoc(n.pools, pool) is None => Some(
                said(seq!["member "@, name, ": unknown pool "@, debug_text(pool)]),
            ),
            _ => preferred_problem(n, before, name, m),
        },
    }
}

/// What is wrong with the first bad one of the members from `k` on.
pub open spec fn members_problem(
    n: NetworkView,
    k: int,
    resolved: Seq<(Seq<char>, Seq<IpAddr>)>,
) -> Option<Seq<char>>
    decreases n.everyone().len() - k,
{
    let all = n.everyone();
    if k < 0 || k >= all.len() {
        None
    } else {
        match member_problem(n, all.take(k), all[k].0, all[k].1, all[k].2, resolved) {
            Some(p) => Some(p),
            None => members_problem(n, k + 1, resolved),
        }
    }
}

/// What is wrong with a configuration: the first check that fails.
pub open spec fn network_problem(
    n: NetworkView,
    max_lanes: u8,
    resolved: Seq<(Seq<char>, Seq<IpAddr>)>,
) -> Option<Seq<char>> {
    match settings_problem(n, max_lanes) {
        Some(p) => Some(p),
        None => match cidrs_problem(n) {
            Some(p) => Some(p),
            None => match pools_problem(n) {
                Some(p) => Some(p),
                None => match roles_problem(n) {
                    Some(p) => Some(p),
                    None => match defaults_problem(n.relays) {
                        Some(p) => Some(p),
                        None => members_problem(n, 0, resolved),
                    },
                },
            },
        },
    }
}

/// The member at a position of [`NetworkView::everyone`].
pub(crate) fn nth_member(cfg: &NetworkConfig, k: usize) -> (r: (&str, &MemberCfg, Role))
    requires
        cfg.wf(),
        k < cfg@.everyone().len(),
    ensures
        cfg@.everyone()[k as int] == (r.0@, r.1@, r.2),
        r.1@.wf(),
{
    let c = cfg.clients.entries.len();
    assert(cfg@.clients.len() == c);
    assert(cfg@.relays.len() == cfg.relays.entries@.len());
    if k < c {
        assert(cfg@.clients[k as int] == (
            cfg.clients.entries@[k as int].0@,
            cfg.clients.entries@[k as int].1@,
        ));
        (cfg.clients.entries[k].0.as_str(), &cfg.clients.entries[k].1, Role::Client)
    } else {
        assert(cfg@.relays[k - c] == (
            cfg.relays.entries@[k - c].0@,
            cfg.relays.entries@[k - c].1@,
        ));
        (cfg.relays.entries[k - c].0.as_str(), &cfg.relays.entries[k - c].1, Role::Relay)
    }
}

fn who_prefers4(cfg: &NetworkConfig, upto: usize, ip: u32) -> (r: Option<&str>)
    requires
        cfg.wf(),
        upto <= cfg@.everyone().len(),
    ensures
        match r {
            Some(n) => prefers4(cfg@.everyone().take(upto as int), ip) == Some(n@),
            None => prefers4(cfg@.everyone().take(upto as int), ip) is None,
        },
{
    let ghost all = cfg@.everyone();
    let mut found: Option<&str> = None;
    let mut i: usize = 0;
    while i < upto
        invariant
            i <= upto <= all.len(),
            cfg.wf(),
            all == cfg@.everyone(),
            match found {
                Some(n) => prefers4(all.take(i as int), ip) == Some(n@),
                None => prefers4(all.take(i as int), ip) is None,
            },
        decreases upto - i,
    {
        let (name, m, _) = nth_member(cfg, i);
        assert(all.take(i + 1).drop_last() =~= all.take(i as int));
        if found.is_none() {
            if let Some(p) = m.preferred_ip4 {
                if p == ip {
                    found = Some(name);
                }
            }
        }
        i = i + 1;
    }
    found
}

fn who_prefers6(cfg: &NetworkConfig, upto: usize, ip: u128) -> (r: Option<&str>)
    requires
        cfg.wf(),
        upto <= cfg@.everyone().len(),
    ensures
        match r {
            Some(n) => prefers6(cfg@.everyone().take(upto as int), ip) == Some(n@),
            None => prefers6(cfg@.everyone().take(upto as int), ip) is None,
        },
{
    let ghost all = cfg@.everyone();
    let mut found: Option<&str> = None;
    let mut i: usize = 0;
    while i < upto
        invariant
            i <= upto <= all.len(),
            cfg.wf(),
            all == cfg@.everyone(),
            match found {
                Some(n) => prefers6(all.take(i as int), ip) == Some(n@),
                None => prefers6(all.take(i as int), ip) is None,
            },
        decreases upto - i,
    {
        let (name, m, _) = nth_member(cfg, i);
        assert(all.take(i + 1).drop_last() =~= all.take(i as int));
        if found.is_none() {
            if let Some(p) = m.preferred_ip6 {
                if p == ip {
                    found = Some(name);
                }
            }
        }
        i = i + 1;
    }
    found
}

/// Is the address inside the tunnel space? The message says that it is not.
pub fn check_in_cidrs(cidrs: &Vec<IpNet>, ip: &IpAddr) -> (r: Option<String>)
    requires
        all_valid(cidrs@),
    ensures
        opt_text(r) == (if any_has(cidrs@, *ip) {
            None
        } else {
            Some(outside_text(*ip))
        }),
{
    if any_contains(cidrs, ip) {
        None
    } else {
        let t = ip.to_text();
        let parts = vec!["address ", t.as_str(), " is outside every network cidr"];
        assert(texts(parts@) =~= seq!["address "@, ip.text(), " is outside every network cidr"@]);
        Some(say(&parts))
    }
}

fn check_preferred(cfg: &NetworkConfig, k: usize, name: &str, m: &MemberCfg) -> (r: Option<String>)
    requires
        cfg.wf(),
        k <= cfg@.everyone().len(),
    ensures
        opt_text(r) == preferred_problem(cfg@, cfg@.everyone().take(k as int), name@, m@),
{
    if let Some(a) = m.preferred_ip4 {
        let ip = IpAddr::V4(a);
        let t = ip.to_text();
        if let Some(why) = check_in_cidrs(&cfg.cidrs, &ip) {
            let parts = vec!["member ", name, ": preferred_ip4 ", t.as_str(), ": ", why.as_str()];
            assert(texts(parts@) =~= seq![
                "member "@,
                name@,
                ": preferred_ip4 "@,
                ip.text(),
                ": "@,
                outside_text(ip),
            ]);
            return Some(say(&parts));
        }
        if let Some(prev) = who_prefers4(cfg, k, a) {
            let parts = vec!["preferred_ip4 ", t.as_str(), " claimed by both ", prev, " and ", name];
            assert(texts(parts@) =~= seq![
                "preferred_ip4 "@,
                ip.text(),
                " claimed by both "@,
                prev@,
                " and "@,
                name@,
            ]);
            return Some(say(&parts));
        }
    }
    if let Some(a) = m.preferred_ip6 {
        let ip = IpAddr::V6(a);
        let t = ip.to_text();
        if let Some(why) = check_in_cidrs(&cfg.cidrs, &ip) {
            let parts = vec!["member ", name, ": preferred_ip6 ", t.as_str(), ": ", why.as_str()];
            assert(texts(parts@) =~= seq![
                "member "@,
                name@,
                ": preferred_ip6 "@,
                ip.text(),
                ": "@,
                outside_text(ip),
            ]);
            return Some(say(&parts));
        }
        if let Some(prev) = who_prefers6(cfg, k, a) {
            let parts = vec!["preferred_ip6 ", t.as_str(), " claimed by both ", prev, " and ", name];
            assert(texts(parts@) =~= seq![
                "preferred_ip6 "@,
                ip.text(),
                " claimed by both "@,
                prev@,
                " and "@,
                name@,
            ]);
            return Some(say(&parts));
        }
    }
    None
}

/// Is there a pool of this name?
fn has_pool(pools: &Vec<(String, PoolCfg)>, name: &str) -> (r: bool)
    ensures
        r == (assoc(crate::config::pool_views(pools@), name@) is Some),
{
    let ghost v = crate::config::pool_views(pools@);
    let mut i: usize = 0;
    while i < pools.len()
        invariant
            i <= pools@.len(),
            v == crate::config::pool_views(pools@),
            v.len() == pools@.len(),
            forall|k: int| 0 <= k < i ==> (#[trigger] v[k]).0 != name@,
        decreases pools.len() - i,
    {
        assert(v[i as int].0 == pools@[i as int].0@);
        if str_eq(pools[i].0.as_str(), name) {
            proof {
                crate::config::lemma_assoc_at(v, name@, i as int);
            }
            return true;
        }
        i = i + 1;
    }
    proof {
        crate::config::lemma_assoc_none(v, name@);
    }
    false
}

fn check_member(cfg: &NetworkConfig, k: usize, resolved: &Vec<(String, Vec<IpAddr>)>) -> (r: Option<
    String,
>)
    requires
        cfg.wf(),
        k < cfg@.everyone().len(),
    ensures
        opt_text(r) == member_problem(
            cfg@,
            cfg@.everyone().take(k as int),
            cfg@.everyone()[k as int].0,
            cfg@.everyone()[k as int].1,
            cfg@.everyone()[k as int].2,
            resolved_view(resolved@),
        ),
{
    let (name, m, role) = nth_member(cfg, k);
    if let Some(s) = &m.secret {
        let t = trim(s.as_str());
        if t.as_str().is_empty() {
            let parts = vec!["member ", name, ": secret must not be empty"];
            assert(texts(parts@) =~= seq!["member "@, name@, ": secret must not be empty"@]);
            return Some(say(&parts));
        }
    }
    match role {
        Role::Client => {
            if m.relay_addr.is_some() || m.allowed_cidrs.len() > 0 || m.local_cidrs.len() > 0 {
                let parts = vec![
                    "client ",
                    name,
                    ": relay_addr/allowed_cidrs/local_cidrs are relay-only fields",
                ];
                assert(texts(parts@) =~= seq![
                    "client "@,
                    name@,
                    ": relay_addr/allowed_cidrs/local_cidrs are relay-only fields"@,
                ]);
                return Some(say(&parts));
            }
            if m.internet_gateway == Some(true) {
                let parts = vec!["client ", name, ": internet_gateway is a relay-only field"];
                assert(texts(parts@) =~= seq![
                    "client "@,
                    name@,
                    ": internet_gateway is a relay-only field"@,
                ]);
                return Some(say(&parts));
            }
        },
        Role::Relay => match &m.relay_addr {
            None => {
                let parts = vec!["relay ", name, ": relay_addr is required"];
                assert(texts(parts@) =~= seq!["relay "@, name@, ": relay_addr is required"@]);
                return Some(say(&parts));
            },
            Some(addr) => {
                if let Some(p) = validate_relay_addr(cfg, name, addr.as_str(), resolved) {
                    return Some(p);
                }
                if let Some(p) = check_relay_cidrs(cfg, name, m) {
                    return Some(p);
                }
            },
        },
    }
    if let Some(pool) = &m.pool {
        if !has_pool(&cfg.pools.entries, pool.as_str()) {
            let q = quoted(pool.as_str());
            let parts = vec!["member ", name, ": unknown pool ", q.as_str()];
            assert(texts(parts@) =~= seq![
                "member "@,
                name@,
                ": unknown pool "@,
                debug_text(pool@),
            ]);
            return Some(say(&parts));
        }
    }
    check_preferred(cfg, k, name, m)
}

/// Check a configuration as a whole. The error is the message of the first
/// check that fails.
///
/// `max_lanes` is the most lanes that the transport offers; `resolved` says
/// what the host names of relay addresses were resolved to.
pub fn validate_network(
    cfg: &NetworkConfig,
    max_lanes: u8,
    resolved: &Vec<(String, Vec<IpAddr>)>,
) -> (r: Result<(), String>)
    requires
        cfg.wf(),
        cfg@.everyone().len() <= usize::MAX,
    ensures
        match r {
            Ok(_) => network_problem(cfg@, max_lanes, resolved_view(resolved@)) is None,
            Err(e) => network_problem(cfg@, max_lanes, resolved_view(resolved@)) == Some(e@),
        },
{
    if let Some(p) = check_settings(cfg, max_lanes) {
        return Err(p);
    }
    if let Some(p) = check_cidrs(cfg) {
        return Err(p);
    }
    if let Some(p) = check_pools(cfg) {
        return Err(p);
    }
    if let Some(p) = check_roles(cfg) {
        return Err(p);
    }
    if let Some(p) = check_all_defaults(cfg) {
        return Err(p);
    }
    assert(cfg@.clients.len() == cfg.clients.entries@.len());
    assert(cfg@.relays.len() == cfg.relays.entries@.len());
    let total = cfg.clients.entries.len() + cfg.relays.entries.len();
    let mut k: usize = 0;
    while k < total
        invariant
            k <= total,
            total == cfg@.everyone().len(),
            cfg.wf(),
            members_problem(cfg@, 0, resolved_view(resolved@)) == members_problem(
                cfg@,
                k as int,
                resolved_view(resolved@),
            ),
            settings_problem(cfg@, max_lanes) is None,
            cidrs_problem(cfg@) is None,
            pools_problem(cfg@) is None,
            roles_problem(cfg@) is None,
            defaults_problem(cfg@.relays) is None,
        decreases total - k,
    {
        if let Some(p) = check_member(cfg, k, resolved) {
            return Err(p);
        }
        k = k + 1;
    }
    Ok(())
}

} // verus!
