//! Which networks are accepted, said of their parts: a network that conforms
//! is never refused.

use vstd::prelude::*;

use crate::config::{assoc, lemma_assoc_none, MemberView, NetworkView, SettingsView};
use crate::net::{IpAddr, IpNet};
use crate::proto::Role;
use crate::text::{number_read, split_last, trimmed};
use crate::validate::{
    any_has, bare_host, both_roles, cidrs_problem, clash, defaults_problem, first_default,
    host_addresses, inside_one, member_problem, members_problem, network_problem,
    overlap_pair, overlap_with, partial_overlap, pool_outside, pool_overlap_pair,
    pool_overlap_with, pools_problem, preferred_problem, prefers4, prefers6, relay_addr_problem,
    relay_cidrs_problem, relay_ip_problem, relay_ips_problem, rival_with, rivalry, roles_problem,
    routed_lan_has, settings_problem,
};

verus! {

/// Settings that a network may have.
pub open spec fn settings_fit(s: SettingsView, max_lanes: u8) -> bool {
    &&& s.relay_reachability == "off"@ || s.relay_reachability == "warn"@ || s.relay_reachability
        == "deny"@
    &&& s.transport == "datagram"@ || s.transport == "stream"@
    &&& 1 <= s.lanes <= max_lanes
    &&& s.credential_ttl_mins > 0
    &&& s.heartbeat_secs > 0
    &&& s.offline_after > 0
    &&& 1280 <= s.mtu <= 9000
}

/// No two prefixes of the list have an address in common.
pub open spec fn disjoint(s: Seq<IpNet>) -> bool {
    forall|i: int, j: int| 0 <= i < j < s.len() ==> !(#[trigger] s[i]).meets(#[trigger] s[j])
}

/// No prefix of the one list has an address in common with one of the other.
pub open spec fn apart(a: Seq<IpNet>, b: Seq<IpNet>) -> bool {
    forall|i: int, j: int|
        0 <= i < a.len() && 0 <= j < b.len() ==> !(#[trigger] a[i]).meets(#[trigger] b[j])
}

/// None of the prefixes holds the address.
pub open spec fn none_has(s: Seq<IpNet>, ip: IpAddr) -> bool {
    forall|i: int| 0 <= i < s.len() ==> !(#[trigger] s[i]).has(ip)
}

/// No member of the list routes the address.
pub open spec fn nobody_routes(members: Seq<(Seq<char>, MemberView)>, ip: IpAddr) -> bool {
    forall|i: int|
        0 <= i < members.len() ==> none_has((#[trigger] members[i]).1.allowed_cidrs, ip)
            && none_has(members[i].1.local_cidrs, ip)
}

/// The address can be dialed from outside: it is one of the machine's own
/// where the network allows that, or one that a network carries and that
/// neither the tunnel nor a site takes up.
pub open spec fn dialable(n: NetworkView, ip: IpAddr) -> bool {
    ||| n.settings.allow_loopback_relays && ip.loopback()
    ||| !ip.unroutable() && none_has(n.cidrs, ip) && nobody_routes(n.relays, ip) && nobody_routes(
        n.clients,
        ip,
    )
}

/// Where the two have an address in common they are the same prefix.
pub open spec fn same_or_apart(a: Seq<IpNet>, b: Seq<IpNet>) -> bool {
    forall|i: int, j: int|
        0 <= i < a.len() && 0 <= j < b.len() && (#[trigger] a[i]).meets(#[trigger] b[j])
            ==> a[i].truncated() == b[j].truncated()
}

/// No prefix of the list is everything.
pub open spec fn no_default(s: Seq<IpNet>) -> bool {
    forall|i: int| 0 <= i < s.len() ==> (#[trigger] s[i]).prefix_len > 0
}

/// A client has no field that only relays have.
pub open spec fn client_fits(m: MemberView) -> bool {
    &&& m.relay_addr is None
    &&& m.allowed_cidrs.len() == 0
    &&& m.local_cidrs.len() == 0
    &&& m.internet_gateway != Some(true)
}

/// A relay says where it is dialed, everything behind that can be dialed from
/// outside, and what it routes is neither the tunnel's nor, in part, another
/// relay's.
pub open spec fn relay_fits(
    n: NetworkView,
    name: Seq<char>,
    m: MemberView,
    resolved: Seq<(Seq<char>, Seq<IpAddr>)>,
) -> bool {
    &&& m.relay_addr is Some
    &&& split_last(m.relay_addr->0, ':') is Some
    &&& number_read((split_last(m.relay_addr->0, ':')->0).1, 65535) is Some
    &&& ({
        let ips = host_addresses(bare_host((split_last(m.relay_addr->0, ':')->0).0), resolved);
        forall|i: int| 0 <= i < ips.len() ==> dialable(n, #[trigger] ips[i])
    })
    &&& apart(m.allowed_cidrs, n.cidrs)
    &&& apart(m.local_cidrs, n.cidrs)
    &&& forall|k: int|
        0 <= k < n.relays.len() && (#[trigger] n.relays[k]).0 != name ==> same_or_apart(
            m.local_cidrs,
            n.relays[k].1.local_cidrs,
        )
}

/// What a member asks for can be had: its pool is one of the network's, the
/// addresses that it prefers are in the tunnel, and none of them is preferred
/// by a member before it.
pub open spec fn asks_fit(
    n: NetworkView,
    before: Seq<(Seq<char>, MemberView, Role)>,
    m: MemberView,
) -> bool {
    &&& m.secret is Some ==> trimmed(m.secret->0).len() > 0
    &&& m.pool is Some ==> exists|k: int|
        0 <= k < n.pools.len() && (#[trigger] n.pools[k]).0 == m.pool->0
    &&& m.preferred_ip4 is Some ==> any_has(n.cidrs, IpAddr::V4(m.preferred_ip4->0))
    &&& m.preferred_ip6 is Some ==> any_has(n.cidrs, IpAddr::V6(m.preferred_ip6->0))
    &&& forall|j: int|
        0 <= j < before.len() ==> {
            let other = (#[trigger] before[j]).1;
            &&& m.preferred_ip4 is Some ==> other.preferred_ip4 != m.preferred_ip4
            &&& m.preferred_ip6 is Some ==> other.preferred_ip6 != m.preferred_ip6
        }
}

/// A network that conforms.
pub open spec fn conforms(
    n: NetworkView,
    max_lanes: u8,
    resolved: Seq<(Seq<char>, Seq<IpAddr>)>,
) -> bool {
    let all = n.everyone();
    &&& settings_fit(n.settings, max_lanes)
    &&& exists|i: int| 0 <= i < n.cidrs.len() && (#[trigger] n.cidrs[i]).addr is V4
    &&& disjoint(n.cidrs)
    &&& forall|i: int| 0 <= i < n.pools.len() ==> inside_one(n.cidrs, (#[trigger] n.pools[i]).1)
    &&& forall|i: int, j: int|
        0 <= i < j < n.pools.len() ==> !(#[trigger] n.pools[i]).1.meets((#[trigger] n.pools[j]).1)
    &&& forall|i: int, j: int|
        0 <= i < n.clients.len() && 0 <= j < n.relays.len() ==> (#[trigger] n.clients[i]).0 != (
        #[trigger] n.relays[j]).0
    &&& forall|i: int|
        0 <= i < n.relays.len() ==> no_default((#[trigger] n.relays[i]).1.allowed_cidrs)
            && no_default(n.relays[i].1.local_cidrs)
    &&& forall|k: int|
        0 <= k < all.len() ==> {
            let (name, m, role) = #[trigger] all[k];
            &&& asks_fit(n, all.take(k), m)
            &&& role == Role::Client ==> client_fits(m)
            &&& role == Role::Relay ==> relay_fits(n, name, m, resolved)
        }
}

proof fn lemma_assoc_has<T>(s: Seq<(Seq<char>, T)>, name: Seq<char>, k: int)
    requires
        0 <= k < s.len(),
        s[k].0 == name,
    ensures
        assoc(s, name) is Some,
    decreases s.len(),
{
    let d = s.drop_last();
    if k < d.len() {
        assert(d[k] == s[k]);
        lemma_assoc_has(d, name, k);
    }
}

proof fn lemma_overlap_with_none(a: IpNet, rest: Seq<IpNet>)
    requires
        forall|j: int| 0 <= j < rest.len() ==> !a.meets(#[trigger] rest[j]),
    ensures
        overlap_with(a, rest) is None,
    decreases rest.len(),
{
    if rest.len() > 0 {
        let d = rest.drop_first();
        assert forall|j: int| 0 <= j < d.len() implies !a.meets(#[trigger] d[j]) by {
            assert(d[j] == rest[j + 1]);
        }
        assert(!a.meets(rest[0]));
        lemma_overlap_with_none(a, d);
    }
}

proof fn lemma_overlap_pair_none(s: Seq<IpNet>)
    requires
        disjoint(s),
    ensures
        overlap_pair(s) is None,
    decreases s.len(),
{
    if s.len() > 0 {
        let d = s.drop_first();
        assert forall|i: int, j: int| 0 <= i < j < d.len() implies !(#[trigger] d[i]).meets(
            #[trigger] d[j],
        ) by {
            assert(d[i] == s[i + 1] && d[j] == s[j + 1]);
        }
        assert forall|j: int| 0 <= j < d.len() implies !s[0].meets(#[trigger] d[j]) by {
            assert(d[j] == s[j + 1]);
        }
        lemma_overlap_with_none(s[0], d);
        lemma_overlap_pair_none(d);
    }
}

proof fn lemma_pool_outside_none(cidrs: Seq<IpNet>, pools: Seq<(Seq<char>, IpNet)>)
    requires
        forall|i: int| 0 <= i < pools.len() ==> inside_one(cidrs, (#[trigger] pools[i]).1),
    ensures
        pool_outside(cidrs, pools) is None,
    decreases pools.len(),
{
    if pools.len() > 0 {
        let d = pools.drop_first();
        assert forall|i: int| 0 <= i < d.len() implies inside_one(cidrs, (#[trigger] d[i]).1) by {
            assert(d[i] == pools[i + 1]);
        }
        assert(inside_one(cidrs, pools[0].1));
        lemma_pool_outside_none(cidrs, d);
    }
}

proof fn lemma_pool_overlap_with_none(a: IpNet, rest: Seq<(Seq<char>, IpNet)>)
    requires
        forall|j: int| 0 <= j < rest.len() ==> !a.meets((#[trigger] rest[j]).1),
    ensures
        pool_overlap_with(a, rest) is None,
    decreases rest.len(),
{
    if rest.len() > 0 {
        let d = rest.drop_first();
        assert forall|j: int| 0 <= j < d.len() implies !a.meets((#[trigger] d[j]).1) by {
            assert(d[j] == rest[j + 1]);
        }
        assert(!a.meets(rest[0].1));
        lemma_pool_overlap_with_none(a, d);
    }
}

proof fn lemma_pool_overlap_pair_none(s: Seq<(Seq<char>, IpNet)>)
    requires
        forall|i: int, j: int|
            0 <= i < j < s.len() ==> !(#[trigger] s[i]).1.meets((#[trigger] s[j]).1),
    ensures
        pool_overlap_pair(s) is None,
    decreases s.len(),
{
    if s.len() > 0 {
        let d = s.drop_first();
        assert forall|i: int, j: int| 0 <= i < j < d.len() implies !(#[trigger] d[i]).1.meets(
            (#[trigger] d[j]).1,
        ) by {
            assert(d[i] == s[i + 1] && d[j] == s[j + 1]);
        }
        assert forall|j: int| 0 <= j < d.len() implies !s[0].1.meets((#[trigger] d[j]).1) by {
            assert(d[j] == s[j + 1]);
        }
        lemma_pool_overlap_with_none(s[0].1, d);
        lemma_pool_overlap_pair_none(d);
    }
}

proof fn lemma_both_roles_none(
    clients: Seq<(Seq<char>, MemberView)>,
    relays: Seq<(Seq<char>, MemberView)>,
)
    requires
        forall|i: int, j: int|
            0 <= i < clients.len() && 0 <= j < relays.len() ==> (#[trigger] clients[i]).0 != (
            #[trigger] relays[j]).0,
    ensures
        both_roles(clients, relays) is None,
    decreases clients.len(),
{
    if clients.len() > 0 {
        let d = clients.drop_first();
        assert forall|i: int, j: int| 0 <= i < d.len() && 0 <= j < relays.len() implies (
        #[trigger] d[i]).0 != (#[trigger] relays[j]).0 by {
            assert(d[i] == clients[i + 1]);
        }
        assert forall|j: int| 0 <= j < relays.len() implies (#[trigger] relays[j]).0
            != clients[0].0 by {}
        lemma_assoc_none(relays, clients[0].0);
        lemma_both_roles_none(d, relays);
    }
}

proof fn lemma_first_default_none(v: Seq<IpNet>)
    requires
        no_default(v),
    ensures
        first_default(v) is None,
    decreases v.len(),
{
    if v.len() > 0 {
        let d = v.drop_first();
        assert forall|i: int| 0 <= i < d.len() implies (#[trigger] d[i]).prefix_len > 0 by {
            assert(d[i] == v[i + 1]);
        }
        assert(v[0].prefix_len > 0);
        lemma_first_default_none(d);
    }
}

proof fn lemma_defaults_none(relays: Seq<(Seq<char>, MemberView)>)
    requires
        forall|i: int|
            0 <= i < relays.len() ==> no_default((#[trigger] relays[i]).1.allowed_cidrs)
                && no_default(relays[i].1.local_cidrs),
    ensures
        defaults_problem(relays) is None,
    decreases relays.len(),
{
    if relays.len() > 0 {
        let d = relays.drop_first();
        assert forall|i: int| 0 <= i < d.len() implies no_default(
            (#[trigger] d[i]).1.allowed_cidrs,
        ) && no_default(d[i].1.local_cidrs) by {
            assert(d[i] == relays[i + 1]);
        }
        assert(no_default(relays[0].1.allowed_cidrs) && no_default(relays[0].1.local_cidrs));
        lemma_first_default_none(relays[0].1.allowed_cidrs);
        lemma_first_default_none(relays[0].1.local_cidrs);
        lemma_defaults_none(d);
    }
}

proof fn lemma_relay_ips_none(
    n: NetworkView,
    name: Seq<char>,
    addr: Seq<char>,
    ips: Seq<IpAddr>,
)
    requires
        forall|i: int| 0 <= i < ips.len() ==> dialable(n, #[trigger] ips[i]),
    ensures
        relay_ips_problem(n, name, addr, ips) is None,
    decreases ips.len(),
{
    if ips.len() > 0 {
        let d = ips.drop_first();
        assert forall|i: int| 0 <= i < d.len() implies dialable(n, #[trigger] d[i]) by {
            assert(d[i] == ips[i + 1]);
        }
        let ip = ips[0];
        assert(dialable(n, ip));
        assert(none_has(n.cidrs, ip) ==> !any_has(n.cidrs, ip));
        assert(nobody_routes(n.relays, ip) ==> !routed_lan_has(n.relays, ip));
        assert(nobody_routes(n.clients, ip) ==> !routed_lan_has(n.clients, ip));
        assert(relay_ip_problem(n, name, addr, ip) is None);
        lemma_relay_ips_none(n, name, addr, d);
    }
}

proof fn lemma_clash_none(mine: Seq<IpNet>, other: Seq<IpNet>)
    requires
        apart(mine, other),
    ensures
        clash(mine, other) is None,
    decreases mine.len(),
{
    if mine.len() > 0 {
        let d = mine.drop_first();
        assert forall|i: int, j: int| 0 <= i < d.len() && 0 <= j < other.len() implies !(
        #[trigger] d[i]).meets(#[trigger] other[j]) by {
            assert(d[i] == mine[i + 1]);
        }
        assert forall|j: int| 0 <= j < other.len() implies !mine[0].meets(#[trigger] other[j]) by {}
        lemma_overlap_with_none(mine[0], other);
        lemma_clash_none(d, other);
    }
}

proof fn lemma_partial_overlap_none(a: IpNet, rest: Seq<IpNet>)
    requires
        forall|j: int|
            0 <= j < rest.len() && a.meets(#[trigger] rest[j]) ==> a.truncated()
                == rest[j].truncated(),
    ensures
        partial_overlap(a, rest) is None,
    decreases rest.len(),
{
    if rest.len() > 0 {
        let d = rest.drop_first();
        assert forall|j: int| 0 <= j < d.len() && a.meets(#[trigger] d[j]) implies a.truncated()
            == d[j].truncated() by {
            assert(d[j] == rest[j + 1]);
        }
        assert(a.meets(rest[0]) ==> a.truncated() == rest[0].truncated());
        lemma_partial_overlap_none(a, d);
    }
}

/// Nobody else of the list has a prefix that overlaps `a` in part.
pub open spec fn unrivalled(
    name: Seq<char>,
    a: IpNet,
    others: Seq<(Seq<char>, MemberView)>,
) -> bool {
    forall|k: int|
        0 <= k < others.len() && (#[trigger] others[k]).0 != name ==> partial_overlap(
            a,
            others[k].1.local_cidrs,
        ) is None
}

proof fn lemma_rival_none(name: Seq<char>, a: IpNet, others: Seq<(Seq<char>, MemberView)>)
    requires
        unrivalled(name, a, others),
    ensures
        rival_with(name, a, others) is None,
    decreases others.len(),
{
    if others.len() > 0 {
        let d = others.drop_first();
        assert forall|k: int| 0 <= k < d.len() && (#[trigger] d[k]).0 != name implies
            partial_overlap(a, d[k].1.local_cidrs) is None by {
            assert(d[k] == others[k + 1]);
        }
        assert(others[0].0 != name ==> partial_overlap(a, others[0].1.local_cidrs) is None);
        lemma_rival_none(name, a, d);
    }
}

proof fn lemma_rivalry_none(
    name: Seq<char>,
    mine: Seq<IpNet>,
    others: Seq<(Seq<char>, MemberView)>,
)
    requires
        forall|i: int| 0 <= i < mine.len() ==> unrivalled(name, #[trigger] mine[i], others),
    ensures
        rivalry(name, mine, others) is None,
    decreases mine.len(),
{
    if mine.len() > 0 {
        let d = mine.drop_first();
        assert forall|i: int| 0 <= i < d.len() implies unrivalled(
            name,
            #[trigger] d[i],
            others,
        ) by {
            assert(d[i] == mine[i + 1]);
        }
        assert(unrivalled(name, mine[0], others));
        lemma_rival_none(name, mine[0], others);
        lemma_rivalry_none(name, d, others);
    }
}

proof fn lemma_relay_fits(
    n: NetworkView,
    name: Seq<char>,
    m: MemberView,
    resolved: Seq<(Seq<char>, Seq<IpAddr>)>,
)
    requires
        relay_fits(n, name, m, resolved),
    ensures
        relay_addr_problem(n, name, m.relay_addr->0, resolved) is None,
        relay_cidrs_problem(n, name, m) is None,
{
    let addr = m.relay_addr->0;
    let (host, port) = split_last(addr, ':')->0;
    lemma_relay_ips_none(n, name, addr, host_addresses(bare_host(host), resolved));
    lemma_clash_none(m.allowed_cidrs, n.cidrs);
    lemma_clash_none(m.local_cidrs, n.cidrs);
    assert forall|i: int| 0 <= i < m.local_cidrs.len() implies unrivalled(
        name,
        #[trigger] m.local_cidrs[i],
        n.relays,
    ) by {
        let a = m.local_cidrs[i];
        assert forall|k: int| 0 <= k < n.relays.len() && (#[trigger] n.relays[k]).0
            != name implies partial_overlap(a, n.relays[k].1.local_cidrs) is None by {
            let b = n.relays[k].1.local_cidrs;
            assert(same_or_apart(m.local_cidrs, b));
            assert forall|j: int| 0 <= j < b.len() && a.meets(#[trigger] b[j]) implies a.truncated()
                == b[j].truncated() by {
                assert(m.local_cidrs[i].meets(b[j]));
            }
            lemma_partial_overlap_none(a, b);
        }
    }
    lemma_rivalry_none(name, m.local_cidrs, n.relays);
}

proof fn lemma_prefers_none(
    before: Seq<(Seq<char>, MemberView, Role)>,
    ip4: Option<u32>,
    ip6: Option<u128>,
)
    requires
        forall|j: int|
            0 <= j < before.len() ==> {
                let other = (#[trigger] before[j]).1;
                &&& ip4 is Some ==> other.preferred_ip4 != ip4
                &&& ip6 is Some ==> other.preferred_ip6 != ip6
            },
    ensures
        ip4 is Some ==> prefers4(before, ip4->0) is None,
        ip6 is Some ==> prefers6(before, ip6->0) is None,
    decreases before.len(),
{
    if before.len() > 0 {
        let d = before.drop_last();
        assert forall|j: int| 0 <= j < d.len() implies {
            let other = (#[trigger] d[j]).1;
            &&& ip4 is Some ==> other.preferred_ip4 != ip4
            &&& ip6 is Some ==> other.preferred_ip6 != ip6
        } by {
            assert(d[j] == before[j]);
        }
        assert(before[before.len() - 1] == before.last());
        lemma_prefers_none(d, ip4, ip6);
    }
}

proof fn lemma_member_fits(
    n: NetworkView,
    before: Seq<(Seq<char>, MemberView, Role)>,
    name: Seq<char>,
    m: MemberView,
    role: Role,
    resolved: Seq<(Seq<char>, Seq<IpAddr>)>,
)
    requires
        asks_fit(n, before, m),
        role == Role::Client ==> client_fits(m),
        role == Role::Relay ==> relay_fits(n, name, m, resolved),
    ensures
        member_problem(n, before, name, m, role, resolved) is None,
{
    if role == Role::Relay {
        lemma_relay_fits(n, name, m, resolved);
    }
    if let Some(pool) = m.pool {
        let k = choose|k: int| 0 <= k < n.pools.len() && (#[trigger] n.pools[k]).0 == pool;
        lemma_assoc_has(n.pools, pool, k);
    }
    lemma_prefers_none(before, m.preferred_ip4, m.preferred_ip6);
    assert(preferred_problem(n, before, name, m) is None);
}

proof fn lemma_members_none(
    n: NetworkView,
    max_lanes: u8,
    k: int,
    resolved: Seq<(Seq<char>, Seq<IpAddr>)>,
)
    requires
        conforms(n, max_lanes, resolved),
        0 <= k <= n.everyone().len(),
    ensures
        members_problem(n, k, resolved) is None,
    decreases n.everyone().len() - k,
{
    let all = n.everyone();
    if k < all.len() {
        let (name, m, role) = all[k];
        assert(asks_fit(n, all.take(k), m));
        lemma_member_fits(n, all.take(k), name, m, role, resolved);
        lemma_members_none(n, max_lanes, k + 1, resolved);
    }
}

/// A network whose settings are in range, whose ranges are disjoint and one of
/// them IPv4, whose pools lie inside them apart from each other, whose members
/// have one role each and ask for what can be had, and whose relays can be
/// dialed from outside and route what neither the tunnel nor, in part, another
/// relay has, is accepted.
pub proof fn law_a_conforming_network_is_accepted(
    n: NetworkView,
    max_lanes: u8,
    resolved: Seq<(Seq<char>, Seq<IpAddr>)>,
)
    requires
        conforms(n, max_lanes, resolved),
    ensures
        network_problem(n, max_lanes, resolved) is None,
{
    let i = choose|i: int| 0 <= i < n.cidrs.len() && (#[trigger] n.cidrs[i]).addr is V4;
    crate::config::law_the_first_range_of_a_family_counts(n.cidrs, true);
    assert(settings_problem(n, max_lanes) is None);
    lemma_overlap_pair_none(n.cidrs);
    assert(n.ipv4() is Some);
    assert(cidrs_problem(n) is None);
    lemma_pool_outside_none(n.cidrs, n.pools);
    lemma_pool_overlap_pair_none(n.pools);
    assert(pools_problem(n) is None);
    lemma_both_roles_none(n.clients, n.relays);
    assert(roles_problem(n) is None);
    lemma_defaults_none(n.relays);
    lemma_members_none(n, max_lanes, 0, resolved);
}

/// The settings of a network that is accepted are in range.
pub proof fn law_accepted_settings_are_in_range(
    n: NetworkView,
    max_lanes: u8,
    resolved: Seq<(Seq<char>, Seq<IpAddr>)>,
)
    requires
        network_problem(n, max_lanes, resolved) is None,
    ensures
        n.settings.relay_reachability == "off"@ || n.settings.relay_reachability == "warn"@
            || n.settings.relay_reachability == "deny"@,
        n.settings.transport == "datagram"@ || n.settings.transport == "stream"@,
        0 < n.settings.lanes <= max_lanes,
        n.settings.credential_ttl_mins > 0,
        n.settings.heartbeat_secs > 0,
        n.settings.offline_after > 0,
        1280 <= n.settings.mtu <= 9000,
{
}

/// Which addresses nobody is dialed at: those of the machine itself, of no
/// machine, of many, of the link alone, and what IPv4 sets aside for "this
/// network" and for everyone.
pub proof fn law_where_nobody_is_dialed(a: u32, b: u128)
    ensures
        IpAddr::V4(a).loopback() <==> a as nat / 0x100_0000 == 127,
        IpAddr::V6(b).loopback() <==> b == 1,
        IpAddr::V4(a).unroutable() <==> {
            ||| a as nat / 0x100_0000 == 0
            ||| a as nat / 0x100_0000 == 127
            ||| a as nat / 0x1_0000 == 0xa9fe
            ||| a as nat / 0x1000_0000 == 14
            ||| a == 0xffff_ffff
        },
        IpAddr::V6(b).unroutable() <==> {
            ||| b == 0
            ||| b == 1
            ||| 0xfe80_0000_0000_0000_0000_0000_0000_0000 <= b
                < 0xfec0_0000_0000_0000_0000_0000_0000_0000
            ||| b >= 0xff00_0000_0000_0000_0000_0000_0000_0000
        },
{
}

} // verus!
