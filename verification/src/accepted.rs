//! What holds of every network configuration that validation accepts.

use vstd::prelude::*;

use crate::config::{assoc, MemberView, NetworkView};
use crate::net::{IpAddr, IpNet};
use crate::proto::Role;
use crate::text::{number_read, split_last, trimmed};
use crate::validate::{
    any_has, bare_host, both_roles, clash, host_addresses, inside_one, member_problem,
    members_problem, network_problem, overlap_pair, overlap_with, partial_overlap,
    pool_outside, pool_overlap_pair, pool_overlap_with, prefers4, prefers6, relay_ip_problem,
    relay_ips_problem, rival_with, rivalry, routed_lan_has,
};

verus! {

/// Validation finds nothing wrong.
pub open spec fn accepted(
    n: NetworkView,
    max_lanes: u8,
    resolved: Seq<(Seq<char>, Seq<IpAddr>)>,
) -> bool {
    network_problem(n, max_lanes, resolved) is None
}

proof fn lemma_no_overlap_with(a: IpNet, rest: Seq<IpNet>)
    requires
        overlap_with(a, rest) is None,
    ensures
        forall|j: int| 0 <= j < rest.len() ==> !a.meets(#[trigger] rest[j]),
    decreases rest.len(),
{
    if rest.len() > 0 {
        let d = rest.drop_first();
        lemma_no_overlap_with(a, d);
        assert forall|j: int| 0 <= j < rest.len() implies !a.meets(#[trigger] rest[j]) by {
            if j > 0 {
                assert(d[j - 1] == rest[j]);
            }
        }
    }
}

proof fn lemma_no_overlap_pair(s: Seq<IpNet>)
    requires
        overlap_pair(s) is None,
    ensures
        forall|i: int, j: int|
            0 <= i < j < s.len() ==> !(#[trigger] s[i]).meets(#[trigger] s[j]),
    decreases s.len(),
{
    if s.len() > 0 {
        let d = s.drop_first();
        lemma_no_overlap_with(s[0], d);
        lemma_no_overlap_pair(d);
        assert forall|i: int, j: int| 0 <= i < j < s.len() implies !(#[trigger] s[i]).meets(
            #[trigger] s[j],
        ) by {
            assert(d[j - 1] == s[j]);
            if i > 0 {
                assert(d[i - 1] == s[i]);
            }
        }
    }
}

proof fn lemma_no_pool_outside(cidrs: Seq<IpNet>, pools: Seq<(Seq<char>, IpNet)>)
    requires
        pool_outside(cidrs, pools) is None,
    ensures
        forall|i: int| 0 <= i < pools.len() ==> inside_one(cidrs, (#[trigger] pools[i]).1),
    decreases pools.len(),
{
    if pools.len() > 0 {
        let d = pools.drop_first();
        lemma_no_pool_outside(cidrs, d);
        assert forall|i: int| 0 <= i < pools.len() implies inside_one(
            cidrs,
            (#[trigger] pools[i]).1,
        ) by {
            if i > 0 {
                assert(d[i - 1] == pools[i]);
            }
        }
    }
}

proof fn lemma_no_pool_overlap_with(a: IpNet, rest: Seq<(Seq<char>, IpNet)>)
    requires
        pool_overlap_with(a, rest) is None,
    ensures
        forall|j: int| 0 <= j < rest.len() ==> !a.meets((#[trigger] rest[j]).1),
    decreases rest.len(),
{
    if rest.len() > 0 {
        let d = rest.drop_first();
        lemma_no_pool_overlap_with(a, d);
        assert forall|j: int| 0 <= j < rest.len() implies !a.meets((#[trigger] rest[j]).1) by {
            if j > 0 {
                assert(d[j - 1] == rest[j]);
            }
        }
    }
}

proof fn lemma_no_pool_overlap(s: Seq<(Seq<char>, IpNet)>)
    requires
        pool_overlap_pair(s) is None,
    ensures
        forall|i: int, j: int|
            0 <= i < j < s.len() ==> !(#[trigger] s[i]).1.meets((#[trigger] s[j]).1),
    decreases s.len(),
{
    if s.len() > 0 {
        let d = s.drop_first();
        lemma_no_pool_overlap_with(s[0].1, d);
        lemma_no_pool_overlap(d);
        assert forall|i: int, j: int| 0 <= i < j < s.len() implies !(#[trigger] s[i]).1.meets(
            (#[trigger] s[j]).1,
        ) by {
            assert(d[j - 1] == s[j]);
            if i > 0 {
                assert(d[i - 1] == s[i]);
            }
        }
    }
}

/// In an accepted network the tunnel ranges are disjoint and one of them is
/// IPv4; every pool lies inside one of them; and no two pools share an
/// address.
pub proof fn law_accepted_ranges_are_disjoint(
    n: NetworkView,
    max_lanes: u8,
    resolved: Seq<(Seq<char>, Seq<IpAddr>)>,
)
    requires
        accepted(n, max_lanes, resolved),
    ensures
        n.ipv4() is Some,
        forall|i: int, j: int|
            0 <= i < j < n.cidrs.len() ==> !(#[trigger] n.cidrs[i]).meets(#[trigger] n.cidrs[j]),
        forall|i: int| 0 <= i < n.pools.len() ==> inside_one(n.cidrs, (#[trigger] n.pools[i]).1),
        forall|i: int, j: int|
            0 <= i < j < n.pools.len() ==> !(#[trigger] n.pools[i]).1.meets(
                (#[trigger] n.pools[j]).1,
            ),
{
    lemma_no_overlap_pair(n.cidrs);
    lemma_no_pool_outside(n.cidrs, n.pools);
    lemma_no_pool_overlap(n.pools);
}

proof fn lemma_one_role(
    clients: Seq<(Seq<char>, MemberView)>,
    relays: Seq<(Seq<char>, MemberView)>,
)
    requires
        both_roles(clients, relays) is None,
    ensures
        forall|i: int|
            0 <= i < clients.len() ==> assoc(relays, (#[trigger] clients[i]).0) is None,
    decreases clients.len(),
{
    if clients.len() > 0 {
        let d = clients.drop_first();
        lemma_one_role(d, relays);
        assert forall|i: int| 0 <= i < clients.len() implies assoc(
            relays,
            (#[trigger] clients[i]).0,
        ) is None by {
            if i > 0 {
                assert(d[i - 1] == clients[i]);
            }
        }
    }
}

/// In an accepted network no member is both a client and a relay.
pub proof fn law_a_member_has_one_role(
    n: NetworkView,
    max_lanes: u8,
    resolved: Seq<(Seq<char>, Seq<IpAddr>)>,
)
    requires
        accepted(n, max_lanes, resolved),
    ensures
        forall|i: int|
            0 <= i < n.clients.len() ==> assoc(n.relays, (#[trigger] n.clients[i]).0) is None,
{
    lemma_one_role(n.clients, n.relays);
}

proof fn lemma_members_pass(
    n: NetworkView,
    k: int,
    i: int,
    resolved: Seq<(Seq<char>, Seq<IpAddr>)>,
)
    requires
        0 <= k <= i < n.everyone().len(),
        members_problem(n, k, resolved) is None,
    ensures
        ({
            let all = n.everyone();
            member_problem(n, all.take(i), all[i].0, all[i].1, all[i].2, resolved) is None
        }),
    decreases i - k,
{
    if k < i {
        lemma_members_pass(n, k + 1, i, resolved);
    }
}

/// In an accepted network a client carries no relay's field.
pub proof fn law_a_client_carries_no_relay_field(
    n: NetworkView,
    max_lanes: u8,
    resolved: Seq<(Seq<char>, Seq<IpAddr>)>,
    i: int,
)
    requires
        accepted(n, max_lanes, resolved),
        0 <= i < n.clients.len(),
    ensures
        n.clients[i].1.relay_addr is None,
        n.clients[i].1.allowed_cidrs.len() == 0,
        n.clients[i].1.local_cidrs.len() == 0,
        n.clients[i].1.internet_gateway != Some(true),
{
    let all = n.everyone();
    assert(all[i] == (n.clients[i].0, n.clients[i].1, Role::Client));
    lemma_members_pass(n, 0, i, resolved);
}

proof fn lemma_defaults_pass(relays: Seq<(Seq<char>, MemberView)>, i: int)
    requires
        crate::validate::defaults_problem(relays) is None,
        0 <= i < relays.len(),
    ensures
        crate::validate::default_problem(relays[i].0, relays[i].1) is None,
    decreases relays.len(),
{
    if i > 0 {
        assert(relays.drop_first()[i - 1] == relays[i]);
        lemma_defaults_pass(relays.drop_first(), i - 1);
    }
}

proof fn lemma_relay_passes(
    n: NetworkView,
    max_lanes: u8,
    resolved: Seq<(Seq<char>, Seq<IpAddr>)>,
    i: int,
)
    requires
        accepted(n, max_lanes, resolved),
        0 <= i < n.relays.len(),
    ensures
        n.relays[i].1.relay_addr is Some,
        crate::validate::relay_addr_problem(
            n,
            n.relays[i].0,
            n.relays[i].1.relay_addr->0,
            resolved,
        ) is None,
        crate::validate::default_problem(n.relays[i].0, n.relays[i].1) is None,
        crate::validate::relay_cidrs_problem(n, n.relays[i].0, n.relays[i].1) is None,
{
    let all = n.everyone();
    let k = n.clients.len() + i;
    assert(all[k] == (n.relays[i].0, n.relays[i].1, Role::Relay));
    lemma_members_pass(n, 0, k, resolved);
    lemma_defaults_pass(n.relays, i);
}

proof fn lemma_ips_pass(
    n: NetworkView,
    name: Seq<char>,
    addr: Seq<char>,
    ips: Seq<IpAddr>,
    j: int,
)
    requires
        relay_ips_problem(n, name, addr, ips) is None,
        0 <= j < ips.len(),
    ensures
        relay_ip_problem(n, name, addr, ips[j]) is None,
    decreases ips.len(),
{
    if j > 0 {
        assert(ips.drop_first()[j - 1] == ips[j]);
        lemma_ips_pass(n, name, addr, ips.drop_first(), j - 1);
    }
}

/// In an accepted network a relay's address is `host:port`, and every
/// address that its host stands for can be reached from outside: it is
/// routable and lies neither in the tunnel nor behind a relay. The one
/// exception is a loopback address where the settings allow it.
pub proof fn law_a_relay_can_be_reached_from_outside(
    n: NetworkView,
    max_lanes: u8,
    resolved: Seq<(Seq<char>, Seq<IpAddr>)>,
    i: int,
    ip: IpAddr,
)
    requires
        accepted(n, max_lanes, resolved),
        0 <= i < n.relays.len(),
    ensures
        n.relays[i].1.relay_addr matches Some(addr) && split_last(addr, ':') matches Some(
            (host, port),
        ) && number_read(port, 65535) is Some && (host_addresses(
            bare_host(host),
            resolved,
        ).contains(ip) ==> {
            ||| n.settings.allow_loopback_relays && ip.loopback()
            ||| !ip.unroutable() && !any_has(n.cidrs, ip) && !routed_lan_has(n.relays, ip)
                && !routed_lan_has(n.clients, ip)
        }),
{
    lemma_relay_passes(n, max_lanes, resolved, i);
    let addr = n.relays[i].1.relay_addr->0;
    let (host, port) = split_last(addr, ':')->0;
    let ips = host_addresses(bare_host(host), resolved);
    if ips.contains(ip) {
        let j = choose|j: int| 0 <= j < ips.len() && ips[j] == ip;
        lemma_ips_pass(n, n.relays[i].0, addr, ips, j);
    }
}

proof fn lemma_no_clash(mine: Seq<IpNet>, other: Seq<IpNet>)
    requires
        clash(mine, other) is None,
    ensures
        forall|i: int, j: int|
            0 <= i < mine.len() && 0 <= j < other.len() ==> !(#[trigger] mine[i]).meets(
                #[trigger] other[j],
            ),
    decreases mine.len(),
{
    if mine.len() > 0 {
        let d = mine.drop_first();
        lemma_no_overlap_with(mine[0], other);
        lemma_no_clash(d, other);
        assert forall|i: int, j: int|
            0 <= i < mine.len() && 0 <= j < other.len() implies !(#[trigger] mine[i]).meets(
            #[trigger] other[j],
        ) by {
            if i > 0 {
                assert(d[i - 1] == mine[i]);
            }
        }
    }
}

/// In an accepted network nothing that a relay routes, or may route, shares
/// an address with the tunnel.
pub proof fn law_routed_prefixes_stay_out_of_the_tunnel(
    n: NetworkView,
    max_lanes: u8,
    resolved: Seq<(Seq<char>, Seq<IpAddr>)>,
    i: int,
)
    requires
        accepted(n, max_lanes, resolved),
        0 <= i < n.relays.len(),
    ensures
        forall|a: int, b: int|
            0 <= a < n.relays[i].1.allowed_cidrs.len() && 0 <= b < n.cidrs.len()
                ==> !(#[trigger] n.relays[i].1.allowed_cidrs[a]).meets(#[trigger] n.cidrs[b]),
        forall|a: int, b: int|
            0 <= a < n.relays[i].1.local_cidrs.len() && 0 <= b < n.cidrs.len()
                ==> !(#[trigger] n.relays[i].1.local_cidrs[a]).meets(#[trigger] n.cidrs[b]),
{
    lemma_relay_passes(n, max_lanes, resolved, i);
    lemma_no_clash(n.relays[i].1.allowed_cidrs, n.cidrs);
    lemma_no_clash(n.relays[i].1.local_cidrs, n.cidrs);
}

proof fn lemma_no_default(v: Seq<IpNet>, i: int)
    requires
        crate::validate::first_default(v) is None,
        0 <= i < v.len(),
    ensures
        v[i].prefix_len > 0,
    decreases v.len(),
{
    if i > 0 {
        assert(v.drop_first()[i - 1] == v[i]);
        lemma_no_default(v.drop_first(), i - 1);
    }
}

/// In an accepted network no relay routes a default route like a site.
pub proof fn law_a_default_is_not_routed_like_a_site(
    n: NetworkView,
    max_lanes: u8,
    resolved: Seq<(Seq<char>, Seq<IpAddr>)>,
    i: int,
)
    requires
        accepted(n, max_lanes, resolved),
        0 <= i < n.relays.len(),
    ensures
        forall|a: int|
            0 <= a < n.relays[i].1.allowed_cidrs.len() ==> (
            #[trigger] n.relays[i].1.allowed_cidrs[a]).prefix_len > 0,
        forall|a: int|
            0 <= a < n.relays[i].1.local_cidrs.len() ==> (
            #[trigger] n.relays[i].1.local_cidrs[a]).prefix_len > 0,
{
    lemma_relay_passes(n, max_lanes, resolved, i);
    let m = n.relays[i].1;
    assert forall|a: int| 0 <= a < m.allowed_cidrs.len() implies (
    #[trigger] m.allowed_cidrs[a]).prefix_len > 0 by {
        lemma_no_default(m.allowed_cidrs, a);
    }
    assert forall|a: int| 0 <= a < m.local_cidrs.len() implies (
    #[trigger] m.local_cidrs[a]).prefix_len > 0 by {
        lemma_no_default(m.local_cidrs, a);
    }
}

proof fn lemma_no_partial_overlap(a: IpNet, rest: Seq<IpNet>, j: int)
    requires
        partial_overlap(a, rest) is None,
        0 <= j < rest.len(),
    ensures
        a.meets(rest[j]) ==> a.truncated() == rest[j].truncated(),
    decreases rest.len(),
{
    if j > 0 {
        assert(rest.drop_first()[j - 1] == rest[j]);
        lemma_no_partial_overlap(a, rest.drop_first(), j - 1);
    }
}

proof fn lemma_no_rival(name: Seq<char>, a: IpNet, others: Seq<(Seq<char>, MemberView)>, k: int)
    requires
        rival_with(name, a, others) is None,
        0 <= k < others.len(),
        others[k].0 != name,
    ensures
        partial_overlap(a, others[k].1.local_cidrs) is None,
    decreases others.len(),
{
    if k > 0 {
        assert(others.drop_first()[k - 1] == others[k]);
        lemma_no_rival(name, a, others.drop_first(), k - 1);
    }
}

proof fn lemma_no_rivalry(
    name: Seq<char>,
    mine: Seq<IpNet>,
    others: Seq<(Seq<char>, MemberView)>,
    a: int,
)
    requires
        rivalry(name, mine, others) is None,
        0 <= a < mine.len(),
    ensures
        rival_with(name, mine[a], others) is None,
    decreases mine.len(),
{
    if a > 0 {
        assert(mine.drop_first()[a - 1] == mine[a]);
        lemma_no_rivalry(name, mine.drop_first(), others, a - 1);
    }
}

/// In an accepted network two relays either route the same prefix, one as
/// the other's standby, or prefixes that share no address.
pub proof fn law_relays_share_a_prefix_or_nothing(
    n: NetworkView,
    max_lanes: u8,
    resolved: Seq<(Seq<char>, Seq<IpAddr>)>,
    i: int,
    k: int,
    a: int,
    b: int,
)
    requires
        accepted(n, max_lanes, resolved),
        0 <= i < n.relays.len(),
        0 <= k < n.relays.len(),
        n.relays[i].0 != n.relays[k].0,
        0 <= a < n.relays[i].1.local_cidrs.len(),
        0 <= b < n.relays[k].1.local_cidrs.len(),
    ensures
        ({
            let p = n.relays[i].1.local_cidrs[a];
            let q = n.relays[k].1.local_cidrs[b];
            p.meets(q) ==> p.truncated() == q.truncated()
        }),
{
    lemma_relay_passes(n, max_lanes, resolved, i);
    let mine = n.relays[i].1.local_cidrs;
    lemma_no_rivalry(n.relays[i].0, mine, n.relays, a);
    lemma_no_rival(n.relays[i].0, mine[a], n.relays, k);
    lemma_no_partial_overlap(mine[a], n.relays[k].1.local_cidrs, b);
}

proof fn lemma_prefers4(members: Seq<(Seq<char>, MemberView, Role)>, ip: u32, j: int)
    requires
        prefers4(members, ip) is None,
        0 <= j < members.len(),
    ensures
        members[j].1.preferred_ip4 != Some(ip),
    decreases members.len(),
{
    if j < members.len() - 1 {
        assert(members.drop_last()[j] == members[j]);
        lemma_prefers4(members.drop_last(), ip, j);
    }
}

proof fn lemma_prefers6(members: Seq<(Seq<char>, MemberView, Role)>, ip: u128, j: int)
    requires
        prefers6(members, ip) is None,
        0 <= j < members.len(),
    ensures
        members[j].1.preferred_ip6 != Some(ip),
    decreases members.len(),
{
    if j < members.len() - 1 {
        assert(members.drop_last()[j] == members[j]);
        lemma_prefers6(members.drop_last(), ip, j);
    }
}

/// In an accepted network every preferred address lies in the tunnel, and
/// nobody else prefers the same one.
pub proof fn law_preferred_addresses_are_in_the_tunnel_and_single(
    n: NetworkView,
    max_lanes: u8,
    resolved: Seq<(Seq<char>, Seq<IpAddr>)>,
    i: int,
)
    requires
        accepted(n, max_lanes, resolved),
        0 <= i < n.everyone().len(),
    ensures
        n.everyone()[i].1.preferred_ip4 matches Some(a) ==> any_has(n.cidrs, IpAddr::V4(a)),
        n.everyone()[i].1.preferred_ip6 matches Some(a) ==> any_has(n.cidrs, IpAddr::V6(a)),
        forall|j: int|
            0 <= j < n.everyone().len() && j != i ==> {
                let other = (#[trigger] n.everyone()[j]).1;
                let m = n.everyone()[i].1;
                &&& m.preferred_ip4 is Some ==> other.preferred_ip4 != m.preferred_ip4
                &&& m.preferred_ip6 is Some ==> other.preferred_ip6 != m.preferred_ip6
            },
{
    let all = n.everyone();
    lemma_members_pass(n, 0, i, resolved);
    assert forall|j: int| 0 <= j < all.len() && j != i implies ({
        let other = (#[trigger] all[j]).1;
        let m = all[i].1;
        &&& m.preferred_ip4 is Some ==> other.preferred_ip4 != m.preferred_ip4
        &&& m.preferred_ip6 is Some ==> other.preferred_ip6 != m.preferred_ip6
    }) by {
        let (lo, hi) = if j < i {
            (j, i)
        } else {
            (i, j)
        };
        lemma_members_pass(n, 0, hi, resolved);
        assert(all.take(hi)[lo] == all[lo]);
        if let Some(a) = all[hi].1.preferred_ip4 {
            lemma_prefers4(all.take(hi), a, lo);
        }
        if let Some(a) = all[hi].1.preferred_ip6 {
            lemma_prefers6(all.take(hi), a, lo);
        }
    }
}

/// In an accepted network a member that is in a pool is in one of the
/// network's, and a secret that is given is not blank.
pub proof fn law_a_member_is_in_a_pool_that_there_is(
    n: NetworkView,
    max_lanes: u8,
    resolved: Seq<(Seq<char>, Seq<IpAddr>)>,
    i: int,
)
    requires
        accepted(n, max_lanes, resolved),
        0 <= i < n.everyone().len(),
    ensures
        n.everyone()[i].1.pool matches Some(pool) ==> exists|k: int|
            0 <= k < n.pools.len() && (#[trigger] n.pools[k]).0 == pool,
        n.everyone()[i].1.secret matches Some(s) ==> trimmed(s).len() > 0,
{
    lemma_members_pass(n, 0, i, resolved);
    if let Some(pool) = n.everyone()[i].1.pool {
        let k = crate::config::lemma_assoc_some(n.pools, pool);
        assert(n.pools[k].0 == pool);
    }
}

/// A relay's host stands for the address that it spells; for those that it was
/// resolved to where it is a name; and for none where it is to be found out.
pub proof fn law_a_host_stands_for_its_addresses(
    host: Seq<char>,
    resolved: Seq<(Seq<char>, Seq<IpAddr>)>,
    k: int,
)
    ensures
        host == "auto"@ ==> host_addresses(host, resolved).len() == 0,
        host != "auto"@ ==> (IpAddr::read(host) matches Some(ip) ==> host_addresses(host, resolved)
            == seq![ip]),
        host != "auto"@ && IpAddr::read(host) is None && 0 <= k < resolved.len() && resolved[k].0
            == host && (forall|j: int| 0 <= j < k ==> (#[trigger] resolved[j]).0 != host)
            ==> host_addresses(host, resolved) == resolved[k].1,
        host != "auto"@ && IpAddr::read(host) is None && (forall|j: int|
            0 <= j < resolved.len() ==> (#[trigger] resolved[j]).0 != host) ==> host_addresses(
            host,
            resolved,
        ).len() == 0,
{
    if 0 <= k < resolved.len() && resolved[k].0 == host && (forall|j: int|
        0 <= j < k ==> (#[trigger] resolved[j]).0 != host) {
        crate::config::lemma_assoc_at(resolved, host, k);
    }
    if forall|j: int| 0 <= j < resolved.len() ==> (#[trigger] resolved[j]).0 != host {
        crate::config::lemma_assoc_none(resolved, host);
    }
}

} // verus!
