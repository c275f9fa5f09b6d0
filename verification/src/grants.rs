//! What a member may count on when it is given an address.

use vstd::prelude::*;

use crate::config::{lemma_range_of, NetworkView};
use crate::error::ErrorCode;
use crate::ipam::{
    allocation, granted_view, hosts, law_a_scan_finds_a_free_address,
    law_the_longest_gone_is_reclaimed, may_lose_address, victim,
};
use crate::leases::LeasesView;
use crate::net::{lemma_family_bounds, lemma_range, IpAddr, IpNet};
use crate::proto::{NodeId, Role};
use crate::registry::{lemma_name_index_is, RecordView, RegistryView};

verus! {

/// Who asks for an address is given that one, or refused; who is configured
/// with one and asks for nothing is given that one, or refused.
pub proof fn law_a_wanted_address_is_the_one_granted(
    n: NetworkView,
    r: RegistryView,
    reclaim: Option<LeasesView>,
    now: u64,
    member: Seq<char>,
    asked4: Option<u32>,
    asked6: Option<u128>,
)
    requires
        n.member(member) is Some,
    ensures
        allocation(n, r, reclaim, now, member, asked4, asked6) matches Ok((got4, got6, _)) ==> {
            let m = (n.member(member)->0).0;
            let g = granted_view(got4, got6);
            &&& asked4 matches Some(ip) ==> g.ip4 == Some(ip)
            &&& asked6 matches Some(ip) ==> g.ip6 == Some(ip)
            &&& asked4 is None ==> (m.preferred_ip4 matches Some(ip) ==> g.ip4 == Some(ip))
            &&& asked6 is None ==> (m.preferred_ip6 matches Some(ip) ==> g.ip6 == Some(ip))
            &&& g.ip4 is Some
        },
{
}

/// An address that is wanted is refused exactly where it is no host's, lies
/// outside the tunnel space, or belongs to another: by record or by
/// configuration.
pub proof fn law_a_wanted_address_is_refused_for_cause(
    n: NetworkView,
    r: RegistryView,
    reclaim: Option<LeasesView>,
    now: u64,
    member: Seq<char>,
    ip: u32,
)
    requires
        n.member(member) matches Some((m, _)) && m.preferred_ip6 is None,
    ensures
        allocation(n, r, reclaim, now, member, Some(ip), None) is Ok <==> {
            let addr = IpAddr::V4(ip);
            &&& !addr.loopback() && !addr.unspecified() && !addr.multicast() && !addr.broadcast()
            &&& exists|c: int| 0 <= c < n.cidrs.len() && (#[trigger] n.cidrs[c]).has(addr)
            &&& forall|i: int|
                0 <= i < r.members.len() && (#[trigger] r.members[i]).name != member
                    ==> r.members[i].ip4 != Some(ip)
            &&& forall|k: int|
                0 <= k < n.everyone().len() && (#[trigger] n.everyone()[k]).0 != member
                    ==> n.everyone()[k].1.preferred_ip4 != Some(ip)
        },
        allocation(n, r, reclaim, now, member, Some(ip), None) matches Err(e) ==> e.code
            == ErrorCode::BadRequest || e.code == ErrorCode::AddressInUse,
{
    let x = ip as u128;
    assert(x as u32 == ip);
    assert forall|i: int| 0 <= i < r.members.len() implies (crate::ipam::held(
        #[trigger] r.members[i],
        true,
    ) == Some(x) <==> r.members[i].ip4 == Some(ip)) by {}
    assert forall|k: int| 0 <= k < n.everyone().len() implies (crate::ipam::configured(
        (#[trigger] n.everyone()[k]).1,
        true,
    ) == Some(x) <==> n.everyone()[k].1.preferred_ip4 == Some(ip)) by {}
    assert(crate::ipam::as_addr(x, true) == IpAddr::V4(ip));
    let taken = crate::ipam::taken(n, r.members, member, true);
    if taken.contains(x) {
        if crate::ipam::held_by_other(r.members, member, true, x) {
            let i = choose|i: int|
                0 <= i < r.members.len() && (#[trigger] r.members[i]).name != member
                    && crate::ipam::held(r.members[i], true) == Some(x);
            assert(r.members[i].ip4 == Some(ip));
        } else {
            let k = choose|k: int|
                0 <= k < n.everyone().len() && (#[trigger] n.everyone()[k]).0 != member
                    && crate::ipam::configured(n.everyone()[k].1, true) == Some(x);
            assert(n.everyone()[k].1.preferred_ip4 == Some(ip));
        }
    } else {
        assert forall|i: int|
            0 <= i < r.members.len() && (#[trigger] r.members[i]).name != member implies r.members[i].ip4
            != Some(ip) by {
            assert(!crate::ipam::held_by_other(r.members, member, true, x));
        }
        assert forall|k: int|
            0 <= k < n.everyone().len() && (#[trigger] n.everyone()[k]).0
                != member implies n.everyone()[k].1.preferred_ip4 != Some(ip) by {
            assert(!crate::ipam::reserved_for_other(n, member, true, x));
        }
    }
}

/// A member that asks for nothing and is configured with nothing keeps the
/// address on its record, while that lies in the tunnel space and is not
/// configured for another.
pub proof fn law_a_member_keeps_its_address(
    n: NetworkView,
    r: RegistryView,
    reclaim: Option<LeasesView>,
    now: u64,
    member: Seq<char>,
    k: int,
    ip: u32,
)
    requires
        n.member(member) matches Some((m, _)) && m.preferred_ip4 is None && m.preferred_ip6 is None,
        0 <= k < r.members.len(),
        r.members[k].name == member,
        forall|j: int| 0 <= j < k ==> (#[trigger] r.members[j]).name != member,
        r.members[k].ip4 == Some(ip),
        exists|c: int| 0 <= c < n.cidrs.len() && (#[trigger] n.cidrs[c]).has(IpAddr::V4(ip)),
        forall|e: int|
            0 <= e < n.everyone().len() && (#[trigger] n.everyone()[e]).0 != member
                ==> n.everyone()[e].1.preferred_ip4 != Some(ip),
    ensures
        allocation(n, r, reclaim, now, member, None, None) matches Ok((got4, got6, after)) && {
            let g = granted_view(got4, got6);
            &&& g.ip4 == Some(ip)
            &&& r.members[k].ip6 matches Some(six) ==> ((exists|c: int|
                0 <= c < n.cidrs.len() && (#[trigger] n.cidrs[c]).has(IpAddr::V6(six))) && (forall|
                e: int,
            |
                0 <= e < n.everyone().len() && (#[trigger] n.everyone()[e]).0 != member
                    ==> n.everyone()[e].1.preferred_ip6 != Some(six))) ==> g.ip6 == Some(six)
                && after == r
        },
{
    lemma_name_index_is(r.members, member, k);
    let x = ip as u128;
    assert(x as u32 == ip);
    assert(crate::ipam::as_addr(x, true) == IpAddr::V4(ip));
    assert(!crate::ipam::reserved_for_other(n, member, true, x)) by {
        if crate::ipam::reserved_for_other(n, member, true, x) {
            let e = choose|e: int|
                0 <= e < n.everyone().len() && (#[trigger] n.everyone()[e]).0 != member
                    && crate::ipam::configured(n.everyone()[e].1, true) == Some(x);
            assert(n.everyone()[e].1.preferred_ip4 == Some(ip));
        }
    }
    if let Some(six) = r.members[k].ip6 {
        if forall|e: int|
            0 <= e < n.everyone().len() && (#[trigger] n.everyone()[e]).0 != member
                ==> n.everyone()[e].1.preferred_ip6 != Some(six) {
            assert(!crate::ipam::reserved_for_other(n, member, false, six)) by {
                if crate::ipam::reserved_for_other(n, member, false, six) {
                    let e = choose|e: int|
                        0 <= e < n.everyone().len() && (#[trigger] n.everyone()[e]).0 != member
                            && crate::ipam::configured(n.everyone()[e].1, false) == Some(six);
                    assert(n.everyone()[e].1.preferred_ip6 == Some(six));
                }
            }
        }
    }
}

/// The addresses of a prefix that are handed out. In IPv4 they are all but the
/// first and the last, or all of them where there are at most two; in IPv6 all
/// but the first, as far as a scan goes.
pub proof fn law_the_hosts_of_a_prefix(net: IpNet)
    requires
        net.valid(),
    ensures
        ({
            let (count, first) = hosts(net);
            &&& (net.addr is V4) && net.prefix_len <= 30 ==> first == net.first() + 1 && first + count
                == net.last()
            &&& (net.addr is V4) && net.prefix_len >= 31 ==> first == net.first() && first + count
                == net.last() + 1
            &&& (net.addr is V6) ==> first == net.first() + 1 && first + count <= net.last() + 1 && (
            count == 100_000 || first + count == net.last() + 1)
        }),
{
    lemma_range(net);
    lemma_family_bounds(net.addr);
    if net.addr.v4() && net.prefix_len < 31 {
        vstd::arithmetic::power2::lemma_pow2_strictly_increases(1, (32 - net.prefix_len) as nat);
        vstd::arithmetic::power2::lemma2_to64();
    }
}

/// Where no address may be reclaimed, a member that asks for nothing, is
/// configured with nothing and has no record is refused only where every
/// address of its range belongs to somebody, by record or by configuration;
/// otherwise it is given one that belongs to nobody.
pub proof fn law_a_new_member_is_given_a_free_address(
    n: NetworkView,
    r: RegistryView,
    now: u64,
    member: Seq<char>,
    net: IpNet,
    free: u32,
)
    requires
        n.wf(),
        r.wf(),
        n.ipv4() is Some,
        n.member(member) matches Some((m, _)) && m.preferred_ip4 is None && m.preferred_ip6 is None,
        forall|j: int| 0 <= j < r.members.len() ==> (#[trigger] r.members[j]).name != member,
        n.range(member, true) == Some(net),
        net.first() < free < net.last(),
        forall|i: int| 0 <= i < r.members.len() ==> (#[trigger] r.members[i]).ip4 != Some(free),
        forall|e: int|
            0 <= e < n.everyone().len() ==> (#[trigger] n.everyone()[e]).1.preferred_ip4 != Some(
                free,
            ),
    ensures
        allocation(n, r, None, now, member, None, None) matches Ok((got4, got6, after)) && {
            &&& granted_view(got4, got6).ip4 matches Some(ip) && net.first() <= ip <= net.last() && (
            net.prefix_len <= 30 ==> net.first() < ip < net.last()) && (forall|i: int|
                0 <= i < r.members.len() ==> (#[trigger] r.members[i]).ip4 != Some(ip)) && (forall|
                e: int,
            |
                0 <= e < n.everyone().len() && (#[trigger] n.everyone()[e]).0 != member
                    ==> n.everyone()[e].1.preferred_ip4 != Some(ip))
            &&& after.members == r.members
        },
{
    lemma_range_of(n, member, true);
    lemma_range_of(n, member, false);
    lemma_range(net);
    lemma_family_bounds(net.addr);
    law_the_hosts_of_a_prefix(net);
    crate::registry::lemma_name_index(r.members, member);
    let taken = crate::ipam::taken(n, r.members, member, true);
    let (count, first) = hosts(net);
    let pool = crate::ipam::pool_name(n, member, true);
    let x = free as u128;
    assert(x as u32 == free);
    assert(!taken.contains(x)) by {
        if crate::ipam::held_by_other(r.members, member, true, x) {
            let i = choose|i: int|
                0 <= i < r.members.len() && (#[trigger] r.members[i]).name != member
                    && crate::ipam::held(r.members[i], true) == Some(x);
            assert(r.members[i].ip4 == Some(free));
        }
        if crate::ipam::reserved_for_other(n, member, true, x) {
            let e = choose|e: int|
                0 <= e < n.everyone().len() && (#[trigger] n.everyone()[e]).0 != member
                    && crate::ipam::configured(n.everyone()[e].1, true) == Some(x);
            assert(n.everyone()[e].1.preferred_ip4 == Some(free));
        }
    }
    law_a_scan_finds_a_free_address(
        count,
        first,
        taken,
        crate::ipam::cursor_of(r, pool, true),
    );
    let (ip, next) = crate::ipam::scan(
        count,
        first,
        taken,
        crate::ipam::cursor_of(r, pool, true),
    )->0;
    let got = ip as u32;
    assert(got as u128 == ip);
    assert forall|i: int| 0 <= i < r.members.len() implies (#[trigger] r.members[i]).ip4 != Some(
        got,
    ) by {
        if r.members[i].ip4 == Some(got) {
            assert(crate::ipam::held(r.members[i], true) == Some(ip));
            assert(crate::ipam::held_by_other(r.members, member, true, ip));
        }
    }
    assert forall|e: int|
        0 <= e < n.everyone().len() && (#[trigger] n.everyone()[e]).0
            != member implies n.everyone()[e].1.preferred_ip4 != Some(got) by {
        if n.everyone()[e].1.preferred_ip4 == Some(got) {
            assert(crate::ipam::configured(n.everyone()[e].1, true) == Some(ip));
            assert(crate::ipam::reserved_for_other(n, member, true, ip));
        }
    }
}

/// Whose address is reclaimed: a client other than the one that joins, not
/// online, declared by no relay, still configured, and either seen to leave or
/// not heard of for a liveness window; the address is not configured for
/// anybody. Of two that were seen to leave, the one that left first.
pub proof fn law_an_address_is_reclaimed_from_the_longest_gone(
    n: NetworkView,
    members: Seq<RecordView>,
    l: LeasesView,
    now: u64,
    member: Seq<char>,
    net: IpNet,
)
    requires
        net.addr is V4,
        now < u64::MAX,
        victim(n, members, l, now, member, net) is Some,
    ensures
        ({
            let v = victim(n, members, l, now, member, net)->0;
            &&& members.contains(v)
            &&& v.name != member
            &&& v.role == Role::Client
            &&& !l.last_seen.dom().contains(v.node_id)
            &&& forall|relay: NodeId|
                l.declared.dom().contains(relay) ==> !(
                #[trigger] l.declared[relay]).dom().contains(v.node_id)
            &&& n.member(v.name) is Some
            &&& l.offline_at.dom().contains(v.node_id) || (match v.last_join_unix {
                Some(t) => t,
                None => v.created_unix,
            }) + n.settings.liveness_window() <= now
            &&& v.ip4 matches Some(ip) && net.has(IpAddr::V4(ip)) && forall|e: int|
                0 <= e < n.everyone().len() ==> (#[trigger] n.everyone()[e]).1.preferred_ip4
                    != Some(ip)
            &&& forall|i: int|
                0 <= i < members.len() && may_lose_address(
                    n,
                    l,
                    now,
                    member,
                    net,
                    #[trigger] members[i],
                ) && l.offline_at.dom().contains(members[i].node_id) && l.offline_at.dom().contains(
                    v.node_id,
                ) ==> l.offline_at[v.node_id] <= l.offline_at[members[i].node_id]
        }),
{
    law_the_longest_gone_is_reclaimed(n, members, l, now, member, net);
    let v = victim(n, members, l, now, member, net)->0;
    assert forall|relay: NodeId| l.declared.dom().contains(relay) implies !(
    #[trigger] l.declared[relay]).dom().contains(v.node_id) by {
        assert(!l.holds(relay, v.node_id));
    }
    let ip = v.ip4->0;
    assert(ip as u128 as u32 == ip);
    assert forall|e: int| 0 <= e < n.everyone().len() implies (
    #[trigger] n.everyone()[e]).1.preferred_ip4 != Some(ip) by {
        if n.everyone()[e].1.preferred_ip4 == Some(ip) {
            assert(crate::ipam::configured(n.everyone()[e].1, true) == Some(ip as u128));
            assert(crate::ipam::reserved(n, true, ip as u128));
        }
    }
}

/// A new member of a network that has an IPv6 range is given an address of
/// that too, one that belongs to nobody, where one of the first hundred
/// thousand of the range does not; of a network without one it is given none.
pub proof fn law_a_new_member_is_given_both_addresses(
    n: NetworkView,
    r: RegistryView,
    now: u64,
    member: Seq<char>,
    net: IpNet,
    free: u128,
)
    requires
        n.wf(),
        r.wf(),
        n.ipv4() is Some,
        n.member(member) matches Some((m, _)) && m.preferred_ip4 is None && m.preferred_ip6 is None,
        forall|j: int| 0 <= j < r.members.len() ==> (#[trigger] r.members[j]).name != member,
        allocation(n, r, None, now, member, None, None) is Ok,
        net.first() < free <= net.last(),
        free <= net.first() + 100_000,
        forall|i: int| 0 <= i < r.members.len() ==> (#[trigger] r.members[i]).ip6 != Some(free),
        forall|e: int|
            0 <= e < n.everyone().len() ==> (#[trigger] n.everyone()[e]).1.preferred_ip6 != Some(
                free,
            ),
    ensures
        ({
            let (got4, got6, after) = allocation(n, r, None, now, member, None, None)->Ok_0;
            let given = granted_view(got4, got6);
            &&& given.ip4 is Some
            &&& n.range(member, false) is None ==> given.ip6 is None
            &&& n.range(member, false) == Some(net) ==> (given.ip6 matches Some(ip) && net.first()
                < ip <= net.last() && (forall|i: int|
                0 <= i < r.members.len() ==> (#[trigger] r.members[i]).ip6 != Some(ip)) && forall|
                e: int,
            |
                0 <= e < n.everyone().len() && (#[trigger] n.everyone()[e]).0 != member
                    ==> n.everyone()[e].1.preferred_ip6 != Some(ip))
        }),
{
    crate::registry::lemma_name_index(r.members, member);
    lemma_range_of(n, member, false);
    if n.range(member, false) == Some(net) {
        lemma_range(net);
        lemma_family_bounds(net.addr);
        law_the_hosts_of_a_prefix(net);
        let taken = crate::ipam::taken(n, r.members, member, false);
        let (count, first) = hosts(net);
        let pool = crate::ipam::pool_name(n, member, false);
        assert(!taken.contains(free)) by {
            if crate::ipam::held_by_other(r.members, member, false, free) {
                let i = choose|i: int|
                    0 <= i < r.members.len() && (#[trigger] r.members[i]).name != member
                        && crate::ipam::held(r.members[i], false) == Some(free);
                assert(r.members[i].ip6 == Some(free));
            }
            if crate::ipam::reserved_for_other(n, member, false, free) {
                let e = choose|e: int|
                    0 <= e < n.everyone().len() && (#[trigger] n.everyone()[e]).0 != member
                        && crate::ipam::configured(n.everyone()[e].1, false) == Some(free);
                assert(n.everyone()[e].1.preferred_ip6 == Some(free));
            }
        }
        let (got4, r4) = crate::ipam::drawn(
            n,
            r,
            crate::ipam::taken(n, r.members, member, true),
            None,
            now,
            member,
            n.range(member, true)->0,
        );
        law_a_scan_finds_a_free_address(
            count,
            first,
            taken,
            crate::ipam::cursor_of(r4, pool, false),
        );
        let (ip, next) = crate::ipam::scan(
            count,
            first,
            taken,
            crate::ipam::cursor_of(r4, pool, false),
        )->0;
        assert forall|i: int| 0 <= i < r.members.len() implies (#[trigger] r.members[i]).ip6
            != Some(ip) by {
            if r.members[i].ip6 == Some(ip) {
                assert(crate::ipam::held(r.members[i], false) == Some(ip));
                assert(crate::ipam::held_by_other(r.members, member, false, ip));
            }
        }
        assert forall|e: int|
            0 <= e < n.everyone().len() && (#[trigger] n.everyone()[e]).0
                != member implies n.everyone()[e].1.preferred_ip6 != Some(ip) by {
            if n.everyone()[e].1.preferred_ip6 == Some(ip) {
                assert(crate::ipam::configured(n.everyone()[e].1, false) == Some(ip));
                assert(crate::ipam::reserved_for_other(n, member, false, ip));
            }
        }
    }
}

/// Where no address of the range is free, the one that is reclaimed is handed
/// out: its former holder has it no more, and joins anew before it counts
/// again; the other records stay as they are.
pub proof fn law_a_reclaimed_address_changes_hands(
    n: NetworkView,
    r: RegistryView,
    barred: Set<u128>,
    l: LeasesView,
    now: u64,
    member: Seq<char>,
    net: IpNet,
    i: int,
    j: int,
)
    requires
        r.wf(),
        net.addr is V4,
        crate::ipam::scan(
            hosts(net).0,
            hosts(net).1,
            barred,
            crate::ipam::cursor_of(r, crate::ipam::pool_name(n, member, true), true),
        ) is None,
        0 <= i < r.members.len(),
        victim(n, r.members, l, now, member, net) == Some(r.members[i]),
        0 <= j < r.members.len(),
        r.members[i].login_gen < u64::MAX,
        r.members[i].ip4 is Some,
    ensures
        ({
            let (got, after) = crate::ipam::drawn(n, r, barred, Some(l), now, member, net);
            let was = r.members[j];
            let now_says = after.members[j];
            &&& got == Some(r.members[i].ip4->0 as u128)
            &&& after.members.len() == r.members.len()
            &&& j != i ==> now_says == was
            &&& j == i ==> {
                &&& now_says.ip4 is None
                &&& now_says.login_gen == was.login_gen + 1
                &&& now_says.ip6 == was.ip6
                &&& now_says.node_id == was.node_id
                &&& now_says.name == was.name
                &&& now_says.routes == was.routes
                &&& now_says.disabled == was.disabled
            }
        }),
{
    crate::registry::lemma_id_index_is(r.members, r.members[i].node_id, i);
}

} // verus!
