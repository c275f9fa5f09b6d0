//! Joining more than once: what a member keeps.

use vstd::prelude::*;

use crate::admin::disabling;
use crate::config::{MemberView, NetworkView};
use crate::coordinator::{joins, secret_holder, uses_now, AppState};
use crate::error::{error_view, ApiError, ErrorCode, ErrorView};
use crate::ipam::{
    allocation, as_addr, configured, distinct_addresses, drawn, granted_view, held, held_by_other,
    law_no_address_is_handed_out_twice, lemma_allocation_frame, pools_inside, reserved_for_other,
    taken,
    unusable,
};
use crate::join::{join_plan, keys_problem, reclaim_view, replaces, JoinRequest, Joined};
use crate::leases::LeasesView;
use crate::registry::{
    id_rank, lemma_id_index, lemma_id_index_is, lemma_name_index, lemma_name_index_is, name_index,
    named, RecordView, RegistryView,
};
use crate::state::NetState;
use crate::text::opt_text;
use crate::validate::any_has;

verus! {

/// No two records share a name or an address.
pub open spec fn tidy(members: Seq<RecordView>) -> bool {
    &&& forall|i: int, j: int|
        0 <= i < members.len() && 0 <= j < members.len() && i != j ==> (
        #[trigger] members[i]).name != (#[trigger] members[j]).name
    &&& distinct_addresses(members, true)
    &&& distinct_addresses(members, false)
}

/// The member wants an address in the tunnel.
pub open spec fn wants_address(m: MemberView) -> bool {
    m.want_vpn_ip != Some(false)
}

/// The configuration lets the member have this address, or none, of a family.
pub open spec fn suits(
    n: NetworkView,
    name: Seq<char>,
    v4: bool,
    got: Option<u128>,
) -> bool {
    let m = (n.member(name)->0).0;
    match got {
        Some(ip) => {
            &&& any_has(n.cidrs, as_addr(ip, v4))
            &&& !reserved_for_other(n, name, v4, ip)
            &&& configured(m, v4) matches Some(w) ==> w == ip && unusable(n, as_addr(w, v4)) is None
        },
        None => configured(m, v4) is None,
    }
}

/// Whoever was granted no IPv6 address is granted none this time either: the
/// network has no IPv6 space, or none is free, nor can be reclaimed.
pub open spec fn no_late_ipv6(
    n: NetworkView,
    r: RegistryView,
    reclaim: Option<LeasesView>,
    name: Seq<char>,
    rec: RecordView,
    now: u64,
) -> bool {
    rec.ip6 is None && wants_address((n.member(name)->0).0) ==> match n.range(name, false) {
        Some(net) => drawn(
            n,
            r,
            taken(n, r.members, name, false),
            reclaim,
            now,
            name,
            net,
        ).0 is None,
        None => true,
    }
}

proof fn lemma_only_holder(members: Seq<RecordView>, name: Seq<char>, v4: bool, ip: u128)
    requires
        tidy(members),
        named(members, name) matches Some(rec) && held(rec, v4) == Some(ip),
    ensures
        !held_by_other(members, name, v4, ip),
{
    lemma_name_index(members, name);
    let k = name_index(members, name)->0;
    assert forall|i: int|
        0 <= i < members.len() && (#[trigger] members[i]).name != name implies held(
        members[i],
        v4,
    ) != Some(ip) by {
        assert(held(members[k], v4) is Some);
        assert(held(members[k], v4) != held(members[i], v4));
    }
}

/// Where a record of a name is put, the registry stays tidy, and the record
/// is found under the name.
proof fn lemma_put_tidy(r: RegistryView, name: Seq<char>, rec: RecordView)
    requires
        r.wf(),
        tidy(r.members),
        named(r.members, name) is None ==> r.next_node_id < u32::MAX,
        rec.node_id == r.id_for(name),
        rec.name == name,
        held(rec, true) matches Some(ip) ==> !held_by_other(r.members, name, true, ip),
        held(rec, false) matches Some(ip) ==> !held_by_other(r.members, name, false, ip),
    ensures
        tidy(r.put(rec.node_id, rec).members),
        named(r.put(rec.node_id, rec).members, name) == Some(rec),
{
    let s = r.members;
    let id = rec.node_id;
    let t = r.put(id, rec).members;
    lemma_name_index(s, name);
    lemma_id_index(s, id);
    let k = match name_index(s, name) {
        Some(i) => {
            lemma_id_index_is(s, id, i);
            i
        },
        None => {
            crate::registry::lemma_id_rank(s, id);
            id_rank(s, id)
        },
    };
    assert(t[k] == rec);
    let from = |i: int|
        if t.len() == s.len() || i < k {
            i
        } else {
            i - 1
        };
    assert forall|i: int| 0 <= i < t.len() && i != k implies 0 <= from(i) < s.len()
        && #[trigger] t[i] == s[from(i)] && t[i].name != name by {
        if t.len() == s.len() {
            assert(s[i].name != s[k].name);
        } else {
            assert(s[from(i)].name != name);
        }
    }
    assert forall|i: int, j: int| 0 <= i < t.len() && 0 <= j < t.len() && i != j implies (
    #[trigger] t[i]).name != (#[trigger] t[j]).name by {
        if i != k && j != k {
            assert(s[from(i)].name != s[from(j)].name);
        }
    }
    assert forall|v4: bool| distinct_addresses(t, v4) by {
        assert forall|i: int, j: int|
            0 <= i < t.len() && 0 <= j < t.len() && i != j && held(#[trigger] t[i], v4) is Some
            implies held(t[i], v4) != held(#[trigger] t[j], v4) by {
            if i != k && j != k {
                assert(distinct_addresses(s, v4));
                assert(held(s[from(i)], v4) != held(s[from(j)], v4));
            } else if i == k {
                assert(s[from(j)].name != name);
            } else {
                assert(s[from(i)].name != name);
            }
        }
    }
    assert(distinct_addresses(t, true) && distinct_addresses(t, false));
    lemma_name_index_is(t, name, k);
}

/// What a join leaves behind: a registry that is as tidy as before, with the
/// member's record in it, whose addresses suit the configuration.
proof fn lemma_settles(
    n: NetworkView,
    r: RegistryView,
    reclaim: Option<LeasesView>,
    name: Seq<char>,
    pubkey: Seq<char>,
    fp: Seq<char>,
    from: Seq<char>,
    now: u64,
)
    requires
        n.wf(),
        r.wf(),
        n.ipv4() is Some,
        pools_inside(n),
        n.member(name) is Some,
        tidy(r.members),
        named(r.members, name) is None ==> r.next_node_id < u32::MAX,
        join_plan(n, r, reclaim, name, pubkey, fp, from, now) is Ok,
    ensures
        ({
            let p = join_plan(n, r, reclaim, name, pubkey, fp, from, now)->Ok_0;
            &&& tidy(p.registry.members)
            &&& named(p.registry.members, name) == Some(p.record)
            &&& p.registry.network_uuid == r.network_uuid
            &&& p.record.node_id == p.id
            &&& p.record.ip4 == p.granted.ip4
            &&& p.record.ip6 == p.granted.ip6
            &&& p.record.pubkey == Some(pubkey)
            &&& p.record.cert_fp == Some(fp)
            &&& p.record.last_join_from == Some(from)
            &&& settled(n, name, p.record)
        }),
{
    let p = join_plan(n, r, reclaim, name, pubkey, fp, from, now)->Ok_0;
    let (m, role) = n.member(name)->0;
    lemma_name_index(r.members, name);
    if wants_address(m) {
        law_no_address_is_handed_out_twice(n, r, reclaim, now, name, None, None);
        lemma_allocation_frame(n, r, reclaim, now, name, None, None);
        let (g4, g6, after) = allocation(n, r, reclaim, now, name, None, None)->Ok_0;
        assert forall|i: int, j: int|
            0 <= i < after.members.len() && 0 <= j < after.members.len() && i != j implies (
        #[trigger] after.members[i]).name != (#[trigger] after.members[j]).name by {
            assert(r.members[i].name != r.members[j].name);
        }
        assert(tidy(after.members));
        lemma_entry(after, name, role, now);
        assert(held(p.record, true) == g4);
        assert(held(p.record, false) == g6);
        lemma_put_tidy(after, name, p.record);
    } else {
        lemma_entry(r, name, role, now);
        lemma_put_tidy(r, name, p.record);
    }
}

/// The record that a join starts from is the member's own.
proof fn lemma_entry(r: RegistryView, name: Seq<char>, role: crate::proto::Role, now: u64)
    requires
        r.wf(),
        named(r.members, name) is None ==> r.next_node_id < u32::MAX,
    ensures
        ({
            let id = r.id_for(name);
            let e = r.entry(id, name, role, now);
            &&& e.node_id == id
            &&& e.name == name
            &&& match named(r.members, name) {
                Some(rec) => e == (RecordView { role, ..rec }),
                None => !e.disabled && e.login_gen == 0,
            }
        }),
{
    let id = r.id_for(name);
    lemma_name_index(r.members, name);
    lemma_id_index(r.members, id);
    if let Some(i) = name_index(r.members, name) {
        lemma_id_index_is(r.members, id, i);
    }
}

/// A member whose record is there, not disabled and suits the configuration
/// joins, and keeps its id and its addresses.
proof fn lemma_returns(
    n: NetworkView,
    r: RegistryView,
    reclaim: Option<LeasesView>,
    name: Seq<char>,
    rec: RecordView,
    pubkey: Seq<char>,
    fp: Seq<char>,
    from: Seq<char>,
    now: u64,
)
    requires
        n.wf(),
        r.wf(),
        n.ipv4() is Some,
        pools_inside(n),
        n.member(name) is Some,
        tidy(r.members),
        named(r.members, name) == Some(rec),
        settled(n, name, rec),
    ensures
        join_plan(n, r, reclaim, name, pubkey, fp, from, now) matches Ok(p) && {
            &&& p.id == rec.node_id
            &&& p.granted.ip4 == rec.ip4
            &&& no_late_ipv6(n, r, reclaim, name, rec, now) ==> p.granted.ip6 == rec.ip6
            &&& p.registry.network_uuid == r.network_uuid
            &&& p.record.pubkey == Some(pubkey)
            &&& p.record.cert_fp == Some(fp)
            &&& if replaces(rec, pubkey, fp) {
                &&& rec.login_gen < u64::MAX ==> p.record.login_gen == rec.login_gen + 1
                &&& p.record.replaced_unix == Some(now)
                &&& p.record.replaced_from == rec.last_join_from
            } else {
                &&& p.record.login_gen == rec.login_gen
                &&& p.record.replaced_unix == rec.replaced_unix
                &&& p.record.replaced_from == rec.replaced_from
            }
        },
{
    let (m, role) = n.member(name)->0;
    lemma_entry(r, name, role, now);
    if wants_address(m) {
        lemma_allocation_frame(n, r, reclaim, now, name, None, None);
        let ip = held(rec, true)->0;
        lemma_only_holder(r.members, name, true, ip);
        if let Some(ip6) = held(rec, false) {
            lemma_only_holder(r.members, name, false, ip6);
            assert(allocation(n, r, reclaim, now, name, None, None) == Ok::<_, ErrorView>(
                (Some(ip), Some(ip6), r),
            ));
        } else {
            let (got6, after) = match n.range(name, false) {
                Some(net) => drawn(
                    n,
                    r,
                    taken(n, r.members, name, false),
                    reclaim,
                    now,
                    name,
                    net,
                ),
                None => (None, r),
            };
            assert(allocation(n, r, reclaim, now, name, None, None) == Ok::<_, ErrorView>(
                (Some(ip), got6, after),
            ));
            lemma_entry(after, name, role, now);
        }
        assert(granted_view(Some(ip), held(rec, false)).ip4 == rec.ip4);
    }
}

/// A member that joins again from the same machine, with nothing changed in
/// between that concerns it, is given the same id and the same addresses, in
/// the same network, and starts no new login generation. Where it was granted
/// no IPv6 address for want of space, it may be granted one now.
pub proof fn law_joining_again_changes_nothing(
    n: NetworkView,
    r: RegistryView,
    first: Option<LeasesView>,
    name: Seq<char>,
    pubkey: Seq<char>,
    fp: Seq<char>,
    from: Seq<char>,
    then: u64,
    later: RegistryView,
    second: Option<LeasesView>,
    again_from: Seq<char>,
    now: u64,
)
    requires
        n.wf(),
        r.wf(),
        n.ipv4() is Some,
        pools_inside(n),
        n.member(name) is Some,
        tidy(r.members),
        named(r.members, name) is None ==> r.next_node_id < u32::MAX,
        join_plan(n, r, first, name, pubkey, fp, from, then) is Ok,
        later.wf(),
        tidy(later.members),
        later.network_uuid == r.network_uuid,
        named(later.members, name) == Some(
            join_plan(n, r, first, name, pubkey, fp, from, then)->Ok_0.record,
        ),
    ensures
        ({
            let a = join_plan(n, r, first, name, pubkey, fp, from, then)->Ok_0;
            join_plan(n, later, second, name, pubkey, fp, again_from, now) matches Ok(b) && {
                &&& b.id == a.id
                &&& b.granted.ip4 == a.granted.ip4
                &&& no_late_ipv6(n, later, second, name, a.record, now) ==> b.granted.ip6
                    == a.granted.ip6
                &&& b.registry.network_uuid == a.registry.network_uuid
                &&& b.record.login_gen == a.record.login_gen
                &&& b.record.replaced_unix == a.record.replaced_unix
            }
        }),
{
    lemma_settles(n, r, first, name, pubkey, fp, from, then);
    let a = join_plan(n, r, first, name, pubkey, fp, from, then)->Ok_0;
    lemma_returns(n, later, second, name, a.record, pubkey, fp, again_from, now);
}

/// A join from another machine keeps the id and the addresses, but that it may
/// be granted an IPv6 address that was not to be had before; it starts the
/// next login generation, and records the new keys and where the machine
/// that was replaced had joined from.
pub proof fn law_another_machine_takes_over(
    n: NetworkView,
    r: RegistryView,
    first: Option<LeasesView>,
    name: Seq<char>,
    pubkey: Seq<char>,
    fp: Seq<char>,
    from: Seq<char>,
    then: u64,
    later: RegistryView,
    second: Option<LeasesView>,
    new_pubkey: Seq<char>,
    new_fp: Seq<char>,
    new_from: Seq<char>,
    now: u64,
)
    requires
        n.wf(),
        r.wf(),
        n.ipv4() is Some,
        pools_inside(n),
        n.member(name) is Some,
        tidy(r.members),
        named(r.members, name) is None ==> r.next_node_id < u32::MAX,
        join_plan(n, r, first, name, pubkey, fp, from, then) is Ok,
        join_plan(n, r, first, name, pubkey, fp, from, then)->Ok_0.record.login_gen < u64::MAX,
        new_pubkey != pubkey || new_fp != fp,
        later.wf(),
        tidy(later.members),
        later.network_uuid == r.network_uuid,
        named(later.members, name) == Some(
            join_plan(n, r, first, name, pubkey, fp, from, then)->Ok_0.record,
        ),
    ensures
        ({
            let a = join_plan(n, r, first, name, pubkey, fp, from, then)->Ok_0;
            join_plan(n, later, second, name, new_pubkey, new_fp, new_from, now) matches Ok(b) && {
                &&& b.id == a.id
                &&& b.granted.ip4 == a.granted.ip4
                &&& no_late_ipv6(n, later, second, name, a.record, now) ==> b.granted.ip6
                    == a.granted.ip6
                &&& b.registry.network_uuid == a.registry.network_uuid
                &&& b.record.login_gen == a.record.login_gen + 1
                &&& b.record.pubkey == Some(new_pubkey)
                &&& b.record.cert_fp == Some(new_fp)
                &&& b.record.replaced_from == Some(from)
                &&& b.record.replaced_unix == Some(now)
            }
        }),
{
    lemma_settles(n, r, first, name, pubkey, fp, from, then);
    let a = join_plan(n, r, first, name, pubkey, fp, from, then)->Ok_0;
    lemma_returns(n, later, second, name, a.record, new_pubkey, new_fp, new_from, now);
}

proof fn lemma_same_holder(
    a: Seq<(String, NetState)>,
    b: Seq<(String, NetState)>,
    secret: Seq<char>,
)
    requires
        a.len() == b.len(),
        forall|i: int| 0 <= i < a.len() ==> (#[trigger] b[i]).1.cfg@ == a[i].1.cfg@,
    ensures
        secret_holder(b, secret) == secret_holder(a, secret),
    decreases a.len(),
{
    if a.len() > 0 {
        let (c, d) = (a.drop_last(), b.drop_last());
        assert forall|i: int| 0 <= i < c.len() implies (#[trigger] d[i]).1.cfg@ == c[i].1.cfg@ by {
            assert(b[i].1.cfg@ == a[i].1.cfg@);
        }
        lemma_same_holder(c, d, secret);
        assert(b[b.len() - 1].1.cfg@ == a[a.len() - 1].1.cfg@);
    }
}

/// The network whose member has this secret.
pub open spec fn network_of(s: AppState, secret: Seq<char>) -> NetState {
    s.networks.entries@[(secret_holder(s.networks.entries@, secret)->0).0].1
}

/// The member that has this secret.
pub open spec fn member_of(s: AppState, secret: Seq<char>) -> Seq<char> {
    (secret_holder(s.networks.entries@, secret)->0).1
}

/// Whoever has this secret and was granted no IPv6 address is granted none
/// this time either.
pub open spec fn none_late(s: AppState, secret: Seq<char>, allow_reclaim: bool, now: u64) -> bool {
    let ns = network_of(s, secret);
    no_late_ipv6(
        ns.cfg@,
        ns.registry@,
        reclaim_view(ns, allow_reclaim),
        member_of(s, secret),
        named(ns.registry@.members, member_of(s, secret))->0,
        now,
    )
}

/// A request can be told from others: the member's registry is tidy and has
/// room for it.
pub open spec fn in_order(s: AppState, secret: Seq<char>) -> bool {
    secret_holder(s.networks.entries@, secret) is Some ==> {
        let ns = network_of(s, secret);
        &&& tidy(ns.registry@.members)
        &&& named(ns.registry@.members, member_of(s, secret)) is None ==> ns.registry@.next_node_id
            < u32::MAX
    }
}

/// The record is one that the member can join with again.
pub open spec fn settled(n: NetworkView, name: Seq<char>, rec: RecordView) -> bool {
    &&& !rec.disabled
    &&& if wants_address((n.member(name)->0).0) {
        &&& rec.ip4 is Some
        &&& suits(n, name, true, held(rec, true))
        &&& suits(n, name, false, held(rec, false))
    } else {
        rec.ip4 is None && rec.ip6 is None
    }
}

/// The one with this secret is a member of the network it belongs to.
proof fn lemma_holder(s: AppState, secret: Seq<char>)
    requires
        s.wf(),
        secret_holder(s.networks.entries@, secret) is Some,
    ensures
        ({
            let (i, name) = secret_holder(s.networks.entries@, secret)->0;
            &&& 0 <= i < s.networks.entries@.len()
            &&& network_of(s, secret).wf()
            &&& network_of(s, secret).cfg@.wf()
            &&& network_of(s, secret).cfg@.ipv4() is Some
            &&& pools_inside(network_of(s, secret).cfg@)
            &&& network_of(s, secret).cfg@.member(name) is Some
            &&& network_of(s, secret).registry@.wf()
        }),
{
    let a = s.networks.entries@;
    crate::access::law_the_secret_decides_who_joins(a, secret);
    let (i, name) = secret_holder(a, secret)->0;
    let ns = a[i].1;
    assert(ns.wf());
    let k = choose|k: int|
        0 <= k < ns.cfg@.everyone().len() && (#[trigger] ns.cfg@.everyone()[k]).0 == name
            && ns.cfg@.everyone()[k].1.secret == Some(secret);
    crate::coordinator::lemma_everyone_is_a_member(ns.cfg@, k);
}

/// What a join that succeeded left behind.
proof fn lemma_joined(
    before: AppState,
    after: AppState,
    req: JoinRequest,
    ip: Seq<char>,
    allow_reclaim: bool,
    now: u64,
    r: Result<Joined, ApiError>,
)
    requires
        before.wf(),
        after.wf(),
        in_order(before, req.secret@),
        joins(before, after, req, ip, allow_reclaim, now, r),
        r is Ok,
    ensures
        ({
            let held_by = secret_holder(before.networks.entries@, req.secret@);
            let out = network_of(after, req.secret@);
            let rec = named(out.registry@.members, member_of(after, req.secret@))->0;
            let a = r->Ok_0.response;
            &&& held_by is Some
            &&& secret_holder(after.networks.entries@, req.secret@) == held_by
            &&& keys_problem(req.pubkey@, req.cert_fingerprint@) is None
            &&& after.networks.entries@[(held_by->0).0].0 == before.networks.entries@[(held_by->0).0].0
            &&& tidy(out.registry@.members)
            &&& named(out.registry@.members, member_of(after, req.secret@)) is Some
            &&& settled(out.cfg@, member_of(after, req.secret@), rec)
            &&& rec.node_id == a.node_id
            &&& rec.ip4 == a.ip4
            &&& rec.ip6 == a.ip6
            &&& rec.login_gen == a.login_gen
            &&& rec.pubkey == Some(req.pubkey@)
            &&& rec.cert_fp == Some(req.cert_fingerprint@)
            &&& rec.last_join_from == Some(ip)
            &&& out.registry@.network_uuid == a.network_uuid@
        }),
{
    let (a, b) = (before.networks.entries@, after.networks.entries@);
    let (i, name) = secret_holder(a, req.secret@)->0;
    lemma_holder(before, req.secret@);
    let ns = a[i].1;
    assert forall|j: int| 0 <= j < a.len() implies (#[trigger] b[j]).1.cfg@ == a[j].1.cfg@ by {
        if j != i {
            assert(b[j] == a[j]);
        }
    }
    lemma_same_holder(a, b, req.secret@);
    lemma_settles(
        ns.cfg@,
        ns.registry@,
        reclaim_view(ns, allow_reclaim),
        name,
        req.pubkey@,
        req.cert_fingerprint@,
        ip,
        now,
    );
}

/// A member whose record is settled joins, and is told what is on record.
proof fn lemma_answered(
    before: AppState,
    after: AppState,
    req: JoinRequest,
    ip: Seq<char>,
    allow_reclaim: bool,
    now: u64,
    r: Result<Joined, ApiError>,
    rec: RecordView,
)
    requires
        before.wf(),
        secret_holder(before.networks.entries@, req.secret@) is Some,
        joins(before, after, req, ip, allow_reclaim, now, r),
        keys_problem(req.pubkey@, req.cert_fingerprint@) is None,
        uses_now(after.join_rate@, req.secret@, ip, now) <= before.coord.limits.join_rate_per_min,
        tidy(network_of(before, req.secret@).registry@.members),
        named(
            network_of(before, req.secret@).registry@.members,
            member_of(before, req.secret@),
        ) == Some(rec),
        settled(network_of(before, req.secret@).cfg@, member_of(before, req.secret@), rec),
    ensures
        r matches Ok(j) && {
            &&& j.response.node_id == rec.node_id
            &&& j.response.ip4 == rec.ip4
            &&& none_late(before, req.secret@, allow_reclaim, now) ==> j.response.ip6 == rec.ip6
            &&& j.response.network_uuid@ == network_of(
                before,
                req.secret@,
            ).registry@.network_uuid
            &&& if replaces(rec, req.pubkey@, req.cert_fingerprint@) {
                &&& rec.login_gen < u64::MAX ==> j.response.login_gen == rec.login_gen + 1
                &&& opt_text(j.closed) == if network_of(before, req.secret@).sessions@.dom().contains(
                    member_of(before, req.secret@),
                ) {
                    Some(member_of(before, req.secret@))
                } else {
                    None
                }
            } else {
                j.response.login_gen == rec.login_gen && j.closed is None
            }
        },
{
    let ns = network_of(before, req.secret@);
    lemma_holder(before, req.secret@);
    lemma_returns(
        ns.cfg@,
        ns.registry@,
        reclaim_view(ns, allow_reclaim),
        member_of(before, req.secret@),
        rec,
        req.pubkey@,
        req.cert_fingerprint@,
        ip,
        now,
    );
}

/// A join keeps names and addresses apart: where no two records of a network
/// share one before it, none do after it, whether it succeeds or not.
pub proof fn law_a_join_keeps_records_apart(
    before: AppState,
    after: AppState,
    req: JoinRequest,
    ip: Seq<char>,
    allow_reclaim: bool,
    now: u64,
    r: Result<Joined, ApiError>,
    i: int,
)
    requires
        before.wf(),
        after.wf(),
        in_order(before, req.secret@),
        joins(before, after, req, ip, allow_reclaim, now, r),
        0 <= i < before.networks.entries@.len(),
        tidy(before.networks.entries@[i].1.registry@.members),
    ensures
        tidy(after.networks.entries@[i].1.registry@.members),
{
    let (a, b) = (before.networks.entries@, after.networks.entries@);
    if let Some((k, _)) = secret_holder(a, req.secret@) {
        lemma_holder(before, req.secret@);
        if r is Ok {
            lemma_joined(before, after, req, ip, allow_reclaim, now, r);
        }
        if i != k {
            assert(b[i] == a[i]);
        }
    }
}

/// A member that joins again from the machine it joined from, and is neither
/// limited nor changed in between, is told the same id, the same addresses,
/// the same network and the same login generation. Where it was granted no
/// IPv6 address for want of space, it may be granted one now.
pub proof fn law_a_repeated_join_is_answered_the_same(
    before: AppState,
    once: AppState,
    twice: AppState,
    req: JoinRequest,
    ip: Seq<char>,
    allow_first: bool,
    then: u64,
    first: Result<Joined, ApiError>,
    again: JoinRequest,
    again_ip: Seq<char>,
    allow_second: bool,
    now: u64,
    second: Result<Joined, ApiError>,
)
    requires
        before.wf(),
        once.wf(),
        in_order(before, req.secret@),
        joins(before, once, req, ip, allow_first, then, first),
        first is Ok,
        again.secret@ == req.secret@,
        again.pubkey@ == req.pubkey@,
        again.cert_fingerprint@ == req.cert_fingerprint@,
        joins(once, twice, again, again_ip, allow_second, now, second),
        uses_now(twice.join_rate@, again.secret@, again_ip, now)
            <= once.coord.limits.join_rate_per_min,
    ensures
        second matches Ok(b) && {
            let a = first->Ok_0;
            &&& b.response.node_id == a.response.node_id
            &&& b.response.ip4 == a.response.ip4
            &&& none_late(once, req.secret@, allow_second, now) ==> b.response.ip6 == a.response.ip6
            &&& b.response.network_uuid@ == a.response.network_uuid@
            &&& b.response.login_gen == a.response.login_gen
            &&& b.closed is None
        },
{
    lemma_joined(before, once, req, ip, allow_first, then, first);
    lemma_answered(
        once,
        twice,
        again,
        again_ip,
        allow_second,
        now,
        second,
        named(
            network_of(once, req.secret@).registry@.members,
            member_of(once, req.secret@),
        )->0,
    );
}

/// A join with a member's secret from another machine takes the member over:
/// the same id and the same IPv4 address, the next login generation, the new
/// keys on record, and where the machine that was replaced had joined from.
/// The session of that machine, if there is one, is closed.
pub proof fn law_another_machine_is_answered_as_the_member(
    before: AppState,
    once: AppState,
    twice: AppState,
    req: JoinRequest,
    ip: Seq<char>,
    allow_first: bool,
    then: u64,
    first: Result<Joined, ApiError>,
    other: JoinRequest,
    other_ip: Seq<char>,
    allow_second: bool,
    now: u64,
    second: Result<Joined, ApiError>,
)
    requires
        before.wf(),
        once.wf(),
        twice.wf(),
        in_order(before, req.secret@),
        joins(before, once, req, ip, allow_first, then, first),
        first matches Ok(a) && a.response.login_gen < u64::MAX,
        other.secret@ == req.secret@,
        other.pubkey@ != req.pubkey@ || other.cert_fingerprint@ != req.cert_fingerprint@,
        keys_problem(other.pubkey@, other.cert_fingerprint@) is None,
        joins(once, twice, other, other_ip, allow_second, now, second),
        uses_now(twice.join_rate@, other.secret@, other_ip, now)
            <= once.coord.limits.join_rate_per_min,
    ensures
        second matches Ok(b) && {
            let a = first->Ok_0;
            &&& b.response.node_id == a.response.node_id
            &&& b.response.ip4 == a.response.ip4
            &&& none_late(once, req.secret@, allow_second, now) ==> b.response.ip6 == a.response.ip6
            &&& b.response.network_uuid@ == a.response.network_uuid@
            &&& b.response.login_gen == a.response.login_gen + 1
            &&& network_of(once, req.secret@).sessions@.dom().contains(
                member_of(once, req.secret@),
            ) ==> opt_text(b.closed) == Some(member_of(once, req.secret@))
        },
        named(
            network_of(twice, req.secret@).registry@.members,
            member_of(twice, req.secret@),
        ) matches Some(rec) && {
            &&& rec.pubkey == Some(other.pubkey@)
            &&& rec.cert_fp == Some(other.cert_fingerprint@)
            &&& rec.replaced_from == Some(ip)
            &&& rec.replaced_unix == Some(now)
        },
{
    lemma_joined(before, once, req, ip, allow_first, then, first);
    let rec = named(
        network_of(once, req.secret@).registry@.members,
        member_of(once, req.secret@),
    )->0;
    lemma_answered(once, twice, other, other_ip, allow_second, now, second, rec);
    lemma_taken_over(once, twice, other, other_ip, allow_second, now, second, rec);
}

/// What another machine leaves on record.
proof fn lemma_taken_over(
    before: AppState,
    after: AppState,
    req: JoinRequest,
    ip: Seq<char>,
    allow_reclaim: bool,
    now: u64,
    r: Result<Joined, ApiError>,
    rec: RecordView,
)
    requires
        before.wf(),
        after.wf(),
        in_order(before, req.secret@),
        secret_holder(before.networks.entries@, req.secret@) is Some,
        joins(before, after, req, ip, allow_reclaim, now, r),
        r is Ok,
        named(
            network_of(before, req.secret@).registry@.members,
            member_of(before, req.secret@),
        ) == Some(rec),
        settled(network_of(before, req.secret@).cfg@, member_of(before, req.secret@), rec),
        replaces(rec, req.pubkey@, req.cert_fingerprint@),
    ensures
        named(
            network_of(after, req.secret@).registry@.members,
            member_of(after, req.secret@),
        ) matches Some(new) && {
            &&& new.pubkey == Some(req.pubkey@)
            &&& new.cert_fp == Some(req.cert_fingerprint@)
            &&& new.replaced_from == rec.last_join_from
            &&& new.replaced_unix == Some(now)
        },
{
    let (a, b) = (before.networks.entries@, after.networks.entries@);
    let (i, name) = secret_holder(a, req.secret@)->0;
    let ns = a[i].1;
    lemma_holder(before, req.secret@);
    assert forall|j: int| 0 <= j < a.len() implies (#[trigger] b[j]).1.cfg@ == a[j].1.cfg@ by {
        if j != i {
            assert(b[j] == a[j]);
        }
    }
    lemma_same_holder(a, b, req.secret@);
    lemma_settles(
        ns.cfg@,
        ns.registry@,
        reclaim_view(ns, allow_reclaim),
        name,
        req.pubkey@,
        req.cert_fingerprint@,
        ip,
        now,
    );
    lemma_returns(
        ns.cfg@,
        ns.registry@,
        reclaim_view(ns, allow_reclaim),
        name,
        rec,
        req.pubkey@,
        req.cert_fingerprint@,
        ip,
        now,
    );
}

/// A refused join of a disabled member.
proof fn lemma_refused(
    before: AppState,
    after: AppState,
    req: JoinRequest,
    ip: Seq<char>,
    allow_reclaim: bool,
    now: u64,
    r: Result<Joined, ApiError>,
)
    requires
        before.wf(),
        secret_holder(before.networks.entries@, req.secret@) is Some,
        joins(before, after, req, ip, allow_reclaim, now, r),
        keys_problem(req.pubkey@, req.cert_fingerprint@) is None,
        uses_now(after.join_rate@, req.secret@, ip, now) <= before.coord.limits.join_rate_per_min,
        named(
            network_of(before, req.secret@).registry@.members,
            member_of(before, req.secret@),
        ) matches Some(rec) && rec.disabled,
    ensures
        r matches Err(e) && e@ == error_view(
            ErrorCode::ClientDisabled,
            "member is administratively disabled"@,
        ),
        secret_holder(after.networks.entries@, req.secret@) == secret_holder(
            before.networks.entries@,
            req.secret@,
        ),
        after.networks.entries@.len() == before.networks.entries@.len(),
        forall|k: int|
            0 <= k < before.networks.entries@.len() ==> (#[trigger] after.networks.entries@[k]).0
                == before.networks.entries@[k].0 && after.networks.entries@[k].1.cfg
                == before.networks.entries@[k].1.cfg && after.networks.entries@[k].1.registry@
                == before.networks.entries@[k].1.registry@,
{
    let (a, b) = (before.networks.entries@, after.networks.entries@);
    let (i, name) = secret_holder(a, req.secret@)->0;
    lemma_holder(before, req.secret@);
    assert forall|k: int| 0 <= k < a.len() implies (#[trigger] b[k]).0 == a[k].0 && b[k].1.cfg
        == a[k].1.cfg && b[k].1.registry@ == a[k].1.registry@ by {
        if k != i {
            assert(b[k] == a[k]);
        }
    }
    lemma_same_holder(a, b, req.secret@);
}

/// A network's state differs from another at most in what disabling touches.
proof fn lemma_disabling_keeps(
    before: AppState,
    after: AppState,
    id: Seq<char>,
    name: Seq<char>,
    disabled: bool,
    now: u64,
    r: Result<crate::admin::Change, ApiError>,
    secret: Seq<char>,
)
    requires
        before.wf(),
        after.wf(),
        before.networks.at(id) matches Some(ns) && crate::operator::same_but(before, after, id)
            && disabling(ns, after.networks@[id], name, disabled, now, r),
    ensures
        secret_holder(after.networks.entries@, secret) == secret_holder(
            before.networks.entries@,
            secret,
        ),
        after.networks.entries@.len() == before.networks.entries@.len(),
        forall|i: int|
            0 <= i < before.networks.entries@.len() ==> (#[trigger] after.networks.entries@[i]).0@
                == before.networks.entries@[i].0@ && after.networks.entries@[i].1 == if before.networks.entries@[i].0@
                == id {
                after.networks@[id]
            } else {
                before.networks.entries@[i].1
            },
{
    let (a, b) = (before.networks.entries@, after.networks.entries@);
    assert forall|k: Seq<char>| #[trigger] crate::namemap::has_name(a, k)
        <==> crate::namemap::has_name(b, k) by {
        assert(before.networks@.dom().contains(k) <==> crate::namemap::has_name(a, k));
        assert(after.networks@.dom().contains(k) <==> crate::namemap::has_name(b, k));
    }
    crate::namemap::lemma_same_names(a, b);
    assert forall|i: int| 0 <= i < a.len() implies (#[trigger] b[i]).0@ == a[i].0@ && b[i].1 == if a[i].0@
        == id {
        after.networks@[id]
    } else {
        a[i].1
    } by {
        crate::namemap::lemma_named_entry(a, i);
        crate::namemap::lemma_named_entry(b, i);
        assert(a[i].0@ == b[i].0@);
    }
    assert forall|i: int| 0 <= i < a.len() implies (#[trigger] b[i]).1.cfg@ == a[i].1.cfg@ by {
        crate::namemap::lemma_named_entry(a, i);
    }
    lemma_same_holder(a, b, secret);
}

/// Disabling and enabling change one field of one record.
proof fn lemma_switched(
    before: NetState,
    after: NetState,
    name: Seq<char>,
    disabled: bool,
    now: u64,
    r: Result<crate::admin::Change, ApiError>,
)
    requires
        disabling(before, after, name, disabled, now, r),
        named(before.registry@.members, name) is Some,
    ensures
        ({
            let k = name_index(before.registry@.members, name)->0;
            let rec = before.registry@.members[k];
            &&& 0 <= k < before.registry@.members.len()
            &&& after.registry@.members == before.registry@.members.update(
                k,
                RecordView { disabled, ..rec },
            )
            &&& name_index(after.registry@.members, name) == Some(k)
            &&& after.registry@.network_uuid == before.registry@.network_uuid
            &&& after.cfg == before.cfg
        }),
{
    lemma_name_index(before.registry@.members, name);
    let k = name_index(before.registry@.members, name)->0;
    lemma_name_index_is(after.registry@.members, name, k);
}

/// A member that joined and is then disabled is refused, and nothing is
/// recorded; once it is enabled again the same request joins, under the same
/// id and with the same addresses.
#[verifier::rlimit(60)]
#[verifier::spinoff_prover]
pub proof fn law_enabling_restores_a_disabled_member(
    before: AppState,
    joined: AppState,
    off: AppState,
    refused: AppState,
    on: AppState,
    back: AppState,
    req: JoinRequest,
    ip: Seq<char>,
    id: Seq<char>,
    allow: bool,
    times: (u64, u64, u64, u64, u64),
    first: Result<Joined, ApiError>,
    disabled: Result<crate::admin::Change, ApiError>,
    second: Result<Joined, ApiError>,
    enabled: Result<crate::admin::Change, ApiError>,
    third: Result<Joined, ApiError>,
)
    requires
        before.wf(),
        joined.wf(),
        off.wf(),
        refused.wf(),
        on.wf(),
        in_order(before, req.secret@),
        joins(before, joined, req, ip, allow, times.0, first),
        first is Ok,
        id == joined.networks.entries@[(secret_holder(
            joined.networks.entries@,
            req.secret@,
        )->0).0].0@,
        joined.networks.at(id) matches Some(ns) && crate::operator::same_but(joined, off, id)
            && disabling(
            ns,
            off.networks@[id],
            member_of(joined, req.secret@),
            true,
            times.1,
            disabled,
        ),
        joins(off, refused, req, ip, allow, times.2, second),
        uses_now(refused.join_rate@, req.secret@, ip, times.2)
            <= off.coord.limits.join_rate_per_min,
        refused.networks.at(id) matches Some(ns) && crate::operator::same_but(refused, on, id)
            && disabling(
            ns,
            on.networks@[id],
            member_of(joined, req.secret@),
            false,
            times.3,
            enabled,
        ),
        joins(on, back, req, ip, allow, times.4, third),
        uses_now(back.join_rate@, req.secret@, ip, times.4) <= on.coord.limits.join_rate_per_min,
    ensures
        second matches Err(e) && e@ == error_view(
            ErrorCode::ClientDisabled,
            "member is administratively disabled"@,
        ),
        network_of(refused, req.secret@).registry@ == network_of(off, req.secret@).registry@,
        third matches Ok(b) && {
            let a = first->Ok_0;
            &&& b.response.node_id == a.response.node_id
            &&& b.response.ip4 == a.response.ip4
            &&& none_late(on, req.secret@, allow, times.4) ==> b.response.ip6 == a.response.ip6
            &&& b.response.login_gen == a.response.login_gen
        },
{
    let secret = req.secret@;
    lemma_joined(before, joined, req, ip, allow, times.0, first);
    let (i, name) = secret_holder(joined.networks.entries@, secret)->0;
    lemma_holder(joined, secret);
    crate::namemap::lemma_named_entry(joined.networks.entries@, i);
    lemma_disabling_keeps(joined, off, id, name, true, times.1, disabled, secret);
    let a = joined.networks.entries@[i].1;
    let b = off.networks.entries@[i].1;
    assert(b == off.networks@[id]);
    let rec = named(a.registry@.members, name)->0;
    let k = name_index(a.registry@.members, name)->0;
    lemma_name_index(a.registry@.members, name);
    lemma_switched(a, b, name, true, times.1, disabled);
    lemma_refused(off, refused, req, ip, allow, times.2, second);
    let c = refused.networks.entries@[i].1;
    assert(refused.networks.entries@[i].0@ == id);
    crate::namemap::lemma_named_entry(refused.networks.entries@, i);
    lemma_disabling_keeps(refused, on, id, name, false, times.3, enabled, secret);
    let d = on.networks.entries@[i].1;
    assert(d == on.networks@[id]);
    lemma_switched(c, d, name, false, times.3, enabled);
    assert(d.registry@.members =~= a.registry@.members);
    lemma_answered(on, back, req, ip, allow, times.4, third, rec);
}

} // verus!
