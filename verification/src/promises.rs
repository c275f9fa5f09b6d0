//! What an operation as a whole comes to, said of the fields of what goes in
//! and what comes out.

use vstd::prelude::*;

use crate::access::law_the_secret_decides_who_joins;
use crate::admin::{
    changed_among, disabling, joined_among, member_creation, member_removal,
    member_update, republished, secret_rotation, settings_change, Change, MemberSpec,
    NetworkSpec,
};
use crate::config::{
    assoc, law_a_member_is_found_by_its_name, law_everyone_is_a_client_or_a_relay,
    law_the_facts_of_a_member, lemma_ordered_assoc, MemberView, NetworkView,
};
use crate::coordinator::{joins, secret_holder, uses_now, AppState};
use crate::directory::{recomputed, Directory};
use crate::error::{ApiError, ErrorCode, ErrorView};
use crate::exits::designated;
use crate::ipam::lemma_allocation_frame;
use crate::join::{
    answers, declared_routes, join_plan, keys_problem, law_a_credential_claims_what_the_member_holds,
    law_a_join_applies_the_declaration, law_granted_routes_are_the_registered_ones, reclaim_view,
    vouches, Claims, JoinPlan, JoinRequest, Joined,
};
use crate::net::{IpAddr, IpNet};
use crate::proto::{relay_views, MembershipDelta, NodeId, Role};
use crate::registry::{
    lemma_id_index, lemma_id_index_is, lemma_name_index, lemma_put_wf, name_index, with_id,
    RecordView, RegistryView, RouteReg,
};
use crate::roster::{
    law_removing_an_entry_changes_it_alone, law_setting_an_entry_changes_it_alone,
};
use crate::state::{dial_addr, messages, relay_fleet, NetState};
use crate::text::opt_text;
use crate::validate::network_problem;

verus! {

/// The configuration of the network that a secret belongs to.
pub open spec fn cfg_of(s: AppState, i: int) -> NetworkView {
    s.networks.entries@[i].1.cfg@
}

/// The record that a network holds of an id.
pub open spec fn record_of(s: AppState, i: int, id: NodeId) -> RecordView {
    with_id(s.networks.entries@[i].1.registry@.members, id)->0
}

/// What a join planned, answered and vouched for, and that the record of the
/// plan is the one under the id that the member is told.
proof fn lemma_join_parts(
    before: AppState,
    after: AppState,
    req: JoinRequest,
    ip: Seq<char>,
    allow_reclaim: bool,
    now: u64,
    r: Result<Joined, ApiError>,
    i: int,
    name: Seq<char>,
) -> (p: JoinPlan)
    requires
        before.wf(),
        joins(before, after, req, ip, allow_reclaim, now, r),
        r is Ok,
        secret_holder(before.networks.entries@, req.secret@) == Some((i, name)),
    ensures
        0 <= i < before.networks.entries@.len(),
        join_plan(
            cfg_of(before, i),
            before.networks.entries@[i].1.registry@,
            reclaim_view(before.networks.entries@[i].1, allow_reclaim),
            name,
            req.pubkey@,
            req.cert_fingerprint@,
            ip,
            now,
        ) == Ok::<JoinPlan, ErrorView>(p),
        answers(r->Ok_0.response, cfg_of(before, i), p, name, ip),
        vouches(
            r->Ok_0.claims,
            cfg_of(before, i),
            p,
            name,
            req.pubkey@,
            req.cert_fingerprint@,
            now,
        ),
        r->Ok_0.response.control_port == before.control_port,
        with_id(after.networks.entries@[i].1.registry@.members, p.id) == Some(p.record),
        after.networks.entries@[i].1.registry@.network_uuid == p.registry.network_uuid,
        after.networks.entries@[i].1.registry@.members == p.registry.members,
        cfg_of(before, i).wf(),
        cfg_of(before, i).member(name) is Some,
{
    law_the_secret_decides_who_joins(before.networks.entries@, req.secret@);
    let ns = before.networks.entries@[i].1;
    let cfg = ns.cfg@;
    let k = choose|k: int|
        0 <= k < cfg.everyone().len() && (#[trigger] cfg.everyone()[k]).0 == name
            && cfg.everyone()[k].1.secret == Some(req.secret@);
    crate::coordinator::lemma_everyone_is_a_member(cfg, k);
    law_a_member_is_found_by_its_name(cfg, name);
    let r0 = ns.registry@;
    let reclaim = reclaim_view(ns, allow_reclaim);
    let (m, role) = cfg.member(name)->0;
    assert(m.wf());
    let p = join_plan(
        cfg,
        r0,
        reclaim,
        name,
        req.pubkey@,
        req.cert_fingerprint@,
        ip,
        now,
    )->Ok_0;
    lemma_allocation_frame(cfg, r0, reclaim, now, name, None, None);
    let r1 = if m.want_vpn_ip == Some(false) {
        r0
    } else {
        (crate::ipam::allocation(cfg, r0, reclaim, now, name, None, None)->Ok_0).2
    };
    let id = r1.id_for(name);
    let entry = r1.entry(id, name, role, now);
    lemma_id_index(r1.members, id);
    crate::join::lemma_declared_valid(entry.routes, m.local_cidrs, now);
    lemma_put_wf(r1, id, p.record);
    p
}

/// A join records the member under the id that it is told: with the keys that
/// it presented, when and from where it joined, and a registration for each
/// LAN that is configured for it and for nothing else. A member that wants no
/// address holds none.
pub proof fn law_a_join_records_the_member(
    before: AppState,
    after: AppState,
    req: JoinRequest,
    ip: Seq<char>,
    allow_reclaim: bool,
    now: u64,
    r: Result<Joined, ApiError>,
    i: int,
    name: Seq<char>,
)
    requires
        before.wf(),
        joins(before, after, req, ip, allow_reclaim, now, r),
        r is Ok,
        secret_holder(before.networks.entries@, req.secret@) == Some((i, name)),
    ensures
        with_id(
            after.networks.entries@[i].1.registry@.members,
            r->Ok_0.response.node_id,
        ) is Some,
        ({
            let rec = record_of(after, i, r->Ok_0.response.node_id);
            let (m, role) = cfg_of(before, i).member(name)->0;
            &&& rec.node_id == r->Ok_0.response.node_id
            &&& rec.name == name
            &&& rec.role == role
            &&& rec.pubkey == Some(req.pubkey@)
            &&& rec.cert_fp == Some(req.cert_fingerprint@)
            &&& rec.last_join_unix == Some(now)
            &&& rec.last_join_from == Some(ip)
            &&& m.want_vpn_ip == Some(false) ==> rec.ip4 is None && rec.ip6 is None
            &&& forall|x: int|
                0 <= x < rec.routes.len() ==> exists|y: int|
                    0 <= y < m.local_cidrs.len() && (#[trigger] m.local_cidrs[y]).truncated() == (
                    #[trigger] rec.routes[x]).cidr
            &&& forall|y: int|
                0 <= y < m.local_cidrs.len() ==> exists|x: int|
                    0 <= x < rec.routes.len() && (#[trigger] rec.routes[x]).cidr == (
                    #[trigger] m.local_cidrs[y]).truncated()
        }),
{
    let p = lemma_join_parts(before, after, req, ip, allow_reclaim, now, r, i, name);
    let rec = record_of(after, i, p.id);
    let (m, role) = cfg_of(before, i).member(name)->0;
    lemma_id_index(after.networks.entries@[i].1.registry@.members, p.id);
    let was = choose|was: Seq<RouteReg>| rec.routes == #[trigger] declared_routes(was, m.local_cidrs, now);
    assert forall|x: int| 0 <= x < rec.routes.len() implies exists|y: int|
        0 <= y < m.local_cidrs.len() && (#[trigger] m.local_cidrs[y]).truncated() == (
        #[trigger] rec.routes[x]).cidr by {
        law_a_join_applies_the_declaration(was, m.local_cidrs, now, rec.routes[x].cidr);
    }
    assert forall|y: int| 0 <= y < m.local_cidrs.len() implies exists|x: int|
        0 <= x < rec.routes.len() && (#[trigger] rec.routes[x]).cidr == (
        #[trigger] m.local_cidrs[y]).truncated() by {
        law_a_join_applies_the_declaration(was, m.local_cidrs, now, m.local_cidrs[y].truncated());
    }
}

/// A member is told what is on record of it and what is configured: its id,
/// addresses and generation, the routes that it registers, the default routes
/// where it is a way out, and the settings of the network.
pub proof fn law_a_join_is_answered_from_the_record(
    before: AppState,
    after: AppState,
    req: JoinRequest,
    ip: Seq<char>,
    allow_reclaim: bool,
    now: u64,
    r: Result<Joined, ApiError>,
    i: int,
    name: Seq<char>,
)
    requires
        before.wf(),
        joins(before, after, req, ip, allow_reclaim, now, r),
        r is Ok,
        secret_holder(before.networks.entries@, req.secret@) == Some((i, name)),
    ensures
        ({
            let a = r->Ok_0.response;
            let cfg = cfg_of(before, i);
            let rec = record_of(after, i, a.node_id);
            let (m, role) = cfg.member(name)->0;
            &&& a.name@ == name
            &&& a.role == role
            &&& a.login_gen == rec.login_gen
            &&& a.ip4 == rec.ip4
            &&& a.ip6 == rec.ip6
            &&& a.network_id@ == cfg.network_id
            &&& a.network_uuid@ == after.networks.entries@[i].1.registry@.network_uuid
            &&& a.mtu == cfg.settings.mtu
            &&& a.heartbeat_secs == cfg.settings.heartbeat_secs
            &&& a.transport@ == cfg.settings.transport
            &&& a.lanes == cfg.settings.lanes
            &&& a.max_session_mbps == match m.max_session_mbps {
                Some(cap) => cap,
                None => cfg.settings.max_session_mbps,
            }
            &&& opt_text(a.preferred_relay) == m.preferred_relay
            &&& a.control_port == before.control_port
            &&& rec.ip4 is Some ==> a.subnet4 == cfg.ipv4()
            &&& rec.ip6 is Some ==> a.subnet6 == cfg.ipv6()
            &&& forall|n: IpNet| #[trigger]
                a.granted_cidrs@.contains(n) <==> {
                    ||| exists|x: int|
                        0 <= x < rec.routes.len() && (#[trigger] rec.routes[x]).cidr == n
                    ||| role == Role::Relay && m.internet_gateway == Some(true) && n.prefix_len == 0
                        && (n.addr == IpAddr::V4(0) || n.addr == IpAddr::V6(0))
                }
        }),
{
    let p = lemma_join_parts(before, after, req, ip, allow_reclaim, now, r, i, name);
    let a = r->Ok_0.response;
    let cfg = cfg_of(before, i);
    let rec = record_of(after, i, a.node_id);
    let (m, role) = cfg.member(name)->0;
    assert forall|n: IpNet| #[trigger] a.granted_cidrs@.contains(n) <==> {
        ||| exists|x: int| 0 <= x < rec.routes.len() && (#[trigger] rec.routes[x]).cidr == n
        ||| role == Role::Relay && m.internet_gateway == Some(true) && n.prefix_len == 0 && (n.addr
            == IpAddr::V4(0) || n.addr == IpAddr::V6(0))
    } by {
        law_granted_routes_are_the_registered_ones(p.record, designated(cfg, name), n);
    }
}

/// A credential says who the member is and what it presented, from now until
/// the configured time has passed. It claims the host prefixes of the
/// addresses on record and every prefix that is registered, and nothing else.
pub proof fn law_a_credential_repeats_the_record(
    before: AppState,
    after: AppState,
    req: JoinRequest,
    ip: Seq<char>,
    allow_reclaim: bool,
    now: u64,
    r: Result<Joined, ApiError>,
    i: int,
    name: Seq<char>,
)
    requires
        before.wf(),
        joins(before, after, req, ip, allow_reclaim, now, r),
        r is Ok,
        secret_holder(before.networks.entries@, req.secret@) == Some((i, name)),
    ensures
        ({
            let c = r->Ok_0.claims;
            let cfg = cfg_of(before, i);
            let rec = record_of(after, i, r->Ok_0.response.node_id);
            &&& c.iss@ == "nqvpn-coord"@
            &&& c.network_id@ == cfg.network_id
            &&& c.network_uuid@ == after.networks.entries@[i].1.registry@.network_uuid
            &&& c.node_id == r->Ok_0.response.node_id
            &&& c.sub@ == name
            &&& c.role == (cfg.member(name)->0).1
            &&& c.pubkey@ == req.pubkey@
            &&& c.cert_fp@ == req.cert_fingerprint@
            &&& c.login_gen == rec.login_gen
            &&& c.iat == now
            &&& c.exp == now + cfg.settings.credential_ttl_mins * 60
            &&& rec.ip4 matches Some(a) ==> claims_prefix(c, IpAddr::V4(a).text() + "/32"@)
            &&& rec.ip6 matches Some(a) ==> claims_prefix(c, IpAddr::V6(a).text() + "/128"@)
            &&& forall|y: int|
                0 <= y < rec.routes.len() ==> claims_prefix(
                    c,
                    (#[trigger] rec.routes[y]).cidr.text(),
                )
            &&& forall|x: int|
                0 <= x < c.prefixes@.len() ==> {
                    let text = (#[trigger] c.prefixes@[x])@;
                    ||| rec.ip4 matches Some(a) && text == IpAddr::V4(a).text() + "/32"@
                    ||| rec.ip6 matches Some(a) && text == IpAddr::V6(a).text() + "/128"@
                    ||| exists|y: int|
                        0 <= y < rec.routes.len() && (#[trigger] rec.routes[y]).cidr.text() == text
                }
        }),
{
    let p = lemma_join_parts(before, after, req, ip, allow_reclaim, now, r, i, name);
    let c = r->Ok_0.claims;
    let cfg = cfg_of(before, i);
    let rec = record_of(after, i, r->Ok_0.response.node_id);
    assert forall|text: Seq<char>| #[trigger] claims_prefix(c, text) <==> {
        ||| rec.ip4 matches Some(a) && text == IpAddr::V4(a).text() + "/32"@
        ||| rec.ip6 matches Some(a) && text == IpAddr::V6(a).text() + "/128"@
        ||| exists|x: int|
            0 <= x < rec.routes.len() && (#[trigger] rec.routes[x]).cidr.text() == text
    } by {
        law_a_credential_claims_what_the_member_holds(
            c,
            cfg,
            p,
            name,
            req.pubkey@,
            req.cert_fingerprint@,
            now,
            text,
        );
    }
    assert forall|x: int| 0 <= x < c.prefixes@.len() implies claims_prefix(
        c,
        (#[trigger] c.prefixes@[x])@,
    ) by {}
}

/// A credential claims this prefix.
pub open spec fn claims_prefix(c: Claims, text: Seq<char>) -> bool {
    exists|x: int| 0 <= x < c.prefixes@.len() && (#[trigger] c.prefixes@[x])@ == text
}

/// Whatever changes a network publishes the view that follows from the
/// registry, and the change that it reports is the one between the two views.
pub proof fn law_a_change_republishes_the_view(
    reg: RegistryView,
    dir: Directory,
    after: NetState,
    now: u64,
    delta: Option<MembershipDelta>,
)
    requires
        republished(reg, dir, after, now, delta),
    ensures
        recomputed(
            dir,
            (Directory { history: dir.history, ..after.directory }),
            after.cfg@,
            reg,
            now,
            delta,
        ),
        after.registry@.members == reg.members,
        after.registry@.network_uuid == reg.network_uuid,
        after.registry@.next_node_id == reg.next_node_id,
        after.registry@.gen_hwm > after.directory.revision,
        after.directory.online_since == dir.online_since,
        after.directory.attachments == dir.attachments,
        after.directory.exits == dir.exits,
        dir.history.limit > 0 ==> (delta matches Some(d) ==> after.directory.history.deltas@.len() > 0
            && after.directory.history.deltas@.last()@ == d@),
        delta is None ==> after.directory.history == dir.history,
{
    if let Some(d) = delta {
        let t = after.directory.history.deltas@;
        let v = crate::history::delta_views(t);
        assert(v.len() == t.len());
        if dir.history.limit > 0 {
            assert(v.last() == d@);
            assert(v[t.len() - 1] == t[t.len() - 1]@);
        }
    }
}

/// Setting a member changes that member alone.
proof fn lemma_with_member(n: NetworkView, name: Seq<char>, role: Role, m: MemberView, x: Seq<char>)
    requires
        n.wf(),
        n.member(name) matches Some((_, q)) ==> q == role,
    ensures
        n.with_member(name, role, m).member(x) == if x == name {
            Some((m, role))
        } else {
            n.member(x)
        },
{
    law_setting_an_entry_changes_it_alone(n.clients, name, m, x);
    law_setting_an_entry_changes_it_alone(n.relays, name, m, x);
}

/// Those of the names that are told to join again have joined before, and
/// whoever has is.
pub proof fn law_only_who_has_joined_is_told(
    members: Seq<RecordView>,
    names: Seq<Seq<char>>,
    x: Seq<char>,
)
    ensures
        joined_among(members, names).contains(x) <==> names.contains(x) && exists|k: int|
            0 <= k < members.len() && (#[trigger] members[k]).name == x,
    decreases names.len(),
{
    let all = joined_among(members, names);
    if names.len() == 0 {
        assert(all =~= Seq::empty());
    } else {
        let d = names.drop_last();
        let p = joined_among(members, d);
        law_only_who_has_joined_is_told(members, d, x);
        lemma_name_index(members, x);
        lemma_name_index(members, names.last());
        if all.contains(x) {
            let i = choose|i: int| 0 <= i < all.len() && all[i] == x;
            if i < p.len() {
                assert(p[i] == x);
                let j = choose|j: int| 0 <= j < d.len() && d[j] == x;
                assert(names[j] == x);
            } else {
                assert(names[names.len() - 1] == x);
            }
        }
        if names.contains(x) && exists|k: int|
            0 <= k < members.len() && (#[trigger] members[k]).name == x {
            let j = choose|j: int| 0 <= j < names.len() && names[j] == x;
            if j < d.len() {
                assert(d[j] == x);
                let i = choose|i: int| 0 <= i < p.len() && p[i] == x;
                assert(all[i] == x);
            } else {
                assert(all[p.len() as int] == x);
            }
        }
    }
}

/// An edit that is accepted gives the member what it says, and leaves its
/// secret and what it may register; every other member stays as it is. The
/// member is told to join again exactly where it has joined and one of its
/// facts changed, and nobody else is.
pub proof fn law_an_edit_reaches_the_member_alone(
    before: NetState,
    after: NetState,
    name: Seq<char>,
    spec: MemberSpec,
    max_lanes: u8,
    resolved: Seq<(Seq<char>, Seq<IpAddr>)>,
    now: u64,
    r: Result<Change, ApiError>,
    m: MemberView,
    role: Role,
    x: Seq<char>,
)
    requires
        before.wf(),
        after.wf(),
        before.cfg@.member(name) == Some((m, role)),
        member_update(before, after, name, spec, max_lanes, resolved, now, r),
        r is Ok,
    ensures
        after.cfg@.member(x) == if x == name {
            Some(
                (
                    MemberView {
                        secret: m.secret,
                        relay_addr: opt_text(spec.relay_addr),
                        allowed_cidrs: m.allowed_cidrs,
                        local_cidrs: spec.local_cidrs@,
                        internet_gateway: spec.internet_gateway,
                        preferred_ip4: spec.preferred_ip4,
                        preferred_ip6: spec.preferred_ip6,
                        pool: opt_text(spec.pool),
                        want_vpn_ip: spec.want_vpn_ip,
                        max_session_mbps: spec.max_session_mbps,
                        preferred_relay: opt_text(spec.preferred_relay),
                    },
                    role,
                ),
            )
        } else {
            before.cfg@.member(x)
        },
        after.cfg@.settings == before.cfg@.settings,
        after.cfg@.cidrs == before.cfg@.cidrs,
        after.cfg@.pools == before.cfg@.pools,
        messages(r->Ok_0.rejoin@).contains(x) <==> {
            &&& x == name
            &&& exists|k: int|
                0 <= k < before.registry@.members.len() && (
                #[trigger] before.registry@.members[k]).name == x
            &&& {
                ||| opt_text(spec.relay_addr) != m.relay_addr
                ||| spec.local_cidrs@ != m.local_cidrs
                ||| spec.internet_gateway != m.internet_gateway
                ||| spec.preferred_ip4 != m.preferred_ip4
                ||| spec.preferred_ip6 != m.preferred_ip6
                ||| opt_text(spec.pool) != m.pool
                ||| spec.want_vpn_ip != m.want_vpn_ip
                ||| spec.max_session_mbps != m.max_session_mbps
                ||| opt_text(spec.preferred_relay) != m.preferred_relay
            }
        },
        r->Ok_0.closed is None,
        after.registry@.members == before.registry@.members,
{
    let a = before.cfg@;
    let b = after.cfg@;
    let now_says = spec.over(m);
    lemma_with_member(a, name, role, now_says, x);
    law_only_who_has_joined_is_told(
        before.registry@.members,
        changed_among(a, b.everyone()),
        x,
    );
    crate::admin::law_exactly_the_changed_members_rejoin(a, b.everyone(), x);
    law_the_facts_of_a_member(m, now_says);
    crate::accepted::law_a_member_has_one_role(b, max_lanes, resolved);
    assert forall|e: int| 0 <= e < b.everyone().len() && (#[trigger] b.everyone()[e]).0
        == x implies b.member(x) == Some((b.everyone()[e].1, b.everyone()[e].2)) by {
        lemma_everyone_is_found(b, e);
    }
    assert(changed_among(a, b.everyone()).contains(x) <==> x == name && !m.same_facts(now_says))
        by {
        if x == name {
            law_everyone_is_a_client_or_a_relay(b);
            law_a_member_is_found_by_its_name(b, name);
            assert(b.everyone().contains((name, now_says, role)));
            let e = choose|e: int|
                0 <= e < b.everyone().len() && b.everyone()[e] == (name, now_says, role);
            assert(b.everyone()[e].0 == x);
        } else if let Some((o, _)) = a.member(x) {
            law_the_facts_of_a_member(o, o);
        }
    }
}

/// Where nobody has two roles, everyone who is listed is who its name stands
/// for.
proof fn lemma_everyone_is_found(n: NetworkView, e: int)
    requires
        n.wf(),
        0 <= e < n.everyone().len(),
        forall|i: int|
            0 <= i < n.clients.len() ==> assoc(n.relays, (#[trigger] n.clients[i]).0) is None,
    ensures
        n.member(n.everyone()[e].0) == Some((n.everyone()[e].1, n.everyone()[e].2)),
{
    let c = n.clients.len();
    if e < c {
        assert(n.everyone()[e] == (n.clients[e].0, n.clients[e].1, Role::Client));
        lemma_ordered_assoc(n.clients, e);
    } else {
        let k = e - c;
        assert(n.everyone()[e] == (n.relays[k].0, n.relays[k].1, Role::Relay));
        lemma_ordered_assoc(n.relays, k);
        if assoc(n.clients, n.relays[k].0) is Some {
            let i = crate::config::lemma_assoc_some(n.clients, n.relays[k].0);
            assert(assoc(n.relays, n.clients[i].0) is None);
        }
    }
}

/// A member that is declared has the secret it was given and what was said of
/// it, and nothing else; every other member stays as it is. A name that is
/// taken is refused, and a refusal changes nothing.
pub proof fn law_a_declared_member_is_what_was_said(
    before: NetState,
    after: NetState,
    name: Seq<char>,
    role: Role,
    spec: MemberSpec,
    secret: Seq<char>,
    max_lanes: u8,
    resolved: Seq<(Seq<char>, Seq<IpAddr>)>,
    r: Result<(), ApiError>,
    x: Seq<char>,
)
    requires
        before.wf(),
        member_creation(before, after, name, role, spec, secret, max_lanes, resolved, r),
    ensures
        before.cfg@.member(name) is Some ==> r is Err,
        r is Err ==> after == before,
        r is Ok ==> {
            &&& after.cfg@.member(x) == if x == name {
                Some(
                    (
                        MemberView {
                            secret: Some(secret),
                            relay_addr: opt_text(spec.relay_addr),
                            allowed_cidrs: Seq::empty(),
                            local_cidrs: spec.local_cidrs@,
                            internet_gateway: spec.internet_gateway,
                            preferred_ip4: spec.preferred_ip4,
                            preferred_ip6: spec.preferred_ip6,
                            pool: opt_text(spec.pool),
                            want_vpn_ip: spec.want_vpn_ip,
                            max_session_mbps: spec.max_session_mbps,
                            preferred_relay: opt_text(spec.preferred_relay),
                        },
                        role,
                    ),
                )
            } else {
                before.cfg@.member(x)
            }
            &&& after.cfg@.settings == before.cfg@.settings
            &&& after.cfg@.cidrs == before.cfg@.cidrs
            &&& after.cfg@.pools == before.cfg@.pools
            &&& after.registry == before.registry
            &&& after.directory == before.directory
            &&& after.sessions == before.sessions
        },
{
    if r is Ok {
        let m = after.cfg@.member(name);
        let said = MemberView {
            secret: Some(secret),
            ..spec.over(crate::config::blank_member())
        };
        lemma_with_member(before.cfg@, name, role, said, x);
    }
}

/// New settings replace the address space, the pools and the settings, and
/// leave every member. Whoever is connected is told to join again exactly
/// where something changed that members hold: the MTU, the transport, the
/// lanes, the heartbeat, the lifetime of credentials or the cap.
pub proof fn law_settings_that_members_hold_make_them_rejoin(
    before: NetState,
    after: NetState,
    spec: NetworkSpec,
    max_lanes: u8,
    resolved: Seq<(Seq<char>, Seq<IpAddr>)>,
    now: u64,
    r: Result<Change, ApiError>,
    x: Seq<char>,
)
    requires
        before.wf(),
        settings_change(before, after, spec, max_lanes, resolved, now, r),
    ensures
        r is Err ==> after == before,
        r matches Ok(c) ==> {
            &&& after.cfg@.settings == spec.settings@
            &&& after.cfg@.cidrs == spec.cidrs@
            &&& after.cfg@.clients == before.cfg@.clients
            &&& after.cfg@.relays == before.cfg@.relays
            &&& after.cfg@.network_id == before.cfg@.network_id
            &&& after.directory.hold_down_secs == spec.settings.hold_down_secs
            &&& after.registry@.members == before.registry@.members
            &&& c.closed is None
            &&& messages(c.rejoin@).contains(x) <==> before.sessions@.dom().contains(x) && {
                ||| before.cfg.settings.mtu != spec.settings.mtu
                ||| before.cfg.settings.transport@ != spec.settings.transport@
                ||| before.cfg.settings.lanes != spec.settings.lanes
                ||| before.cfg.settings.heartbeat_secs != spec.settings.heartbeat_secs
                ||| before.cfg.settings.credential_ttl_mins != spec.settings.credential_ttl_mins
                ||| before.cfg.settings.max_session_mbps != spec.settings.max_session_mbps
            }
        },
{
    if let Ok(c) = r {
        let s = before.sessions.entries@;
        let names = crate::admin::session_names(s);
        assert(names.contains(x) <==> before.sessions@.dom().contains(x)) by {
            if names.contains(x) {
                let k = choose|k: int| 0 <= k < names.len() && names[k] == x;
                assert(s[k].0@ == x);
                crate::namemap::lemma_named_entry(s, k);
            }
            if before.sessions@.dom().contains(x) {
                let k = crate::namemap::lemma_name_key(s, x);
                assert(names[k] == x);
            }
        }
    }
}

/// A member's secret is replaced and nothing else of the configuration; its
/// generation goes up by one, so that what was handed out before is refused,
/// and its session is closed.
pub proof fn law_a_new_secret_ends_what_the_old_one_began(
    before: NetState,
    after: NetState,
    name: Seq<char>,
    secret: Seq<char>,
    now: u64,
    r: Result<Change, ApiError>,
    m: MemberView,
    role: Role,
    x: Seq<char>,
    k: int,
)
    requires
        before.wf(),
        before.cfg@.member(name) == Some((m, role)),
        secret_rotation(before, after, name, secret, now, r),
        0 <= k < before.registry@.members.len(),
        before.registry@.members[k].name == name,
        forall|j: int| 0 <= j < k ==> (#[trigger] before.registry@.members[j]).name != name,
        before.registry@.members[k].login_gen < u64::MAX,
    ensures
        r matches Ok(c) && opt_text(c.closed) == Some(name) && c.rejoin@.len() == 0,
        after.cfg@.member(x) == if x == name {
            Some((MemberView { secret: Some(secret), ..m }, role))
        } else {
            before.cfg@.member(x)
        },
        after.registry@.members.len() == before.registry@.members.len(),
        forall|j: int|
            0 <= j < before.registry@.members.len() && j != k ==> #[trigger]
            after.registry@.members[j] == before.registry@.members[j],
        ({
            let was = before.registry@.members[k];
            let is = after.registry@.members[k];
            &&& is.login_gen == was.login_gen + 1
            &&& is.replaced_unix == Some(now)
            &&& is.node_id == was.node_id
            &&& is.name == was.name
            &&& is.ip4 == was.ip4
            &&& is.ip6 == was.ip6
            &&& is.routes == was.routes
            &&& is.pubkey == was.pubkey
            &&& is.cert_fp == was.cert_fp
            &&& is.disabled == was.disabled
        }),
{
    lemma_with_member(before.cfg@, name, role, MemberView { secret: Some(secret), ..m }, x);
    crate::registry::lemma_name_index_is(before.registry@.members, name, k);
}

/// A member that is forgotten is gone from the configuration and from the
/// registry, its session is closed, and everyone else stays as they are.
pub proof fn law_a_forgotten_member_is_gone(
    before: NetState,
    after: NetState,
    name: Seq<char>,
    now: u64,
    r: Result<Change, ApiError>,
    x: Seq<char>,
)
    requires
        before.wf(),
        member_removal(before, after, name, now, r),
        r is Ok,
    ensures
        after.cfg@.member(x) == if x == name {
            None
        } else {
            before.cfg@.member(x)
        },
        forall|k: int|
            0 <= k < before.registry@.members.len() && before.registry@.members[k].name == name && (
            forall|j: int| 0 <= j < k ==> (#[trigger] before.registry@.members[j]).name != name)
                ==> opt_text(r->Ok_0.closed) == Some(name) && #[trigger]
            before.registry@.members.remove(k) == after.registry@.members,
        (forall|k: int|
            0 <= k < before.registry@.members.len() ==> (#[trigger] before.registry@.members[k]).name
                != name) ==> after.registry@.members == before.registry@.members,
        after.registry@.next_node_id == before.registry@.next_node_id,
{
    law_removing_an_entry_changes_it_alone(before.cfg@.clients, name, x);
    law_removing_an_entry_changes_it_alone(before.cfg@.relays, name, x);
    let s = before.registry@.members;
    lemma_name_index(s, name);
    assert forall|k: int|
        0 <= k < s.len() && s[k].name == name && (forall|j: int|
            0 <= j < k ==> (#[trigger] s[j]).name != name) implies opt_text(r->Ok_0.closed) == Some(
        name,
    ) && #[trigger] s.remove(k) == after.registry@.members by {
        crate::registry::lemma_name_index_is(s, name, k);
        lemma_id_index_is(s, s[k].node_id, k);
    }
}

/// Disabling a member or enabling it changes that and nothing else on record;
/// a disabled member's session is closed, an enabled one's is not.
pub proof fn law_disabling_changes_one_record(
    before: NetState,
    after: NetState,
    name: Seq<char>,
    disabled: bool,
    now: u64,
    r: Result<Change, ApiError>,
    k: int,
)
    requires
        before.wf(),
        disabling(before, after, name, disabled, now, r),
        0 <= k < before.registry@.members.len(),
        before.registry@.members[k].name == name,
        forall|j: int| 0 <= j < k ==> (#[trigger] before.registry@.members[j]).name != name,
    ensures
        r matches Ok(c) && (if disabled {
            opt_text(c.closed) == Some(name)
        } else {
            c.closed is None
        }) && c.rejoin@.len() == 0,
        after.registry@.members == before.registry@.members.update(
            k,
            RecordView { disabled, ..before.registry@.members[k] },
        ),
        after.cfg == before.cfg,
        after.sessions == before.sessions,
{
    crate::registry::lemma_name_index_is(before.registry@.members, name, k);
}

/// An edit, a declaration and new settings are done where the configuration
/// that they lead to is a valid one, and refused where it is not.
pub proof fn law_a_valid_change_is_made(
    before: NetState,
    after: NetState,
    name: Seq<char>,
    spec: MemberSpec,
    max_lanes: u8,
    resolved: Seq<(Seq<char>, Seq<IpAddr>)>,
    now: u64,
    r: Result<Change, ApiError>,
    m: MemberView,
    role: Role,
)
    requires
        member_update(before, after, name, spec, max_lanes, resolved, now, r),
    ensures
        before.cfg@.member(name) is None ==> r is Err,
        r is Err ==> after == before,
        before.cfg@.member(name) == Some((m, role)) ==> (r is Ok <==> network_problem(
            before.cfg@.with_member(
                name,
                role,
                MemberView {
                    secret: m.secret,
                    relay_addr: opt_text(spec.relay_addr),
                    allowed_cidrs: m.allowed_cidrs,
                    local_cidrs: spec.local_cidrs@,
                    internet_gateway: spec.internet_gateway,
                    preferred_ip4: spec.preferred_ip4,
                    preferred_ip6: spec.preferred_ip6,
                    pool: opt_text(spec.pool),
                    want_vpn_ip: spec.want_vpn_ip,
                    max_session_mbps: spec.max_session_mbps,
                    preferred_relay: opt_text(spec.preferred_relay),
                },
            ),
            max_lanes,
            resolved,
        ) is None),
{
}

/// A member that is not declared yet is declared where the configuration with
/// it is a valid one.
pub proof fn law_a_valid_declaration_is_made(
    before: NetState,
    after: NetState,
    name: Seq<char>,
    role: Role,
    spec: MemberSpec,
    secret: Seq<char>,
    max_lanes: u8,
    resolved: Seq<(Seq<char>, Seq<IpAddr>)>,
    r: Result<(), ApiError>,
)
    requires
        member_creation(before, after, name, role, spec, secret, max_lanes, resolved, r),
    ensures
        before.cfg@.member(name) is None ==> (r is Ok <==> network_problem(
            before.cfg@.with_member(
                name,
                role,
                MemberView {
                    secret: Some(secret),
                    relay_addr: opt_text(spec.relay_addr),
                    allowed_cidrs: Seq::empty(),
                    local_cidrs: spec.local_cidrs@,
                    internet_gateway: spec.internet_gateway,
                    preferred_ip4: spec.preferred_ip4,
                    preferred_ip6: spec.preferred_ip6,
                    pool: opt_text(spec.pool),
                    want_vpn_ip: spec.want_vpn_ip,
                    max_session_mbps: spec.max_session_mbps,
                    preferred_relay: opt_text(spec.preferred_relay),
                },
            ),
            max_lanes,
            resolved,
        ) is None),
{
}

/// New settings are taken where the network with them is a valid one.
pub proof fn law_valid_settings_are_taken(
    before: NetState,
    after: NetState,
    spec: NetworkSpec,
    max_lanes: u8,
    resolved: Seq<(Seq<char>, Seq<IpAddr>)>,
    now: u64,
    r: Result<Change, ApiError>,
    next: NetworkView,
)
    requires
        settings_change(before, after, spec, max_lanes, resolved, now, r),
        next.network_id == before.cfg@.network_id,
        next.cidrs == spec.cidrs@,
        next.pools == crate::config::pool_views(spec.pools.entries@),
        next.settings == spec.settings@,
        next.clients == before.cfg@.clients,
        next.relays == before.cfg@.relays,
    ensures
        r is Ok <==> network_problem(next, max_lanes, resolved) is None,
        r is Ok ==> after.cfg@ == next,
{
    assert(spec.over(before.cfg@) == next);
}

/// The two differ in what a member holds or is told.
pub open spec fn some_field_differs(a: MemberView, b: MemberView) -> bool {
    ||| a.relay_addr != b.relay_addr
    ||| a.local_cidrs != b.local_cidrs
    ||| a.internet_gateway != b.internet_gateway
    ||| a.preferred_ip4 != b.preferred_ip4
    ||| a.preferred_ip6 != b.preferred_ip6
    ||| a.pool != b.pool
    ||| a.want_vpn_ip != b.want_vpn_ip
    ||| a.max_session_mbps != b.max_session_mbps
    ||| a.preferred_relay != b.preferred_relay
}

/// Between two configurations those members changed that are new, and those of
/// whom a field that they hold or are told differs; no others.
pub proof fn law_a_member_changed_where_a_field_differs(
    before: NetworkView,
    next: Seq<(Seq<char>, MemberView, Role)>,
    name: Seq<char>,
)
    ensures
        changed_among(before, next).contains(name) <==> exists|i: int|
            0 <= i < next.len() && (#[trigger] next[i]).0 == name && (before.member(name) is None
                || some_field_differs((before.member(name)->0).0, next[i].1)),
{
    crate::admin::law_exactly_the_changed_members_rejoin(before, next, name);
    assert forall|i: int| 0 <= i < next.len() && (#[trigger] next[i]).0 == name implies (
    crate::admin::differs(before, next[i]) <==> (before.member(name) is None || some_field_differs(
        (before.member(name)->0).0,
        next[i].1,
    ))) by {
        if before.member(name) is Some {
            law_the_facts_of_a_member((before.member(name)->0).0, next[i].1);
        }
    }
}

/// A join is refused where there were too many in this minute, where nobody
/// holds the secret, where the keys are none, and where the member is
/// disabled; a member that passes and wants no address is let in. A refused
/// join changes no network.
pub proof fn law_a_join_is_refused_for_cause(
    before: AppState,
    after: AppState,
    req: JoinRequest,
    ip: Seq<char>,
    allow_reclaim: bool,
    now: u64,
    r: Result<Joined, ApiError>,
    i: int,
    name: Seq<char>,
)
    requires
        joins(before, after, req, ip, allow_reclaim, now, r),
        uses_now(before.join_rate@, req.secret@, ip, now) < u32::MAX,
    ensures
        ({
            let used = uses_now(before.join_rate@, req.secret@, ip, now) + 1;
            let many = used > before.coord.limits.join_rate_per_min;
            let held = secret_holder(before.networks.entries@, req.secret@);
            let keys = keys_problem(req.pubkey@, req.cert_fingerprint@);
            let members = before.networks.entries@[i].1.registry@.members;
            let disabled = exists|k: int|
                0 <= k < members.len() && (#[trigger] members[k]).name == name && (forall|j: int|
                    0 <= j < k ==> (#[trigger] members[j]).name != name) && members[k].disabled;
            &&& r is Err ==> forall|j: int|
                0 <= j < before.networks.entries@.len() ==> {
                    let a = before.networks.entries@[j].1;
                    let b = (#[trigger] after.networks.entries@[j]).1;
                    &&& b.registry@ == a.registry@
                    &&& b.directory == a.directory
                    &&& b.sessions == a.sessions
                    &&& b.leases == a.leases
                    &&& b.cfg == a.cfg
                }
            &&& many ==> (r matches Err(e) && e.code == ErrorCode::RateLimited)
            &&& !many && held is None ==> (r matches Err(e) && e.code == ErrorCode::BadCredentials)
            &&& !many && held is Some && keys is Some ==> r is Err
            &&& !many && held == Some((i, name)) && keys is None && disabled ==> (r matches Err(e)
                && e.code == ErrorCode::ClientDisabled)
            &&& !many && held == Some((i, name)) && keys is None && !disabled && (cfg_of(
                before,
                i,
            ).member(name)->0).0.want_vpn_ip == Some(false) ==> r is Ok
        }),
{
    let members = before.networks.entries@[i].1.registry@.members;
    lemma_name_index(members, name);
    if let Some(k) = name_index(members, name) {
        assert(members[k].name == name);
    }
}

/// A join from another machine than the one on record ends the session that
/// the member has; one from the same machine, or of a member without a
/// session, ends none.
pub proof fn law_another_machine_ends_the_session(
    before: AppState,
    after: AppState,
    req: JoinRequest,
    ip: Seq<char>,
    allow_reclaim: bool,
    now: u64,
    r: Result<Joined, ApiError>,
    i: int,
    name: Seq<char>,
    k: int,
)
    requires
        joins(before, after, req, ip, allow_reclaim, now, r),
        r is Ok,
        secret_holder(before.networks.entries@, req.secret@) == Some((i, name)),
        ({
            let members = before.networks.entries@[i].1.registry@.members;
            &&& 0 <= k < members.len()
            &&& members[k].name == name
            &&& forall|j: int| 0 <= j < k ==> (#[trigger] members[j]).name != name
        }),
    ensures
        ({
            let rec = before.networks.entries@[i].1.registry@.members[k];
            let open = before.networks.entries@[i].1.sessions@.dom().contains(name);
            let other = (rec.pubkey is Some && rec.pubkey != Some(req.pubkey@)) || (
            rec.cert_fp is Some && rec.cert_fp != Some(req.cert_fingerprint@));
            let whole = rec.pubkey is Some <==> rec.cert_fp is Some;
            &&& whole && open && other ==> opt_text(r->Ok_0.closed) == Some(name)
            &&& whole && !(open && other) ==> r->Ok_0.closed is None
        }),
{
    let members = before.networks.entries@[i].1.registry@.members;
    crate::registry::lemma_name_index_is(members, name, k);
}

/// A join is answered with the relays as they can be dialed now, with where
/// the member itself is dialed if it is a relay, with the subnets of the
/// addresses that it was granted and of no others, and with the keys that
/// credentials are verified by.
pub proof fn law_a_join_tells_of_the_fleet_and_the_keys(
    before: AppState,
    after: AppState,
    req: JoinRequest,
    ip: Seq<char>,
    allow_reclaim: bool,
    now: u64,
    r: Result<Joined, ApiError>,
    i: int,
    name: Seq<char>,
)
    requires
        before.wf(),
        joins(before, after, req, ip, allow_reclaim, now, r),
        r is Ok,
        secret_holder(before.networks.entries@, req.secret@) == Some((i, name)),
    ensures
        ({
            let a = r->Ok_0.response;
            let cfg = cfg_of(before, i);
            let m = (cfg.member(name)->0).0;
            let members = after.networks.entries@[i].1.registry@.members;
            &&& relay_views(a.relays@) == relay_fleet(cfg.relays, members)
            &&& m.relay_addr is None ==> a.relay_addr is None
            &&& m.relay_addr is Some ==> opt_text(a.relay_addr) == dial_addr(
                m.relay_addr->0,
                Some(ip),
            )
            &&& a.ip4 is None ==> a.subnet4 is None
            &&& a.ip6 is None ==> a.subnet6 is None
            &&& before.keyring.told(a.coordinator_signing_keys@)
        }),
{
    let p = lemma_join_parts(before, after, req, ip, allow_reclaim, now, r, i, name);
}

} // verus!
