//! What an operator changes: networks and members come, change and go.
//!
//! Every change is checked as a whole network first, and one that is refused
//! leaves the running configuration as it was. A change that is accepted says
//! which members have to join again to pick it up.

use vstd::prelude::*;

use crate::accepted::law_accepted_ranges_are_disjoint;
use crate::config::{
    assoc, blank_member, pool_views, MemberCfg, MemberView, NetworkConfig, NetworkView, PoolCfg,
    SettingsCfg, SettingsView,
};
use crate::directory::{
    changed_peers, law_a_disabled_member_is_not_published, lemma_removed, next_owners, owner_views,
    peer_with_id, removed_peers, Directory,
};
use crate::error::{error_view, ApiError, ErrorCode, ErrorView};
use crate::history::keeps;
use crate::leases::LeasesView;
use crate::namemap::NameMap;
use crate::net::{all_valid, IpAddr, IpNet};
use crate::owners::owners_table;
use crate::proto::{copy_nets, peer_views, MembershipDelta, Role};
use crate::registry::{lemma_name_index, name_index, named, RecordView, Registry, RegistryView};
use crate::state::{gen_room, messages, NetState, SessionInfo};
use crate::text::{chars_of, copy_opt, debug_text, opt_text, quoted, said, say, str_eq, texts};
use crate::validate::{network_problem, resolved_view, validate_network};

verus! {

/// A network as the operator creates or edits it: no members.
#[derive(Debug)]
pub struct NetworkSpec {
    pub network_id: String,
    pub cidrs: Vec<IpNet>,
    pub pools: NameMap<PoolCfg>,
    pub settings: SettingsCfg,
}

impl NetworkSpec {
    /// The pools are in order and every prefix is a valid one.
    pub open spec fn wf(self) -> bool {
        &&& self.pools.wf()
        &&& all_valid(self.cidrs@)
        &&& forall|i: int|
            0 <= i < self.pools.entries@.len() ==> (#[trigger] self.pools.entries@[i]).1.cidr.valid()
    }

    /// The configuration of this network with the members that `n` has.
    pub open spec fn over(self, n: NetworkView) -> NetworkView {
        NetworkView {
            cidrs: self.cidrs@,
            pools: pool_views(self.pools.entries@),
            settings: self.settings@,
            ..n
        }
    }
}

/// A network that has nothing but a name.
pub open spec fn bare_network(id: Seq<char>) -> NetworkView {
    NetworkView {
        network_id: id,
        cidrs: Seq::empty(),
        pools: Seq::empty(),
        settings: crate::config::default_settings(),
        relays: Seq::empty(),
        clients: Seq::empty(),
    }
}

/// A member as the operator creates or edits it. The secret is never part of
/// it: it is generated, and rotated on request.
#[derive(Debug)]
pub struct MemberSpec {
    pub relay_addr: Option<String>,
    pub local_cidrs: Vec<IpNet>,
    pub internet_gateway: Option<bool>,
    pub preferred_ip4: Option<u32>,
    pub preferred_ip6: Option<u128>,
    pub pool: Option<String>,
    pub want_vpn_ip: Option<bool>,
    pub max_session_mbps: Option<u32>,
    pub preferred_relay: Option<String>,
}

impl MemberSpec {
    /// The member `m` with everything that this says of it.
    pub open spec fn over(self, m: MemberView) -> MemberView {
        MemberView {
            secret: m.secret,
            allowed_cidrs: m.allowed_cidrs,
            relay_addr: opt_text(self.relay_addr),
            local_cidrs: self.local_cidrs@,
            internet_gateway: self.internet_gateway,
            preferred_ip4: self.preferred_ip4,
            preferred_ip6: self.preferred_ip6,
            pool: opt_text(self.pool),
            want_vpn_ip: self.want_vpn_ip,
            max_session_mbps: self.max_session_mbps,
            preferred_relay: opt_text(self.preferred_relay),
        }
    }

    fn apply(&self, m: &mut MemberCfg)
        ensures
            final(m)@ == self.over(old(m)@),
    {
        m.relay_addr = copy_opt(&self.relay_addr);
        m.local_cidrs = copy_nets(&self.local_cidrs);
        m.internet_gateway = self.internet_gateway;
        m.preferred_ip4 = self.preferred_ip4;
        m.preferred_ip6 = self.preferred_ip6;
        m.pool = copy_opt(&self.pool);
        m.want_vpn_ip = self.want_vpn_ip;
        m.max_session_mbps = self.max_session_mbps;
        m.preferred_relay = copy_opt(&self.preferred_relay);
    }

    /// What an operator would say to get this member.
    pub fn from_cfg(m: &MemberCfg) -> (r: MemberSpec)
        ensures
            r.over(m@) == m@,
            forall|other: MemberView| #[trigger] r.over(other).same_facts(m@),
    {
        MemberSpec {
            relay_addr: copy_opt(&m.relay_addr),
            local_cidrs: copy_nets(&m.local_cidrs),
            internet_gateway: m.internet_gateway,
            preferred_ip4: m.preferred_ip4,
            preferred_ip6: m.preferred_ip6,
            pool: copy_opt(&m.pool),
            want_vpn_ip: m.want_vpn_ip,
            max_session_mbps: m.max_session_mbps,
            preferred_relay: copy_opt(&m.preferred_relay),
        }
    }
}

/// A character that names are made of.
pub open spec fn name_char(c: char) -> bool {
    ||| 'a' <= c <= 'z'
    ||| 'A' <= c <= 'Z'
    ||| '0' <= c <= '9'
    ||| c == '-'
    ||| c == '_'
    ||| c == '.'
}

/// A name that a network or a member may have.
pub open spec fn good_name(s: Seq<char>) -> bool {
    &&& 1 <= s.len() <= 64
    &&& forall|i: int| 0 <= i < s.len() ==> name_char(#[trigger] s[i])
}

/// What an operator is told of a name that is not a good one.
pub open spec fn name_error() -> ErrorView {
    error_view(ErrorCode::BadRequest, "names are 1-64 characters of [A-Za-z0-9._-]"@)
}

/// Names are 1 to 64 letters, digits, dots, dashes and underscores.
pub fn valid_name(name: &str) -> (r: Result<(), ApiError>)
    ensures
        match r {
            Ok(_) => good_name(name@),
            Err(e) => !good_name(name@) && e@ == name_error(),
        },
{
    let chars = chars_of(name);
    let mut ok = chars.len() >= 1 && chars.len() <= 64;
    let mut i: usize = 0;
    while i < chars.len()
        invariant
            i <= chars@.len(),
            chars@ == name@,
            ok == (1 <= chars@.len() <= 64 && forall|k: int|
                0 <= k < i ==> name_char(#[trigger] chars@[k])),
        decreases chars.len() - i,
    {
        let c = chars[i];
        let fine = ('a' <= c && c <= 'z') || ('A' <= c && c <= 'Z') || ('0' <= c && c <= '9') || c
            == '-' || c == '_' || c == '.';
        assert(fine == name_char(chars@[i as int]));
        ok = ok && fine;
        i = i + 1;
    }
    if ok {
        Ok(())
    } else {
        Err(
            ApiError::bad_request("names are 1-64 characters of [A-Za-z0-9._-]".to_owned()),
        )
    }
}

/// The members of `now` of which `before` says something else, or nothing.
pub open spec fn changed_among(
    before: NetworkView,
    now: Seq<(Seq<char>, MemberView, Role)>,
) -> Seq<Seq<char>>
    decreases now.len(),
{
    if now.len() == 0 {
        Seq::empty()
    } else {
        let p = changed_among(before, now.drop_last());
        let (name, m, _) = now.last();
        if before.member(name) matches Some((o, _)) && o.same_facts(m) {
            p
        } else {
            p.push(name)
        }
    }
}

/// What a configuration says of a member differs from what it said before.
pub open spec fn differs(before: NetworkView, e: (Seq<char>, MemberView, Role)) -> bool {
    !(before.member(e.0) matches Some((o, _)) && o.same_facts(e.1))
}

/// A member is told to join again exactly when what is said of it changed:
/// an edit disturbs nobody else.
pub proof fn law_exactly_the_changed_members_rejoin(
    before: NetworkView,
    now: Seq<(Seq<char>, MemberView, Role)>,
    name: Seq<char>,
)
    ensures
        changed_among(before, now).contains(name) <==> exists|i: int|
            0 <= i < now.len() && (#[trigger] now[i]).0 == name && differs(before, now[i]),
    decreases now.len(),
{
    if now.len() > 0 {
        let d = now.drop_last();
        law_exactly_the_changed_members_rejoin(before, d, name);
        let p = changed_among(before, d);
        let all = changed_among(before, now);
        if all.contains(name) {
            let j = choose|j: int| 0 <= j < all.len() && all[j] == name;
            if j < p.len() {
                assert(p[j] == name);
                let i = choose|i: int|
                    0 <= i < d.len() && (#[trigger] d[i]).0 == name && differs(before, d[i]);
                assert(now[i] == d[i]);
            } else {
                assert(now[now.len() - 1].0 == name);
            }
        }
        if exists|i: int|
            0 <= i < now.len() && (#[trigger] now[i]).0 == name && differs(before, now[i]) {
            let i = choose|i: int|
                0 <= i < now.len() && (#[trigger] now[i]).0 == name && differs(before, now[i]);
            if i < d.len() {
                assert(d[i] == now[i]);
                let j = choose|j: int| 0 <= j < p.len() && p[j] == name;
                assert(all[j] == name);
            } else {
                assert(all[all.len() - 1] == name);
            }
        }
    } else {
        assert(changed_among(before, now) =~= Seq::empty());
    }
}

/// Which members' facts changed between two configurations of one network:
/// those are told to join again.
pub fn changed_members(before: &NetworkConfig, now: &NetworkConfig) -> (r: Vec<String>)
    requires
        before.wf(),
        now.wf(),
        now@.everyone().len() <= usize::MAX,
    ensures
        messages(r@) == changed_among(before@, now@.everyone()),
{
    let ghost all = now@.everyone();
    assert(now@.clients.len() == now.clients.entries@.len());
    assert(now@.relays.len() == now.relays.entries@.len());
    let total = now.clients.entries.len() + now.relays.entries.len();
    let mut out: Vec<String> = Vec::new();
    let mut i: usize = 0;
    assert(messages(out@) =~= changed_among(before@, all.take(0)));
    while i < total
        invariant
            i <= total,
            total == all.len(),
            all == now@.everyone(),
            before.wf(),
            now.wf(),
            messages(out@) == changed_among(before@, all.take(i as int)),
        decreases total - i,
    {
        let (name, m, role) = crate::validate::nth_member(now, i);
        assert(all.take(i + 1).drop_last() =~= all.take(i as int));
        assert(all.take(i + 1).last() == all[i as int]);
        let same = match before.member_by_name(name) {
            Some((o, _)) => o.facts_equal(m),
            None => false,
        };
        let ghost was = messages(out@);
        if !same {
            out.push(name.to_owned());
            assert(messages(out@) =~= was.push(name@));
        }
        i = i + 1;
    }
    assert(all.take(i as int) =~= all);
    out
}

/// Those of the names that have joined at least once.
pub open spec fn joined_among(members: Seq<RecordView>, names: Seq<Seq<char>>) -> Seq<Seq<char>>
    decreases names.len(),
{
    if names.len() == 0 {
        Seq::empty()
    } else {
        let p = joined_among(members, names.drop_last());
        if named(members, names.last()) is Some {
            p.push(names.last())
        } else {
            p
        }
    }
}

pub(crate) fn keep_joined(reg: &Registry, names: &Vec<String>) -> (r: Vec<String>)
    ensures
        messages(r@) == joined_among(reg@.members, messages(names@)),
{
    let ghost v = messages(names@);
    let mut out: Vec<String> = Vec::new();
    let mut i: usize = 0;
    assert(messages(out@) =~= joined_among(reg@.members, v.take(0)));
    while i < names.len()
        invariant
            i <= names@.len(),
            v == messages(names@),
            v.len() == names@.len(),
            messages(out@) == joined_among(reg@.members, v.take(i as int)),
        decreases names.len() - i,
    {
        assert(v.take(i + 1).drop_last() =~= v.take(i as int));
        assert(v.take(i + 1).last() == names@[i as int]@);
        let ghost was = messages(out@);
        if reg.id_of(names[i].as_str()).is_some() {
            out.push(names[i].clone());
            assert(messages(out@) =~= was.push(names@[i as int]@));
        }
        i = i + 1;
    }
    assert(v.take(i as int) =~= v);
    out
}

/// What a change makes the coordinator do besides saving it.
#[derive(Debug)]
pub struct Change {
    /// Who is told to join again.
    pub rejoin: Vec<String>,
    /// Whose session is closed.
    pub closed: Option<String>,
    /// For everyone: the change of the published view.
    pub delta: Option<MembershipDelta>,
}

/// A view was recomputed: `after` publishes what follows from `reg` and
/// `dir`, and `delta` says how that differs from what `dir` published.
pub open spec fn republished(
    reg: RegistryView,
    dir: Directory,
    after: NetState,
    now: u64,
    delta: Option<MembershipDelta>,
) -> bool {
    let prev = peer_views(dir.peers@);
    let goal = dir.next_peers(after.cfg@, reg, now);
    &&& after.registry@ == reg.noted(after.directory.revision)
    &&& after.registry@.gen_hwm > after.directory.revision
    &&& owner_views(after.directory.owners@) == next_owners(
        owners_table(reg.members),
        reg.members,
        owner_views(dir.owners@),
        dir.online_since@,
        dir.hold_down_secs,
        now,
    )
    &&& peer_views(after.directory.peers@) == goal
    &&& after.directory == (Directory {
        owners: after.directory.owners,
        peers: after.directory.peers,
        revision: after.directory.revision,
        history: after.directory.history,
        ..dir
    })
    &&& keeps(dir.history, after.directory.history, delta)
    &&& match delta {
        None => prev == goal && after.directory.revision == dir.revision,
        Some(d) => {
            &&& prev != goal
            &&& after.directory.revision == dir.revision + 1
            &&& d.base_rev == dir.revision
            &&& d.new_rev == after.directory.revision
            &&& peer_views(d.changed@) == changed_peers(prev, goal)
            &&& d.removed@ == removed_peers(prev, goal)
        },
    }
}

/// The names of the live sessions, in order.
pub open spec fn session_names(s: Seq<(String, SessionInfo)>) -> Seq<Seq<char>> {
    s.map_values(|e: (String, SessionInfo)| e.0@)
}

fn list_sessions(sessions: &NameMap<SessionInfo>) -> (r: Vec<String>)
    ensures
        messages(r@) == session_names(sessions.entries@),
{
    let mut out: Vec<String> = Vec::new();
    let mut i: usize = 0;
    while i < sessions.entries.len()
        invariant
            i <= sessions.entries@.len(),
            out@.len() == i,
            forall|k: int| 0 <= k < i ==> (#[trigger] out@[k])@ == sessions.entries@[k].0@,
        decreases sessions.entries.len() - i,
    {
        out.push(sessions.entries[i].0.clone());
        i = i + 1;
    }
    assert(messages(out@) =~= session_names(sessions.entries@));
    out
}

/// The settings that every member holds, so that a change of one of them
/// makes everyone join again.
pub open spec fn everyone_rejoins(a: SettingsView, b: SettingsView) -> bool {
    ||| a.mtu != b.mtu
    ||| a.transport != b.transport
    ||| a.lanes != b.lanes
    ||| a.heartbeat_secs != b.heartbeat_secs
    ||| a.credential_ttl_mins != b.credential_ttl_mins
    ||| a.max_session_mbps != b.max_session_mbps
}

/// The outcome of replacing a network's address space, pools and settings.
pub open spec fn settings_change(
    before: NetState,
    after: NetState,
    spec: NetworkSpec,
    max_lanes: u8,
    resolved: Seq<(Seq<char>, Seq<IpAddr>)>,
    now: u64,
    r: Result<Change, ApiError>,
) -> bool {
    let next = spec.over(before.cfg@);
    match (network_problem(next, max_lanes, resolved), r) {
        (Some(p), Err(e)) => e@ == error_view(ErrorCode::BadRequest, p) && after == before,
        (None, Ok(c)) => {
            &&& after.cfg@ == next
            &&& messages(c.rejoin@) == if everyone_rejoins(before.cfg@.settings, spec.settings@) {
                session_names(before.sessions.entries@)
            } else {
                Seq::<Seq<char>>::empty()
            }
            &&& c.closed is None
            &&& republished(
                before.registry@,
                (Directory { hold_down_secs: spec.settings.hold_down_secs, ..before.directory }),
                after,
                now,
                c.delta,
            )
            &&& after == (NetState {
                cfg: after.cfg,
                registry: after.registry,
                directory: after.directory,
                ..before
            })
        },
        _ => false,
    }
}

impl NetState {
    /// Replace the network's address space, pools and settings; members are
    /// untouched.
    pub fn change_settings(
        &mut self,
        spec: NetworkSpec,
        max_lanes: u8,
        resolved: &Vec<(String, Vec<IpAddr>)>,
        now: u64,
    ) -> (r: Result<Change, ApiError>)
        requires
            old(self).wf(),
            spec.wf(),
            gen_room(old(self).directory.revision),
        ensures
            final(self).wf(),
            settings_change(
                *old(self),
                *final(self),
                spec,
                max_lanes,
                resolved_view(resolved@),
                now,
                r,
            ),
    {
        let mut cfg = self.cfg.copy();
        let NetworkSpec { network_id: _, cidrs, pools, settings } = spec;
        let hold_down = settings.hold_down_secs;
        cfg.cidrs = cidrs;
        cfg.pools = pools;
        cfg.settings = settings;
        proof {
            lemma_pools_ordered(cfg.pools);
        }
        if let Err(e) = validate_network(&cfg, max_lanes, resolved) {
            return Err(ApiError::bad_request(e));
        }
        proof {
            law_accepted_ranges_are_disjoint(cfg@, max_lanes, resolved_view(resolved@));
        }
        let everyone = self.cfg.settings.mtu != cfg.settings.mtu || !str_eq(
            self.cfg.settings.transport.as_str(),
            cfg.settings.transport.as_str(),
        ) || self.cfg.settings.lanes != cfg.settings.lanes || self.cfg.settings.heartbeat_secs
            != cfg.settings.heartbeat_secs || self.cfg.settings.credential_ttl_mins
            != cfg.settings.credential_ttl_mins || self.cfg.settings.max_session_mbps
            != cfg.settings.max_session_mbps;
        self.cfg = cfg;
        self.directory.hold_down_secs = hold_down;
        let rejoin = if everyone {
            list_sessions(&self.sessions)
        } else {
            Vec::new()
        };
        assert(!everyone ==> messages(rejoin@) =~= Seq::empty());
        let delta = self.refresh_directory(now);
        Ok(Change { rejoin, closed: None, delta })
    }
}

/// A map's pools are in order and, where it holds valid ones, valid.
pub proof fn lemma_pools_ordered(m: NameMap<PoolCfg>)
    requires
        m.wf(),
        forall|i: int| 0 <= i < m.entries@.len() ==> (#[trigger] m.entries@[i]).1.cidr.valid(),
    ensures
        crate::config::ordered(pool_views(m.entries@)),
        forall|i: int|
            0 <= i < pool_views(m.entries@).len() ==> (#[trigger] pool_views(
                m.entries@,
            )[i]).1.valid(),
{
    let v = pool_views(m.entries@);
    assert forall|i: int, j: int| 0 <= i < j < v.len() implies crate::text::text_before(
        (#[trigger] v[i]).0,
        (#[trigger] v[j]).0,
    ) by {
        assert(crate::text::text_before(m.entries@[i].0@, m.entries@[j].0@));
    }
    assert forall|i: int| 0 <= i < v.len() implies (#[trigger] v[i]).1.valid() by {
        assert(m.entries@[i].1.cidr.valid());
    }
}

/// A message about something by its quoted name.
pub open spec fn about(what: Seq<char>, name: Seq<char>, rest: Seq<char>) -> Seq<char> {
    said(seq![what, debug_text(name), rest])
}

fn tell_about(what: &str, name: &str, rest: &str) -> (r: String)
    ensures
        r@ == about(what@, name@, rest@),
{
    let q = quoted(name);
    let parts = vec![what, q.as_str(), rest];
    assert(texts(parts@) =~= seq![what@, debug_text(name@), rest@]);
    say(&parts)
}

/// The outcome of declaring a member that is to have this secret.
pub open spec fn member_creation(
    before: NetState,
    after: NetState,
    name: Seq<char>,
    role: Role,
    spec: MemberSpec,
    secret: Seq<char>,
    max_lanes: u8,
    resolved: Seq<(Seq<char>, Seq<IpAddr>)>,
    r: Result<(), ApiError>,
) -> bool {
    let m = MemberView { secret: Some(secret), ..spec.over(blank_member()) };
    let next = before.cfg@.with_member(name, role, m);
    if before.cfg@.member(name) is Some {
        &&& r matches Err(e) && e@ == error_view(
            ErrorCode::BadRequest,
            about("member "@, name, " already exists"@),
        )
        &&& after == before
    } else {
        match (network_problem(next, max_lanes, resolved), r) {
            (Some(p), Err(e)) => e@ == error_view(ErrorCode::BadRequest, p) && after == before,
            (None, Ok(_)) => after.cfg@ == next && after == (NetState { cfg: after.cfg, ..before }),
            _ => false,
        }
    }
}

/// The outcome of changing what is configured of a member.
pub open spec fn member_update(
    before: NetState,
    after: NetState,
    name: Seq<char>,
    spec: MemberSpec,
    max_lanes: u8,
    resolved: Seq<(Seq<char>, Seq<IpAddr>)>,
    now: u64,
    r: Result<Change, ApiError>,
) -> bool {
    match before.cfg@.member(name) {
        None => {
            &&& r matches Err(e) && e@ == error_view(
                ErrorCode::NotFound,
                about("member "@, name, ""@),
            )
            &&& after == before
        },
        Some((m, role)) => {
            let next = before.cfg@.with_member(name, role, spec.over(m));
            match (network_problem(next, max_lanes, resolved), r) {
                (Some(p), Err(e)) => e@ == error_view(ErrorCode::BadRequest, p) && after == before,
                (None, Ok(c)) => {
                    &&& after.cfg@ == next
                    &&& messages(c.rejoin@) == joined_among(
                        before.registry@.members,
                        changed_among(before.cfg@, next.everyone()),
                    )
                    &&& c.closed is None
                    &&& republished(before.registry@, before.directory, after, now, c.delta)
                    &&& after == (NetState {
                        cfg: after.cfg,
                        registry: after.registry,
                        directory: after.directory,
                        ..before
                    })
                },
                _ => false,
            }
        },
    }
}

impl NetState {
    /// Declare a member with this secret.
    pub fn add_member(
        &mut self,
        name: &str,
        role: Role,
        spec: &MemberSpec,
        secret: String,
        max_lanes: u8,
        resolved: &Vec<(String, Vec<IpAddr>)>,
    ) -> (r: Result<(), ApiError>)
        requires
            old(self).wf(),
            old(self).cfg@.everyone().len() < usize::MAX,
            all_valid(spec.local_cidrs@),
        ensures
            final(self).wf(),
            member_creation(
                *old(self),
                *final(self),
                name@,
                role,
                *spec,
                secret@,
                max_lanes,
                resolved_view(resolved@),
                r,
            ),
    {
        if self.cfg.member_by_name(name).is_some() {
            return Err(ApiError::bad_request(tell_about("member ", name, " already exists")));
        }
        let mut m = MemberCfg::default();
        spec.apply(&mut m);
        m.secret = Some(secret);
        let mut cfg = self.cfg.copy();
        cfg.insert_member(name, role, m);
        if let Err(e) = validate_network(&cfg, max_lanes, resolved) {
            return Err(ApiError::bad_request(e));
        }
        self.cfg = cfg;
        Ok(())
    }

    /// Change what is configured of a member. Whoever has joined and whose
    /// facts changed is told to join again, and comes back with the new ones.
    pub fn change_member(
        &mut self,
        name: &str,
        spec: &MemberSpec,
        max_lanes: u8,
        resolved: &Vec<(String, Vec<IpAddr>)>,
        now: u64,
    ) -> (r: Result<Change, ApiError>)
        requires
            old(self).wf(),
            old(self).cfg@.everyone().len() < usize::MAX,
            all_valid(spec.local_cidrs@),
            gen_room(old(self).directory.revision),
        ensures
            final(self).wf(),
            member_update(
                *old(self),
                *final(self),
                name@,
                *spec,
                max_lanes,
                resolved_view(resolved@),
                now,
                r,
            ),
    {
        let (mut m, role) = match self.cfg.member_by_name(name) {
            Some((m, role)) => (m.copy(), role),
            None => {
                return Err(ApiError::not_found(tell_about("member ", name, "")));
            },
        };
        spec.apply(&mut m);
        let mut cfg = self.cfg.copy();
        cfg.insert_member(name, role, m);
        if let Err(e) = validate_network(&cfg, max_lanes, resolved) {
            return Err(ApiError::bad_request(e));
        }
        let changed = changed_members(&self.cfg, &cfg);
        self.cfg = cfg;
        let rejoin = keep_joined(&self.registry, &changed);
        let delta = self.refresh_directory(now);
        Ok(Change { rejoin, closed: None, delta })
    }
}

/// The registry with another record of a name.
pub open spec fn with_record(reg: RegistryView, name: Seq<char>, rec: RecordView) -> RegistryView {
    match name_index(reg.members, name) {
        Some(i) => RegistryView { members: reg.members.update(i, rec), ..reg },
        None => reg,
    }
}

proof fn lemma_with_record(reg: RegistryView, name: Seq<char>, rec: RecordView)
    requires
        reg.wf(),
        named(reg.members, name) matches Some(was) ==> rec.node_id == was.node_id && rec.routes
            == was.routes,
    ensures
        with_record(reg, name, rec).wf(),
{
    lemma_name_index(reg.members, name);
    if let Some(i) = name_index(reg.members, name) {
        let t = reg.members.update(i, rec);
        assert forall|a: int| 0 <= a < t.len() implies (#[trigger] t[a]).node_id
            == reg.members[a].node_id && t[a].routes == reg.members[a].routes by {}
    }
}

/// The registry after a member's secret was rotated.
pub open spec fn rotated_registry(reg: RegistryView, name: Seq<char>, now: u64) -> RegistryView {
    match named(reg.members, name) {
        Some(rec) => with_record(
            reg,
            name,
            RecordView {
                login_gen: (rec.login_gen + 1) as u64,
                replaced_unix: Some(now),
                replaced_from: Some("secret rotated"@),
                ..rec
            },
        ),
        None => reg,
    }
}

/// The outcome of giving a member another secret.
pub open spec fn secret_rotation(
    before: NetState,
    after: NetState,
    name: Seq<char>,
    secret: Seq<char>,
    now: u64,
    r: Result<Change, ApiError>,
) -> bool {
    match before.cfg@.member(name) {
        None => {
            &&& r matches Err(e) && e@ == error_view(
                ErrorCode::NotFound,
                about("member "@, name, ""@),
            )
            &&& after == before
        },
        Some((m, role)) => {
            &&& r matches Ok(c)
            &&& after.cfg@ == before.cfg@.with_member(
                name,
                role,
                MemberView { secret: Some(secret), ..m },
            )
            &&& c.rejoin@.len() == 0
            &&& match named(before.registry@.members, name) {
                None => {
                    &&& c.closed is None
                    &&& c.delta is None
                    &&& after == (NetState { cfg: after.cfg, ..before })
                },
                Some(rec) => {
                    &&& opt_text(c.closed) == Some(name)
                    &&& republished(
                        rotated_registry(before.registry@, name, now),
                        before.directory,
                        after,
                        now,
                        c.delta,
                    )
                    &&& after == (NetState {
                        cfg: after.cfg,
                        registry: after.registry,
                        directory: after.directory,
                        ..before
                    })
                },
            }
        },
    }
}

impl NetState {
    /// Give a member another secret; the old one stops working now. Whoever
    /// holds the old one is thrown off: its next join is refused and its
    /// session is closed.
    pub fn change_secret(&mut self, name: &str, secret: String, now: u64) -> (r: Result<
        Change,
        ApiError,
    >)
        requires
            old(self).wf(),
            old(self).cfg@.everyone().len() < usize::MAX,
            gen_room(old(self).directory.revision),
            named(old(self).registry@.members, name@) matches Some(rec) ==> rec.login_gen
                < u64::MAX,
        ensures
            final(self).wf(),
            secret_rotation(*old(self), *final(self), name@, secret@, now, r),
    {
        let (mut m, role) = match self.cfg.member_by_name(name) {
            Some((m, role)) => (m.copy(), role),
            None => {
                return Err(ApiError::not_found(tell_about("member ", name, "")));
            },
        };
        m.secret = Some(secret);
        self.cfg.insert_member(name, role, m);
        let ghost was = self.registry@;
        match self.registry.index_of_name(name) {
            None => Ok(Change { rejoin: Vec::new(), closed: None, delta: None }),
            Some(i) => {
                let ghost rec = self.registry.members@[i as int]@;
                self.registry.members[i].login_gen = self.registry.members[i].login_gen + 1;
                self.registry.members[i].replaced_unix = Some(now);
                self.registry.members[i].replaced_from = Some("secret rotated".to_owned());
                proof {
                    let next = RecordView {
                        login_gen: (rec.login_gen + 1) as u64,
                        replaced_unix: Some(now),
                        replaced_from: Some("secret rotated"@),
                        ..rec
                    };
                    lemma_with_record(was, name@, next);
                    assert(self.registry.members@[i as int]@ =~= next);
                    assert(self.registry@.members =~= was.members.update(i as int, next));
                    assert(self.registry@ =~= rotated_registry(was, name@, now));
                }
                let delta = self.refresh_directory(now);
                Ok(Change { rejoin: Vec::new(), closed: Some(name.to_owned()), delta })
            },
        }
    }
}

/// The outcome of forgetting a member.
pub open spec fn member_removal(
    before: NetState,
    after: NetState,
    name: Seq<char>,
    now: u64,
    r: Result<Change, ApiError>,
) -> bool {
    let known = named(before.registry@.members, name);
    if before.cfg@.member(name) is None && known is None {
        &&& r matches Err(e) && e@ == error_view(ErrorCode::NotFound, about("member "@, name, ""@))
        &&& after.cfg@ == before.cfg@
        &&& after == (NetState { cfg: after.cfg, ..before })
    } else {
        &&& r matches Ok(c)
        &&& after.cfg@ == before.cfg@.without_member(name)
        &&& c.rejoin@.len() == 0
        &&& after.sessions == before.sessions
        &&& after.last_seen == before.last_seen
        &&& after.published_relays == before.published_relays
        &&& match known {
            None => {
                &&& c.closed is None
                &&& after.leases == before.leases
                &&& republished(before.registry@, before.directory, after, now, c.delta)
            },
            Some(rec) => {
                let dir = after.directory;
                &&& opt_text(c.closed) == Some(name)
                &&& after.leases@ == (LeasesView {
                    declared: before.leases@.declared.remove(rec.node_id),
                    ..before.leases@
                }).forgotten(rec.node_id)
                &&& dir.traffic@ == before.directory.traffic@.remove(name)
                &&& dir.reported_mtu@ == before.directory.reported_mtu@.remove(name)
                &&& republished(
                    before.registry@.without(rec.node_id),
                    (Directory {
                        traffic: dir.traffic,
                        reported_mtu: dir.reported_mtu,
                        ..before.directory
                    }),
                    after,
                    now,
                    c.delta,
                )
            },
        }
    }
}

impl NetState {
    /// Forget a member: configuration, record, address, routes.
    pub fn forget_member(&mut self, name: &str, now: u64) -> (r: Result<Change, ApiError>)
        requires
            old(self).wf(),
            gen_room(old(self).directory.revision),
        ensures
            final(self).wf(),
            member_removal(*old(self), *final(self), name@, now, r),
    {
        let in_cfg = self.cfg.remove_member(name);
        proof {
            if !in_cfg {
                lemma_absent(old(self).cfg@, name@);
            }
        }
        let closed = match self.registry.id_of(name) {
            None => {
                if !in_cfg {
                    return Err(ApiError::not_found(tell_about("member ", name, "")));
                }
                None
            },
            Some(node) => {
                self.registry.remove_member(node);
                self.leases.remove_relay(node);
                self.directory.traffic.remove(name);
                self.directory.reported_mtu.remove(name);
                Some(name.to_owned())
            },
        };
        let delta = self.refresh_directory(now);
        Ok(Change { rejoin: Vec::new(), closed, delta })
    }
}

proof fn lemma_absent(n: NetworkView, name: Seq<char>)
    requires
        n.member(name) is None,
    ensures
        n.without_member(name) == n,
{
    lemma_absent_entry(n.clients, name);
    lemma_absent_entry(n.relays, name);
}

proof fn lemma_absent_entry<T>(s: Seq<(Seq<char>, T)>, name: Seq<char>)
    requires
        assoc(s, name) is None,
    ensures
        crate::roster::without_entry(s, name) == s,
    decreases s.len(),
{
    if s.len() > 0 {
        lemma_absent_entry(s.drop_last(), name);
        assert(s =~= s.drop_last().push(s.last()));
    }
}

/// What is left of the leases when a member is disabled.
pub open spec fn leases_without(l: LeasesView, rec: RecordView) -> LeasesView {
    match rec.role {
        Role::Relay => (LeasesView {
            declared: l.declared.remove(rec.node_id),
            ..l
        }).forgotten(rec.node_id),
        Role::Client => l.forgotten(rec.node_id),
    }
}

/// The outcome of disabling or enabling a member.
pub open spec fn disabling(
    before: NetState,
    after: NetState,
    name: Seq<char>,
    disabled: bool,
    now: u64,
    r: Result<Change, ApiError>,
) -> bool {
    match named(before.registry@.members, name) {
        None => {
            &&& r matches Err(e) && e@ == error_view(
                ErrorCode::NotFound,
                about("member "@, name, " has never joined"@),
            )
            &&& after == before
        },
        Some(rec) => {
            &&& r matches Ok(c)
            &&& c.rejoin@.len() == 0
            &&& opt_text(c.closed) == if disabled {
                Some(name)
            } else {
                None
            }
            &&& after.leases@ == if disabled {
                leases_without(before.leases@, rec)
            } else {
                before.leases@
            }
            &&& republished(
                with_record(before.registry@, name, RecordView { disabled, ..rec }),
                before.directory,
                after,
                now,
                c.delta,
            )
            &&& after == (NetState {
                leases: after.leases,
                registry: after.registry,
                directory: after.directory,
                ..before
            })
        },
    }
}

impl NetState {
    /// Disable or enable a member. A disabled member's session is closed and
    /// what it claimed is dropped.
    pub fn set_member_disabled(&mut self, name: &str, disabled: bool, now: u64) -> (r: Result<
        Change,
        ApiError,
    >)
        requires
            old(self).wf(),
            gen_room(old(self).directory.revision),
        ensures
            final(self).wf(),
            disabling(*old(self), *final(self), name@, disabled, now, r),
    {
        let ghost was = self.registry@;
        let i = match self.registry.index_of_name(name) {
            Some(i) => i,
            None => {
                return Err(ApiError::not_found(tell_about("member ", name, " has never joined")));
            },
        };
        let ghost rec = self.registry.members@[i as int]@;
        self.registry.members[i].disabled = disabled;
        proof {
            let next = RecordView { disabled, ..rec };
            lemma_with_record(was, name@, next);
            assert(self.registry.members@[i as int]@ =~= next);
            assert(self.registry@.members =~= was.members.update(i as int, next));
            assert(self.registry@ =~= with_record(was, name@, next));
        }
        let node = self.registry.members[i].node_id;
        let role = self.registry.members[i].role;
        if disabled {
            match role {
                Role::Relay => self.leases.remove_relay(node),
                Role::Client => self.leases.remove(node),
            }
        }
        let closed = if disabled {
            Some(name.to_owned())
        } else {
            None
        };
        let delta = self.refresh_directory(now);
        Ok(Change { rejoin: Vec::new(), closed, delta })
    }
}

/// Disabling a member evicts it everywhere: its session is closed, the
/// published view does not hold it any more, and those who follow the view are
/// told that it is gone. Enabling it publishes it again.
pub proof fn law_disabling_evicts_the_member(
    before: NetState,
    after: NetState,
    name: Seq<char>,
    disabled: bool,
    now: u64,
    r: Result<Change, ApiError>,
)
    requires
        before.wf(),
        disabling(before, after, name, disabled, now, r),
        named(before.registry@.members, name) is Some,
    ensures
        ({
            let rec = named(before.registry@.members, name)->0;
            let prev = peer_views(before.directory.peers@);
            let next = peer_views(after.directory.peers@);
            r matches Ok(c) && {
                &&& disabled ==> opt_text(c.closed) == Some(name)
                &&& peer_with_id(next, rec.node_id) is None <==> disabled
                &&& disabled && peer_with_id(prev, rec.node_id) is Some ==> (c.delta matches Some(
                    d,
                ) && d.removed@.contains(rec.node_id))
            }
        }),
{
    let rec = named(before.registry@.members, name)->0;
    let k = name_index(before.registry@.members, name)->0;
    lemma_name_index(before.registry@.members, name);
    lemma_with_record(before.registry@, name, RecordView { disabled, ..rec });
    let reg = with_record(before.registry@, name, RecordView { disabled, ..rec });
    let dir = before.directory;
    let prev = peer_views(dir.peers@);
    let next = peer_views(after.directory.peers@);
    law_a_disabled_member_is_not_published(
        reg.members,
        next_owners(
            owners_table(reg.members),
            reg.members,
            owner_views(dir.owners@),
            dir.online_since@,
            dir.hold_down_secs,
            now,
        ),
        dir.online_since@,
        after.cfg@,
        dir.exits@,
        k,
    );
    assert(reg.members[k].node_id == rec.node_id);
    if disabled && peer_with_id(prev, rec.node_id) is Some {
        lemma_removed(prev, next);
        assert(removed_peers(prev, next).contains(rec.node_id));
    }
}

/// Where a member finds the coordinator, and what it proves itself with.
#[derive(Debug)]
pub struct Token {
    pub coordinator: String,
    pub secret: String,
}

impl NetState {
    /// A member's token, for an operator to copy.
    pub fn token_of(&self, name: &str, endpoint: &str) -> (r: Result<(Token, Role), ApiError>)
        requires
            self.wf(),
        ensures
            match self.cfg@.member(name@) {
                None => r matches Err(e) && e@ == error_view(
                    ErrorCode::NotFound,
                    about("member "@, name@, ""@),
                ),
                Some((m, role)) => match m.secret {
                    None => r matches Err(e) && e@ == error_view(
                        ErrorCode::NotFound,
                        about("member "@, name@, " has no secret; rotate to mint one"@),
                    ),
                    Some(s) => r matches Ok((t, q)) && q == role && t.coordinator@ == endpoint@
                        && t.secret@ == s,
                },
            },
    {
        match self.cfg.member_by_name(name) {
            None => Err(ApiError::not_found(tell_about("member ", name, ""))),
            Some((m, role)) => match &m.secret {
                None => Err(
                    ApiError::not_found(
                        tell_about("member ", name, " has no secret; rotate to mint one"),
                    ),
                ),
                Some(s) => Ok(
                    (Token { coordinator: endpoint.to_owned(), secret: s.clone() }, role),
                ),
            },
        }
    }

    /// Make a member join again now. Returns whether it is connected.
    pub fn reconnect(&self, name: &str) -> (r: Result<bool, ApiError>)
        requires
            self.wf(),
        ensures
            match r {
                Ok(connected) => named(self.registry@.members, name@) is Some && connected
                    == self.sessions@.dom().contains(name@),
                Err(e) => named(self.registry@.members, name@) is None && e@ == error_view(
                    ErrorCode::NotFound,
                    about("member "@, name@, " has never joined"@),
                ),
            },
    {
        if self.registry.id_of(name).is_none() {
            return Err(ApiError::not_found(tell_about("member ", name, " has never joined")));
        }
        Ok(self.sessions.contains_key(name))
    }
}

/// The code of the character is that of an ASCII letter or digit, a dash, a
/// dot or an underscore.
pub open spec fn plain(c: char) -> bool {
    let code = c as int;
    ||| 0x61 <= code <= 0x7a
    ||| 0x41 <= code <= 0x5a
    ||| 0x30 <= code <= 0x39
    ||| code == 0x2d || code == 0x2e || code == 0x5f
}

/// Names are 1 to 64 characters long; letters and digits of ASCII, dots,
/// dashes and underscores, and nothing else.
pub proof fn law_a_name_is_short_and_plain(s: Seq<char>)
    ensures
        good_name(s) <==> 0 < s.len() < 65 && forall|i: int|
            0 <= i < s.len() ==> plain(#[trigger] s[i]),
{
    assert forall|i: int| 0 <= i < s.len() implies name_char(s[i]) == plain(#[trigger] s[i]) by {}
}

} // verus!
