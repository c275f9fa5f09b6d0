//! A network's state, and the relays that can be dialed.
//!
//! One serialized owner per network: every change runs on the whole state of
//! one network.

use vstd::prelude::*;

use crate::config::{MemberView, NetworkConfig, NetworkView};
use crate::directory::{
    changed_peers, next_owners, owner_views, removed_peers, Directory, TrafficSample,
};
use crate::exits::ExitReadiness;
use crate::history::{delta_views, keeps, HISTORY_LIMIT};
use crate::ipam::pools_inside;
use crate::leases::{Leases, LeasesView};
use crate::namemap::NameMap;
use crate::net::{all_valid, IpNet};
use crate::owners::owners_table;
use crate::proto::{
    peer_views, relay_views, MembershipDelta, NodeId, PeerView, RelayEntry, RelayView, Role,
};
use crate::reach::Reachability;
use crate::registry::{
    named, routes_valid, RecordView, Registry, RouteReg, GEN_PERSIST_STEP,
};
use crate::text::{chars_of, opt_text, rsplit_once, said, say, split_last, str_eq, texts};

verus! {

/// Who signs credentials.
pub const ISS: &'static str = "nqvpn-coord";

/// A live control session.
#[derive(Debug)]
pub struct SessionInfo {
    pub id: u64,
    pub name: String,
    pub node_id: NodeId,
    pub role: Role,
    /// When the credential that the session rests on expires, in seconds.
    pub exp: u64,
}

/// Everything the coordinator holds of one network.
#[derive(Debug)]
pub struct NetState {
    pub cfg: NetworkConfig,
    pub registry: Registry,
    /// The derived, revisioned view that is pushed to members.
    pub directory: Directory,
    pub leases: Leases,
    /// Live control sessions by member name.
    pub sessions: NameMap<SessionInfo>,
    /// The last keepalive per member.
    pub last_seen: NameMap<u64>,
    /// The relay fleet that was pushed last.
    pub published_relays: Option<Vec<RelayEntry>>,
}

/// The generation that a process starts with, when `hwm` is the mark that was
/// persisted: above everything that was handed out before.
pub open spec fn first_generation(hwm: u64, now_ms: u64) -> int {
    if now_ms >= hwm + GEN_PERSIST_STEP {
        now_ms as int
    } else {
        hwm + GEN_PERSIST_STEP
    }
}

/// The room that the generation has left is enough for another change.
pub open spec fn gen_room(gen: u64) -> bool {
    gen + 2 * GEN_PERSIST_STEP <= u64::MAX
}

impl NetState {
    /// Every part is well formed, the tunnel space has an IPv4 range, and the
    /// pools lie inside it.
    pub open spec fn wf(self) -> bool {
        &&& self.cfg.wf()
        &&& self.cfg@.everyone().len() <= usize::MAX
        &&& self.cfg@.ipv4() is Some
        &&& pools_inside(self.cfg@)
        &&& self.registry@.wf()
        &&& self.directory.wf()
        &&& self.directory.history.leads_to(self.directory.revision)
        &&& self.leases.wf()
        &&& self.sessions.wf()
        &&& self.last_seen.wf()
    }

    /// Nobody is connected, and nothing is known or published of anybody.
    pub open spec fn idle(self) -> bool {
        &&& self.sessions@ == Map::<Seq<char>, SessionInfo>::empty()
        &&& self.last_seen@ == Map::<Seq<char>, u64>::empty()
        &&& self.leases@ == (LeasesView {
            last_seen: Map::empty(),
            online_since: Map::empty(),
            offline_at: Map::empty(),
            declared: Map::empty(),
            attached_to: Map::empty(),
            mesh_up: Map::empty(),
            reported: Map::empty(),
            next_seq: 0,
        })
        &&& self.published_relays is None
        &&& self.directory.peers@.len() == 0
        &&& self.directory.online_since@ == Map::<Seq<char>, u64>::empty()
        &&& self.directory.owners@.len() == 0
        &&& self.directory.attachments@ == Map::<NodeId, NodeId>::empty()
        &&& self.directory.attach_revision == 0
        &&& self.directory.reachability@ == Map::<Seq<char>, Reachability>::empty()
        &&& self.directory.reported_mtu@ == Map::<Seq<char>, u16>::empty()
        &&& self.directory.published_mtu is None
        &&& self.directory.traffic@ == Map::<Seq<char>, TrafficSample>::empty()
        &&& self.directory.exits@ == Map::<Seq<char>, ExitReadiness>::empty()
        &&& self.directory.history.deltas@.len() == 0
        &&& self.directory.history.limit == HISTORY_LIMIT
    }

    /// The state of a network at start. The first generation is above every
    /// one that an earlier process may have handed out.
    pub fn new(cfg: NetworkConfig, registry: Registry, now_ms: u64) -> (r: NetState)
        requires
            cfg.wf(),
            cfg@.everyone().len() <= usize::MAX,
            cfg@.ipv4() is Some,
            pools_inside(cfg@),
            registry@.wf(),
            registry.gen_hwm + GEN_PERSIST_STEP <= u64::MAX,
        ensures
            r.wf(),
            r.cfg == cfg,
            r.registry == registry,
            r.directory.revision > registry.gen_hwm,
            r.directory.revision == first_generation(registry.gen_hwm, now_ms),
            r.directory.hold_down_secs == cfg.settings.hold_down_secs,
            r.idle(),
    {
        let mut directory = Directory::with_hold_down(cfg.settings.hold_down_secs);
        directory.revision = registry.initial_gen(now_ms);
        NetState {
            cfg,
            registry,
            directory,
            leases: Leases::new(),
            sessions: NameMap::new(),
            last_seen: NameMap::new(),
            published_relays: None,
        }
    }

    /// The owners after the view is recomputed.
    pub open spec fn next_owners(self, now: u64) -> Seq<(IpNet, Seq<char>)> {
        next_owners(
            owners_table(self.registry@.members),
            self.registry@.members,
            owner_views(self.directory.owners@),
            self.directory.online_since@,
            self.directory.hold_down_secs,
            now,
        )
    }

    /// The published view after it is recomputed.
    pub open spec fn next_view(self, now: u64) -> Seq<PeerView> {
        self.directory.next_peers(self.cfg@, self.registry@, now)
    }

    /// Recompute the published view and note the generation that it is
    /// published under. Returns the change, if there is one, which is kept
    /// for those who miss it.
    pub fn refresh_directory(&mut self, now: u64) -> (r: Option<MembershipDelta>)
        requires
            old(self).wf(),
            gen_room(old(self).directory.revision),
        ensures
            final(self).wf(),
            final(self).cfg == old(self).cfg,
            final(self).leases == old(self).leases,
            final(self).sessions == old(self).sessions,
            final(self).last_seen == old(self).last_seen,
            final(self).published_relays == old(self).published_relays,
            final(self).registry@ == old(self).registry@.noted(final(self).directory.revision),
            final(self).registry@.gen_hwm > final(self).directory.revision,
            owner_views(final(self).directory.owners@) == old(self).next_owners(now),
            peer_views(final(self).directory.peers@) == old(self).next_view(now),
            final(self).directory == (Directory {
                owners: final(self).directory.owners,
                peers: final(self).directory.peers,
                revision: final(self).directory.revision,
                history: final(self).directory.history,
                ..old(self).directory
            }),
            keeps(old(self).directory.history, final(self).directory.history, r),
            match r {
                None => peer_views(old(self).directory.peers@) == old(self).next_view(now)
                    && final(self).directory.revision == old(self).directory.revision,
                Some(d) => {
                    &&& peer_views(old(self).directory.peers@) != old(self).next_view(now)
                    &&& final(self).directory.revision == old(self).directory.revision + 1
                    &&& d.base_rev == old(self).directory.revision
                    &&& d.new_rev == final(self).directory.revision
                    &&& peer_views(d.changed@) == changed_peers(
                        peer_views(old(self).directory.peers@),
                        old(self).next_view(now),
                    )
                    &&& d.removed@ == removed_peers(
                        peer_views(old(self).directory.peers@),
                        old(self).next_view(now),
                    )
                },
            },
    {
        let delta = self.directory.recompute(&self.cfg, &self.registry, now);
        self.registry.note_gen(self.directory.revision);
        if let Some(d) = &delta {
            let kept = d.copy();
            let ghost s = delta_views(self.directory.history.deltas@);
            let ghost dv = kept@;
            self.directory.history.record(kept);
            proof {
                let t = delta_views(self.directory.history.deltas@);
                let n = self.directory.history.deltas@.len();
                assert(t.len() == n);
                assert(n > 0 ==> t.last() == self.directory.history.deltas@.last()@);
                assert(t.len() > 0 ==> t.last() == dv);
            }
        }
        delta
    }
}

/// Where a relay is dialed: the configured address, with `auto` standing for
/// the host that the relay joined from.
pub open spec fn dial_addr(configured: Seq<char>, joined_from: Option<Seq<char>>) -> Option<
    Seq<char>,
> {
    match split_last(configured, ':') {
        Some((host, port)) if host == "auto"@ => match joined_from {
            Some(ip) => Some(
                if ip.contains(':') {
                    "["@ + ip + "]:"@ + port
                } else {
                    ip + ":"@ + port
                },
            ),
            None => None,
        },
        _ => Some(configured),
    }
}

fn has_colon(s: &str) -> (r: bool)
    ensures
        r == s@.contains(':'),
{
    let chars = chars_of(s);
    let mut i: usize = 0;
    while i < chars.len()
        invariant
            i <= chars@.len(),
            chars@ == s@,
            forall|k: int| 0 <= k < i ==> s@[k] != ':',
        decreases chars.len() - i,
    {
        if chars[i] == ':' {
            assert(s@[i as int] == ':');
            return true;
        }
        i = i + 1;
    }
    false
}

/// Where a relay is dialed.
pub fn relay_dial_addr(configured: &str, joined_from: &Option<String>) -> (r: Option<String>)
    ensures
        opt_text(r) == dial_addr(configured@, opt_text(*joined_from)),
{
    if let Some((host, port)) = rsplit_once(configured, ':') {
        if str_eq(host.as_str(), "auto") {
            return match joined_from {
                None => None,
                Some(ip) => {
                    let mut out = String::new();
                    if has_colon(ip.as_str()) {
                        out.append("[");
                        out.append(ip.as_str());
                        out.append("]:");
                        out.append(port.as_str());
                        assert(out@ =~= "["@ + ip@ + "]:"@ + port@);
                    } else {
                        out.append(ip.as_str());
                        out.append(":");
                        out.append(port.as_str());
                        assert(out@ =~= ip@ + ":"@ + port@);
                    }
                    Some(out)
                },
            };
        }
    }
    Some(configured.to_owned())
}

/// The relay that a configured member is to those who dial it: nothing
/// until it has joined, because its certificate is not known before.
pub open spec fn relay_entry(name: Seq<char>, m: MemberView, members: Seq<RecordView>) -> Option<
    RelayView,
> {
    match (named(members, name), m.relay_addr) {
        (Some(rec), Some(addr)) => match (rec.cert_fp, dial_addr(addr, rec.last_join_from)) {
            (Some(fp), Some(a)) => Some(
                RelayView { relay_id: rec.node_id, name, addr: a, cert_fp: fp },
            ),
            _ => None,
        },
        _ => None,
    }
}

/// The relays that can be dialed, in the order of their names.
pub open spec fn relay_fleet(
    relays: Seq<(Seq<char>, MemberView)>,
    members: Seq<RecordView>,
) -> Seq<RelayView>
    decreases relays.len(),
{
    if relays.len() == 0 {
        Seq::empty()
    } else {
        let p = relay_fleet(relays.drop_last(), members);
        match relay_entry(relays.last().0, relays.last().1, members) {
            Some(r) => p.push(r),
            None => p,
        }
    }
}

/// A relay is dialed under the address that is configured for it; where that
/// is `auto` and a port, under the address it joined from, an IPv6 one in
/// brackets, and that port.
pub proof fn law_a_relay_is_dialed_where_it_is(
    configured: Seq<char>,
    port: Seq<char>,
    joined_from: Option<Seq<char>>,
)
    requires
        forall|i: int| 0 <= i < port.len() ==> port[i] != ':',
    ensures
        configured == "auto:"@ + port ==> match joined_from {
            None => dial_addr(configured, joined_from) is None,
            Some(ip) => dial_addr(configured, joined_from) == Some(
                if exists|i: int| 0 <= i < ip.len() && ip[i] == ':' {
                    "["@ + ip + "]:"@ + port
                } else {
                    ip + ":"@ + port
                },
            ),
        },
        !(exists|p: Seq<char>| configured == #[trigger] ("auto:"@ + p) && !p.contains(':'))
            ==> dial_addr(configured, joined_from) == Some(configured),
{
    reveal_strlit("auto:");
    reveal_strlit("auto");
    crate::text::law_the_last_separator_splits(configured, ':');
    if configured == "auto:"@ + port {
        assert(configured[4] == ':');
        assert forall|j: int| 4 < j < configured.len() implies configured[j] != ':' by {
            assert(configured[j] == port[j - 5]);
        }
        assert(configured.subrange(0, 4) =~= "auto"@);
        assert(configured.subrange(5, configured.len() as int) =~= port);
    }
    if let Some((host, p)) = split_last(configured, ':') {
        if host == "auto"@ {
            assert(configured =~= "auto:"@ + p);
        }
    }
}

/// The relay of this name, configured like this, is dialed as `v`: it has an
/// address, and its record holds the id and the certificate of `v`.
pub open spec fn dialed_as(
    name: Seq<char>,
    m: MemberView,
    members: Seq<RecordView>,
    v: RelayView,
) -> bool {
    &&& v.name == name
    &&& exists|k: int|
        0 <= k < members.len() && (#[trigger] members[k]).name == name && (forall|j: int|
            0 <= j < k ==> (#[trigger] members[j]).name != name) && members[k].node_id == v.relay_id
            && members[k].cert_fp == Some(v.cert_fp) && (m.relay_addr matches Some(addr)
            && dial_addr(addr, members[k].last_join_from) == Some(v.addr))
}

proof fn lemma_dialed_as(
    name: Seq<char>,
    m: MemberView,
    members: Seq<RecordView>,
    v: RelayView,
)
    ensures
        dialed_as(name, m, members, v) <==> relay_entry(name, m, members) == Some(v),
{
    crate::registry::lemma_name_index(members, name);
    if dialed_as(name, m, members, v) {
        let k = choose|k: int|
            0 <= k < members.len() && (#[trigger] members[k]).name == name && (forall|j: int|
                0 <= j < k ==> (#[trigger] members[j]).name != name) && members[k].node_id
                == v.relay_id && members[k].cert_fp == Some(v.cert_fp) && (
            m.relay_addr matches Some(addr) && dial_addr(addr, members[k].last_join_from) == Some(
                v.addr,
            ));
        crate::registry::lemma_name_index_is(members, name, k);
    }
    if relay_entry(name, m, members) == Some(v) {
        let k = crate::registry::name_index(members, name)->0;
        assert(members[k].name == name);
    }
}

/// The fleet is made of the relays that are configured with an address, have
/// joined and showed their certificate: each with its id, its name, the
/// certificate it showed and where it is dialed.
pub proof fn law_the_fleet_is_who_can_be_dialed(
    relays: Seq<(Seq<char>, MemberView)>,
    members: Seq<RecordView>,
    v: RelayView,
)
    ensures
        relay_fleet(relays, members).contains(v) <==> exists|x: int|
            0 <= x < relays.len() && dialed_as(
                (#[trigger] relays[x]).0,
                relays[x].1,
                members,
                v,
            ),
    decreases relays.len(),
{
    let all = relay_fleet(relays, members);
    if relays.len() == 0 {
        assert(all =~= Seq::empty());
    } else {
        let d = relays.drop_last();
        let p = relay_fleet(d, members);
        law_the_fleet_is_who_can_be_dialed(d, members, v);
        lemma_dialed_as(relays.last().0, relays.last().1, members, v);
        assert forall|x: int| 0 <= x < d.len() implies d[x] == #[trigger] relays[x] by {}
        if all.contains(v) {
            let i = choose|i: int| 0 <= i < all.len() && all[i] == v;
            if i < p.len() {
                assert(p[i] == v);
                assert(p.contains(v));
                let x = choose|x: int|
                    0 <= x < d.len() && dialed_as((#[trigger] d[x]).0, d[x].1, members, v);
                assert(dialed_as(relays[x].0, relays[x].1, members, v));
            } else {
                assert(dialed_as(
                    relays[relays.len() - 1].0,
                    relays[relays.len() - 1].1,
                    members,
                    v,
                ));
            }
        }
        if exists|x: int|
            0 <= x < relays.len() && dialed_as((#[trigger] relays[x]).0, relays[x].1, members, v) {
            let x = choose|x: int|
                0 <= x < relays.len() && dialed_as(
                    (#[trigger] relays[x]).0,
                    relays[x].1,
                    members,
                    v,
                );
            if x < d.len() {
                assert(dialed_as(d[x].0, d[x].1, members, v));
                assert(p.contains(v));
                let i = choose|i: int| 0 <= i < p.len() && p[i] == v;
                assert(all[i] == v);
            } else {
                assert(all[p.len() as int] == v);
            }
        }
    }
}

/// Relays that a joiner can attach to: those that have joined at least once.
pub fn relay_entries(ns: &NetState) -> (r: Vec<RelayEntry>)
    requires
        ns.wf(),
    ensures
        relay_views(r@) == relay_fleet(ns.cfg@.relays, ns.registry@.members),
{
    let relays = &ns.cfg.relays.entries;
    let ghost v = ns.cfg@.relays;
    let ghost members = ns.registry@.members;
    let mut out: Vec<RelayEntry> = Vec::new();
    let mut i: usize = 0;
    assert(relay_views(out@) =~= Seq::empty());
    assert(v.take(0) =~= Seq::empty());
    while i < relays.len()
        invariant
            i <= relays@.len(),
            relays == &ns.cfg.relays.entries,
            v == ns.cfg@.relays,
            v.len() == relays@.len(),
            members == ns.registry@.members,
            relay_views(out@) == relay_fleet(v.take(i as int), members),
        decreases relays.len() - i,
    {
        let name = relays[i].0.as_str();
        let m = &relays[i].1;
        assert(v[i as int] == (name@, m@));
        assert(v.take(i + 1).drop_last() =~= v.take(i as int));
        assert(v.take(i + 1).last() == v[i as int]);
        let ghost was = relay_views(out@);
        if let Some(rec) = ns.registry.by_name(name) {
            if let Some(addr) = &m.relay_addr {
                if let Some(fp) = &rec.cert_fp {
                    if let Some(a) = relay_dial_addr(addr.as_str(), &rec.last_join_from) {
                        let e = RelayEntry {
                            relay_id: rec.node_id,
                            name: name.to_owned(),
                            addr: a,
                            cert_fp: fp.clone(),
                        };
                        let ghost ev = e@;
                        out.push(e);
                        assert(relay_views(out@) =~= was.push(ev));
                    }
                }
            }
        }
        i = i + 1;
    }
    assert(v.take(i as int) =~= v);
    out
}

/// One of the prefixes holds all of `cidr`.
pub open spec fn permitted(allowed: Seq<IpNet>, cidr: IpNet) -> bool {
    exists|i: int| 0 <= i < allowed.len() && (#[trigger] allowed[i]).covers(cidr)
}

/// The warning about a registration that the configuration no longer allows.
pub open spec fn stale_warning(name: Seq<char>, cidr: IpNet) -> Seq<char> {
    said(
        seq![
            "member "@,
            name,
            " holds registration "@,
            cidr.text(),
            " no longer allowed by config (kept until it re-joins; renewal will drop it)"@,
        ],
    )
}

/// The configuration lets the member of this name hold `cidr`.
pub open spec fn may_hold(n: NetworkView, name: Seq<char>, cidr: IpNet) -> bool {
    n.member(name) matches Some((m, _)) && (permitted(m.allowed_cidrs, cidr) || permitted(
        m.local_cidrs,
        cidr,
    ))
}

/// The warnings about one record's registrations.
pub open spec fn record_warnings(n: NetworkView, name: Seq<char>, routes: Seq<RouteReg>) -> Seq<
    Seq<char>,
>
    decreases routes.len(),
{
    if routes.len() == 0 {
        Seq::empty()
    } else {
        let p = record_warnings(n, name, routes.drop_last());
        if may_hold(n, name, routes.last().cidr) {
            p
        } else {
            p.push(stale_warning(name, routes.last().cidr))
        }
    }
}

/// The warnings about all registrations.
pub open spec fn registry_warnings(n: NetworkView, members: Seq<RecordView>) -> Seq<Seq<char>>
    decreases members.len(),
{
    if members.len() == 0 {
        Seq::empty()
    } else {
        registry_warnings(n, members.drop_last()) + record_warnings(
            n,
            members.last().name,
            members.last().routes,
        )
    }
}

/// The characters of each message.
pub open spec fn messages(v: Seq<String>) -> Seq<Seq<char>> {
    v.map_values(|s: String| s@)
}

fn is_permitted(allowed: &Vec<IpNet>, cidr: &IpNet) -> (r: bool)
    requires
        all_valid(allowed@),
        cidr.valid(),
    ensures
        r == permitted(allowed@, *cidr),
{
    let mut i: usize = 0;
    while i < allowed.len()
        invariant
            i <= allowed@.len(),
            all_valid(allowed@),
            cidr.valid(),
            forall|k: int| 0 <= k < i ==> !(#[trigger] allowed@[k]).covers(*cidr),
        decreases allowed.len() - i,
    {
        if allowed[i].contains(cidr) {
            return true;
        }
        i = i + 1;
    }
    false
}

/// What a configuration no longer allows of what is registered: a change may
/// not silently take a registered prefix.
pub fn config_matches_registry(cfg: &NetworkConfig, reg: &Registry) -> (r: Vec<String>)
    requires
        cfg.wf(),
        reg@.wf(),
    ensures
        messages(r@) == registry_warnings(cfg@, reg@.members),
{
    let ghost s = reg@.members;
    let mut out: Vec<String> = Vec::new();
    let mut i: usize = 0;
    assert(messages(out@) =~= Seq::empty());
    assert(s.take(0) =~= Seq::empty());
    while i < reg.members.len()
        invariant
            i <= reg.members@.len(),
            s == reg@.members,
            s.len() == reg.members@.len(),
            cfg.wf(),
            reg@.wf(),
            messages(out@) == registry_warnings(cfg@, s.take(i as int)),
        decreases reg.members.len() - i,
    {
        let rec = &reg.members[i];
        assert(s[i as int] == rec@);
        assert(s.take(i + 1).drop_last() =~= s.take(i as int));
        assert(s.take(i + 1).last() == rec@);
        let ghost base = messages(out@);
        let name = rec.name.as_str();
        let mut k: usize = 0;
        assert(rec.routes@.take(0) =~= Seq::empty());
        assert(base + Seq::<Seq<char>>::empty() =~= base);
        assert(routes_valid(s[i as int].routes));
        while k < rec.routes.len()
            invariant
                k <= rec.routes@.len(),
                cfg.wf(),
                name@ == rec.name@,
                routes_valid(rec.routes@),
                messages(out@) == base + record_warnings(
                    cfg@,
                    name@,
                    rec.routes@.take(k as int),
                ),
            decreases rec.routes.len() - k,
        {
            let c = rec.routes[k].cidr;
            assert(rec.routes@.take(k + 1).drop_last() =~= rec.routes@.take(k as int));
            assert(rec.routes@.take(k + 1).last() == rec.routes@[k as int]);
            let ok = match cfg.member_by_name(name) {
                Some((m, _)) => is_permitted(&m.allowed_cidrs, &c) || is_permitted(
                    &m.local_cidrs,
                    &c,
                ),
                None => false,
            };
            let ghost was = messages(out@);
            if !ok {
                let t = c.to_text();
                let parts = vec![
                    "member ",
                    name,
                    " holds registration ",
                    t.as_str(),
                    " no longer allowed by config (kept until it re-joins; renewal will drop it)",
                ];
                assert(texts(parts@) =~= seq![
                    "member "@,
                    name@,
                    " holds registration "@,
                    c.text(),
                    " no longer allowed by config (kept until it re-joins; renewal will drop it)"@,
                ]);
                let m = say(&parts);
                let ghost mv = m@;
                out.push(m);
                assert(messages(out@) =~= was.push(mv));
                assert(was.push(mv) =~= base + record_warnings(
                    cfg@,
                    name@,
                    rec.routes@.take(k as int),
                ).push(mv));
            }
            k = k + 1;
        }
        assert(rec.routes@.take(k as int) =~= rec.routes@);
        i = i + 1;
    }
    assert(s.take(i as int) =~= s);
    out
}

proof fn lemma_record_warnings(n: NetworkView, name: Seq<char>, routes: Seq<RouteReg>, i: int)
    requires
        0 <= i < routes.len(),
        !may_hold(n, name, routes[i].cidr),
    ensures
        record_warnings(n, name, routes).contains(stale_warning(name, routes[i].cidr)),
    decreases routes.len(),
{
    let d = routes.drop_last();
    let p = record_warnings(n, name, d);
    let q = record_warnings(n, name, routes);
    let w = stale_warning(name, routes[i].cidr);
    if i < d.len() {
        assert(d[i] == routes[i]);
        lemma_record_warnings(n, name, d, i);
        let x = choose|x: int| 0 <= x < p.len() && p[x] == w;
        assert(q[x] == w);
    } else {
        assert(q[p.len() as int] == w);
    }
}

proof fn lemma_no_record_warnings(n: NetworkView, name: Seq<char>, routes: Seq<RouteReg>)
    requires
        forall|i: int| 0 <= i < routes.len() ==> may_hold(n, name, (#[trigger] routes[i]).cidr),
    ensures
        record_warnings(n, name, routes).len() == 0,
    decreases routes.len(),
{
    if routes.len() > 0 {
        let d = routes.drop_last();
        assert forall|i: int| 0 <= i < d.len() implies may_hold(n, name, (#[trigger] d[i]).cidr) by {
            assert(d[i] == routes[i]);
        }
        assert(routes[routes.len() - 1] == routes.last());
        lemma_no_record_warnings(n, name, d);
    }
}

/// A registration that lies in none of the prefixes which the configuration
/// gives its member is warned of; where all of them do, nothing is.
pub proof fn law_registrations_that_lost_their_ground_are_warned_of(
    n: NetworkView,
    members: Seq<RecordView>,
    k: int,
    i: int,
)
    requires
        0 <= k < members.len(),
        0 <= i < members[k].routes.len(),
    ensures
        (n.member(members[k].name) is None || ({
            let m = (n.member(members[k].name)->0).0;
            &&& forall|x: int|
                0 <= x < m.allowed_cidrs.len() ==> !(#[trigger] m.allowed_cidrs[x]).covers(
                    members[k].routes[i].cidr,
                )
            &&& forall|x: int|
                0 <= x < m.local_cidrs.len() ==> !(#[trigger] m.local_cidrs[x]).covers(
                    members[k].routes[i].cidr,
                )
        })) ==> registry_warnings(n, members).contains(
            stale_warning(members[k].name, members[k].routes[i].cidr),
        ),
    decreases members.len(),
{
    let rec = members[k];
    let w = stale_warning(rec.name, rec.routes[i].cidr);
    if !may_hold(n, rec.name, rec.routes[i].cidr) {
        let d = members.drop_last();
        let p = registry_warnings(n, d);
        let q = registry_warnings(n, members);
        let t = record_warnings(n, members.last().name, members.last().routes);
        assert(q == p + t);
        if k < d.len() {
            assert(d[k] == rec);
            law_registrations_that_lost_their_ground_are_warned_of(n, d, k, i);
            let x = choose|x: int| 0 <= x < p.len() && p[x] == w;
            assert(q[x] == w);
        } else {
            lemma_record_warnings(n, rec.name, rec.routes, i);
            let x = choose|x: int| 0 <= x < t.len() && t[x] == w;
            assert(q[p.len() + x] == w);
        }
    }
}

/// The prefix lies in one that the configuration says the member routes.
pub open spec fn grounded(n: NetworkView, name: Seq<char>, cidr: IpNet) -> bool {
    n.member(name) is Some && exists|x: int|
        0 <= x < (n.member(name)->0).0.local_cidrs.len() && (#[trigger] (n.member(
            name,
        )->0).0.local_cidrs[x]).covers(cidr)
}

/// A configuration that every registration lies in is not warned about.
pub proof fn law_nothing_is_warned_of_without_cause(n: NetworkView, members: Seq<RecordView>)
    requires
        forall|k: int, i: int|
            0 <= k < members.len() && 0 <= i < members[k].routes.len() ==> grounded(
                n,
                members[k].name,
                (#[trigger] members[k].routes[i]).cidr,
            ),
    ensures
        registry_warnings(n, members).len() == 0,
    decreases members.len(),
{
    if members.len() > 0 {
        let d = members.drop_last();
        assert forall|k: int, i: int|
            0 <= k < d.len() && 0 <= i < d[k].routes.len() implies grounded(
            n,
            d[k].name,
            (#[trigger] d[k].routes[i]).cidr,
        ) by {
            assert(members[k].routes[i] == d[k].routes[i]);
        }
        law_nothing_is_warned_of_without_cause(n, d);
        let rec = members.last();
        assert forall|i: int| 0 <= i < rec.routes.len() implies may_hold(
            n,
            rec.name,
            (#[trigger] rec.routes[i]).cidr,
        ) by {
            assert(grounded(n, rec.name, members[members.len() - 1].routes[i].cidr));
            let x = choose|x: int|
                0 <= x < (n.member(rec.name)->0).0.local_cidrs.len() && (#[trigger] (n.member(
                    rec.name,
                )->0).0.local_cidrs[x]).covers(rec.routes[i].cidr);
            assert(permitted((n.member(rec.name)->0).0.local_cidrs, rec.routes[i].cidr));
        }
        lemma_no_record_warnings(n, rec.name, rec.routes);
    }
}

} // verus!
