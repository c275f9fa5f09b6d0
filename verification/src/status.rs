//! What an administrator sees of a network.

use vstd::prelude::*;

use crate::config::{MemberCfg, MemberView};
use crate::directory::{owner_of, owner_views, TrafficSample};
use crate::exits::{exit_state, exit_state_of, ExitState};
use crate::ipam::attached;
use crate::leases::lookup;
use crate::net::{IpAddr, IpNet};
use crate::owners::{owners_table, table_view, Registrant};
use crate::proto::{copy_nets, LinkTraffic, NodeId, Role};
use crate::registry::{named, with_id, MemberRecord, RecordView, Registry};
use crate::state::{messages, NetState};
use crate::text::{copy_opt, decimal, opt_text, push_decimal, str_eq};

verus! {

/// One member, joined or not.
#[derive(Debug)]
pub struct MemberStatus {
    pub name: String,
    pub node_id: NodeId,
    pub role: Role,
    pub online: bool,
    pub disabled: bool,
    pub ip4: Option<u32>,
    pub ip6: Option<u128>,
    pub registered_cidrs: Vec<IpNet>,
    pub attached_relay: Option<String>,
    pub advertised_reachable: Option<String>,
    /// Whether the member is a way out to the internet, and a ready one.
    pub exit: ExitState,
    pub last_join_unix: Option<u64>,
    pub last_join_from: Option<String>,
    pub login_gen: u64,
    pub replaced_unix: Option<u64>,
    pub replaced_from: Option<String>,
    pub reported_gen: Option<u64>,
    pub digest_ok: bool,
    pub last_heartbeat_unix: Option<u64>,
}

/// Who owns a prefix, and who would take over.
#[derive(Debug)]
pub struct PrefixOwner {
    pub cidr: IpNet,
    pub owner: String,
    pub owner_node_id: NodeId,
    pub standby: Vec<String>,
}

/// One mesh link of a relay.
#[derive(Debug)]
pub struct RelayLink {
    pub peer: String,
    pub peer_node_id: NodeId,
    pub tx_bytes: u64,
    pub tx_pkts: u64,
    pub rx_bytes: u64,
    pub rx_pkts: u64,
    pub tx_bps: u64,
    pub rx_bps: u64,
    pub up: bool,
}

/// The traffic of one relay.
#[derive(Debug)]
pub struct RelayTraffic {
    pub relay: String,
    pub node_id: NodeId,
    pub age_secs: u64,
    pub links: Vec<RelayLink>,
    pub local_bytes: u64,
    pub local_pkts: u64,
    pub terminated_bytes: u64,
    pub terminated_pkts: u64,
}

/// A network as an administrator sees it.
#[derive(Debug)]
pub struct NetworkStatus {
    pub network_id: String,
    pub network_uuid: String,
    pub gen: u64,
    pub members: Vec<MemberStatus>,
    pub prefix_table: Vec<PrefixOwner>,
    pub relay_traffic: Vec<RelayTraffic>,
    pub transport: String,
    pub lanes: u8,
}

/// A network in one line.
#[derive(Debug)]
pub struct NetworkSummary {
    pub network_id: String,
    pub members_total: usize,
    pub relays_total: usize,
    pub members_online: usize,
    pub gen: u64,
}

/// The name of a node, or its number if it is not registered.
pub open spec fn shown(members: Seq<RecordView>, id: NodeId) -> Seq<char> {
    match with_id(members, id) {
        Some(rec) => rec.name,
        None => "#"@ + decimal(id as nat),
    }
}

fn show(reg: &Registry, id: NodeId) -> (r: String)
    ensures
        r@ == shown(reg@.members, id),
{
    match reg.by_id(id) {
        Some(rec) => rec.name.clone(),
        None => {
            let mut s = "#".to_owned();
            push_decimal(&mut s, id as u64);
            s
        },
    }
}

/// The id of a name, or 0 if it never joined.
pub open spec fn id_or_zero(members: Seq<RecordView>, name: Seq<char>) -> NodeId {
    match named(members, name) {
        Some(rec) => rec.node_id,
        None => 0,
    }
}

/// What is shown of a member.
pub open spec fn shows_member(
    s: MemberStatus,
    ns: NetState,
    digest: u64,
    name: Seq<char>,
    m: MemberView,
    role: Role,
) -> bool {
    let rec = named(ns.registry@.members, name);
    let id = id_or_zero(ns.registry@.members, name);
    let report = lookup(ns.leases@.reported, id);
    &&& s.name@ == name
    &&& s.node_id == id
    &&& s.role == role
    &&& s.online == (rec is Some && ns.leases@.last_seen.dom().contains(id))
    &&& s.disabled == (rec is Some && rec->0.disabled)
    &&& s.ip4 == (if rec is Some && rec->0.ip4 is Some {
        rec->0.ip4
    } else {
        m.preferred_ip4
    })
    &&& s.ip6 == (if rec is Some && rec->0.ip6 is Some {
        rec->0.ip6
    } else {
        m.preferred_ip6
    })
    &&& s.registered_cidrs@ == (match rec {
        Some(r) => r.routes.map_values(|x: crate::registry::RouteReg| x.cidr),
        None => m.local_cidrs,
    })
    &&& s.attached_relay is Some <==> attached(ns.leases@, id)
    &&& s.attached_relay matches Some(t) ==> exists|relay: NodeId| #[trigger]
        ns.leases@.wins(relay, id) && t@ == shown(ns.registry@.members, relay)
    &&& opt_text(s.advertised_reachable) == (match ns.directory.reachability.at(name) {
        Some(v) if role == Role::Relay => Some(v.text()),
        _ => None,
    })
    &&& s.exit == exit_state_of(
        role == Role::Relay && m.internet_gateway == Some(true),
        ns.directory.exits.at(name),
    )
    &&& s.last_join_unix == (match rec {
        Some(r) => r.last_join_unix,
        None => None,
    })
    &&& opt_text(s.last_join_from) == (match rec {
        Some(r) => r.last_join_from,
        None => None,
    })
    &&& s.login_gen == (match rec {
        Some(r) => r.login_gen,
        None => 0,
    })
    &&& s.replaced_unix == (match rec {
        Some(r) => r.replaced_unix,
        None => None,
    })
    &&& opt_text(s.replaced_from) == (match rec {
        Some(r) => r.replaced_from,
        None => None,
    })
    &&& s.reported_gen == (match report {
        Some(r) => Some(r.gen),
        None => None,
    })
    &&& s.digest_ok == (report matches Some(r) && r.gen == ns.directory.revision && r.digest
        == digest)
    &&& s.last_heartbeat_unix == (match lookup(ns.leases@.last_seen, id) {
        Some(ms) => Some((ms / 1000) as u64),
        None => None,
    })
}

fn route_cidrs(rec: &MemberRecord) -> (r: Vec<IpNet>)
    ensures
        r@ == rec.routes@.map_values(|x: crate::registry::RouteReg| x.cidr),
{
    let mut out: Vec<IpNet> = Vec::new();
    let mut i: usize = 0;
    while i < rec.routes.len()
        invariant
            i <= rec.routes@.len(),
            out@.len() == i,
            forall|k: int| 0 <= k < i ==> out@[k] == (#[trigger] rec.routes@[k]).cidr,
        decreases rec.routes.len() - i,
    {
        out.push(rec.routes[i].cidr);
        i = i + 1;
    }
    assert(out@ =~= rec.routes@.map_values(|x: crate::registry::RouteReg| x.cidr));
    out
}

fn member_status(
    ns: &NetState,
    attachments: &crate::idmap::IdMap<NodeId>,
    digest: u64,
    name: &str,
    m: &MemberCfg,
    role: Role,
) -> (r: MemberStatus)
    requires
        ns.wf(),
        attachments.wf(),
        forall|c: NodeId| #[trigger]
            attachments@.dom().contains(c) <==> attached(ns.leases@, c),
        forall|c: NodeId| #[trigger]
            attachments@.dom().contains(c) ==> ns.leases@.wins(attachments@[c], c),
    ensures
        shows_member(r, *ns, digest, name@, m@, role),
{
    let rec = ns.registry.by_name(name);
    let node_id: NodeId = match rec {
        Some(r) => r.node_id,
        None => 0,
    };
    let report = ns.leases.report(node_id);
    let attached_relay = match attachments.get(node_id) {
        Some(relay) => Some(show(&ns.registry, *relay)),
        None => None,
    };
    let advertised_reachable = match role {
        Role::Relay => match ns.directory.reachability.get(name) {
            Some(v) => Some(v.as_str().to_owned()),
            None => None,
        },
        Role::Client => None,
    };
    let (ip4, ip6) = match rec {
        Some(r) => (
            if r.ip4.is_some() {
                r.ip4
            } else {
                m.preferred_ip4
            },
            if r.ip6.is_some() {
                r.ip6
            } else {
                m.preferred_ip6
            },
        ),
        None => (m.preferred_ip4, m.preferred_ip6),
    };
    MemberStatus {
        name: name.to_owned(),
        node_id,
        role,
        online: rec.is_some() && ns.leases.is_online(node_id),
        disabled: match rec {
            Some(r) => r.disabled,
            None => false,
        },
        ip4,
        ip6,
        registered_cidrs: match rec {
            Some(r) => route_cidrs(r),
            None => copy_nets(&m.local_cidrs),
        },
        attached_relay,
        advertised_reachable,
        exit: exit_state(
            role == Role::Relay && m.internet_gateway == Some(true),
            ns.directory.exits.get(name),
        ),
        last_join_unix: match rec {
            Some(r) => r.last_join_unix,
            None => None,
        },
        last_join_from: match rec {
            Some(r) => copy_opt(&r.last_join_from),
            None => None,
        },
        login_gen: match rec {
            Some(r) => r.login_gen,
            None => 0,
        },
        replaced_unix: match rec {
            Some(r) => r.replaced_unix,
            None => None,
        },
        replaced_from: match rec {
            Some(r) => copy_opt(&r.replaced_from),
            None => None,
        },
        reported_gen: match report {
            Some(r) => Some(r.gen),
            None => None,
        },
        digest_ok: match report {
            Some(r) => r.gen == ns.directory.revision && r.digest == digest,
            None => false,
        },
        last_heartbeat_unix: match ns.leases.last_seen(node_id) {
            Some(ms) => Some(ms / 1000),
            None => None,
        },
    }
}

/// The content of a [`PrefixOwner`].
#[verifier::ext_equal]
pub struct PrefixView {
    pub cidr: IpNet,
    pub owner: Seq<char>,
    pub owner_node_id: NodeId,
    pub standby: Seq<Seq<char>>,
}

impl View for PrefixOwner {
    type V = PrefixView;

    open spec fn view(&self) -> PrefixView {
        PrefixView {
            cidr: self.cidr,
            owner: self.owner@,
            owner_node_id: self.owner_node_id,
            standby: messages(self.standby@),
        }
    }
}

/// The content of a prefix table.
pub open spec fn prefix_views(v: Seq<PrefixOwner>) -> Seq<PrefixView> {
    v.map_values(|p: PrefixOwner| p@)
}

/// The registrants of a prefix but for its owner, oldest first.
pub open spec fn standbys(
    members: Seq<RecordView>,
    regs: Seq<Registrant>,
    owner: Option<Seq<char>>,
) -> Seq<Seq<char>>
    decreases regs.len(),
{
    if regs.len() == 0 {
        Seq::empty()
    } else {
        let p = standbys(members, regs.drop_last(), owner);
        let n = shown(members, regs.last().0);
        if owner == Some(n) {
            p
        } else {
            p.push(n)
        }
    }
}

/// What is shown of a registered prefix.
pub open spec fn prefix_entry(
    members: Seq<RecordView>,
    owners: Seq<(IpNet, Seq<char>)>,
    cidr: IpNet,
    regs: Seq<Registrant>,
) -> PrefixView {
    match owner_of(owners, cidr) {
        None => PrefixView {
            cidr,
            owner: "(withdrawn)"@,
            owner_node_id: 0,
            standby: standbys(members, regs, None),
        },
        Some(o) => PrefixView {
            cidr,
            owner: o,
            owner_node_id: id_or_zero(members, o),
            standby: standbys(members, regs, Some(o)),
        },
    }
}

/// What is shown of the addresses of a member.
pub open spec fn address_entries(rec: RecordView) -> Seq<PrefixView> {
    crate::directory::address_prefixes(rec).map_values(
        |c: IpNet|
            PrefixView {
                cidr: c,
                owner: rec.name,
                owner_node_id: rec.node_id,
                standby: Seq::empty(),
            },
    )
}

/// What is shown of the addresses of all members.
pub open spec fn all_addresses(members: Seq<RecordView>) -> Seq<PrefixView>
    decreases members.len(),
{
    if members.len() == 0 {
        Seq::empty()
    } else {
        all_addresses(members.drop_last()) + address_entries(members.last())
    }
}

/// The prefix table: registered prefixes, then addresses.
pub open spec fn prefix_rows(ns: NetState) -> Seq<PrefixView> {
    owners_table(ns.registry@.members).map_values(
        |e: (IpNet, Seq<Registrant>)|
            prefix_entry(ns.registry@.members, owner_views(ns.directory.owners@), e.0, e.1),
    ) + all_addresses(ns.registry@.members)
}

fn list_standbys(reg: &Registry, regs: &Vec<Registrant>, owner: &Option<String>) -> (r: Vec<String>)
    ensures
        messages(r@) == standbys(reg@.members, regs@, opt_text(*owner)),
{
    let mut out: Vec<String> = Vec::new();
    let mut i: usize = 0;
    assert(messages(out@) =~= standbys(reg@.members, regs@.take(0), opt_text(*owner)));
    while i < regs.len()
        invariant
            i <= regs@.len(),
            messages(out@) == standbys(reg@.members, regs@.take(i as int), opt_text(*owner)),
        decreases regs.len() - i,
    {
        assert(regs@.take(i + 1).drop_last() =~= regs@.take(i as int));
        let n = show(reg, regs[i].0);
        let is_owner = match owner {
            Some(o) => str_eq(o.as_str(), n.as_str()),
            None => false,
        };
        let ghost was = messages(out@);
        let ghost nv = n@;
        if !is_owner {
            out.push(n);
            assert(messages(out@) =~= was.push(nv));
        }
        i = i + 1;
    }
    assert(regs@.take(i as int) =~= regs@);
    out
}

fn prefix_table(ns: &NetState) -> (r: Vec<PrefixOwner>)
    requires
        ns.wf(),
    ensures
        prefix_views(r@) == prefix_rows(*ns),
{
    let ghost members = ns.registry@.members;
    let ghost owners = owner_views(ns.directory.owners@);
    let table = ns.registry.resolve_owners();
    let ghost t = owners_table(members);
    assert(table_view(table@).len() == table@.len());
    let ghost rows = t.map_values(
        |e: (IpNet, Seq<Registrant>)| prefix_entry(members, owners, e.0, e.1),
    );
    let mut out: Vec<PrefixOwner> = Vec::new();
    let mut i: usize = 0;
    while i < table.len()
        invariant
            i <= table@.len(),
            ns.wf(),
            members == ns.registry@.members,
            owners == owner_views(ns.directory.owners@),
            t == table_view(table@),
            t.len() == table@.len(),
            rows == t.map_values(
                |e: (IpNet, Seq<Registrant>)| prefix_entry(members, owners, e.0, e.1),
            ),
            out@.len() == i,
            forall|k: int| 0 <= k < i ==> (#[trigger] out@[k])@ == rows[k],
        decreases table.len() - i,
    {
        let cidr = table[i].0;
        let regs = &table[i].1;
        assert(t[i as int] == (cidr, regs@));
        let owner = ns.directory.owner(&cidr);
        let standby = list_standbys(&ns.registry, regs, &owner);
        let entry = match owner {
            None => PrefixOwner {
                cidr,
                owner: "(withdrawn)".to_owned(),
                owner_node_id: 0,
                standby,
            },
            Some(o) => {
                let id: NodeId = match ns.registry.id_of(o.as_str()) {
                    Some(id) => id,
                    None => 0,
                };
                PrefixOwner { cidr, owner: o, owner_node_id: id, standby }
            },
        };
        assert(entry@ =~= rows[i as int]);
        out.push(entry);
        i = i + 1;
    }
    assert(prefix_views(out@) =~= rows);
    let mut k: usize = 0;
    assert(rows + all_addresses(members.take(0)) =~= rows);
    while k < ns.registry.members.len()
        invariant
            k <= ns.registry.members@.len(),
            members == ns.registry@.members,
            members.len() == ns.registry.members@.len(),
            prefix_views(out@) == rows + all_addresses(members.take(k as int)),
        decreases ns.registry.members.len() - k,
    {
        let rec = &ns.registry.members[k];
        assert(members[k as int] == rec@);
        assert(members.take(k + 1).drop_last() =~= members.take(k as int));
        assert(members.take(k + 1).last() == rec@);
        let ghost base = prefix_views(out@);
        let ghost want = address_entries(rec@);
        if let Some(ip) = rec.ip4 {
            out.push(
                PrefixOwner {
                    cidr: IpNet::host(IpAddr::V4(ip)),
                    owner: rec.name.clone(),
                    owner_node_id: rec.node_id,
                    standby: Vec::new(),
                },
            );
        }
        if let Some(ip) = rec.ip6 {
            out.push(
                PrefixOwner {
                    cidr: IpNet::host(IpAddr::V6(ip)),
                    owner: rec.name.clone(),
                    owner_node_id: rec.node_id,
                    standby: Vec::new(),
                },
            );
        }
        proof {
            assert forall|v: Seq<String>| v.len() == 0 implies #[trigger] messages(v)
                == Seq::<Seq<char>>::empty() by {
                assert(messages(v) =~= Seq::empty());
            }
            assert(prefix_views(out@) =~= base + want);
            assert(base + want =~= rows + (all_addresses(members.take(k as int)) + want));
        }
        k = k + 1;
    }
    assert(members.take(k as int) =~= members);
    out
}

/// What is shown of a link.
pub open spec fn shows_link(
    l: RelayLink,
    members: Seq<RecordView>,
    sample: TrafficSample,
    x: LinkTraffic,
) -> bool {
    &&& l.peer@ == shown(members, x.peer_id)
    &&& l.peer_node_id == x.peer_id
    &&& l.tx_bytes == x.tx_bytes
    &&& l.tx_pkts == x.tx_pkts
    &&& l.rx_bytes == x.rx_bytes
    &&& l.rx_pkts == x.rx_pkts
    &&& l.tx_bps == sample.rate_spec(x.peer_id, true)
    &&& l.rx_bps == sample.rate_spec(x.peer_id, false)
    &&& l.up == x.up
}

/// What is shown of a relay's traffic.
pub open spec fn shows_traffic(
    t: RelayTraffic,
    members: Seq<RecordView>,
    name: Seq<char>,
    sample: TrafficSample,
    now: u64,
) -> bool {
    &&& t.relay@ == name
    &&& t.node_id == id_or_zero(members, name)
    &&& t.age_secs == if now < sample.at {
        0
    } else {
        now - sample.at
    }
    &&& t.links@.len() == sample.report.links@.len()
    &&& forall|i: int|
        0 <= i < t.links@.len() ==> shows_link(
            #[trigger] t.links@[i],
            members,
            sample,
            sample.report.links@[i],
        )
    &&& t.local_bytes == sample.report.local_bytes
    &&& t.local_pkts == sample.report.local_pkts
    &&& t.terminated_bytes == sample.report.terminated_bytes
    &&& t.terminated_pkts == sample.report.terminated_pkts
}

fn relay_row(reg: &Registry, name: &str, sample: &TrafficSample, now: u64) -> (r: RelayTraffic)
    ensures
        shows_traffic(r, reg@.members, name@, *sample, now),
{
    let mut links: Vec<RelayLink> = Vec::new();
    let mut i: usize = 0;
    while i < sample.report.links.len()
        invariant
            i <= sample.report.links@.len(),
            links@.len() == i,
            forall|k: int|
                0 <= k < i ==> shows_link(
                    #[trigger] links@[k],
                    reg@.members,
                    *sample,
                    sample.report.links@[k],
                ),
        decreases sample.report.links.len() - i,
    {
        let l = sample.report.links[i];
        links.push(
            RelayLink {
                peer: show(reg, l.peer_id),
                peer_node_id: l.peer_id,
                tx_bytes: l.tx_bytes,
                tx_pkts: l.tx_pkts,
                rx_bytes: l.rx_bytes,
                rx_pkts: l.rx_pkts,
                tx_bps: sample.rate(l.peer_id, true),
                rx_bps: sample.rate(l.peer_id, false),
                up: l.up,
            },
        );
        i = i + 1;
    }
    let node_id: NodeId = match reg.id_of(name) {
        Some(id) => id,
        None => 0,
    };
    RelayTraffic {
        relay: name.to_owned(),
        node_id,
        age_secs: now.saturating_sub(sample.at),
        links,
        local_bytes: sample.report.local_bytes,
        local_pkts: sample.report.local_pkts,
        terminated_bytes: sample.report.terminated_bytes,
        terminated_pkts: sample.report.terminated_pkts,
    }
}

/// The node id of the relay at a place of the traffic records.
pub open spec fn reporter(entries: Seq<(String, TrafficSample)>, members: Seq<RecordView>, k: int) -> NodeId {
    id_or_zero(members, entries[k].0@)
}

/// `order` with `k` put behind every place whose relay has no higher id.
pub open spec fn placed(
    order: Seq<int>,
    entries: Seq<(String, TrafficSample)>,
    members: Seq<RecordView>,
    k: int,
) -> Seq<int>
    decreases order.len(),
{
    if order.len() == 0 || reporter(entries, members, order.last()) <= reporter(
        entries,
        members,
        k,
    ) {
        order.push(k)
    } else {
        placed(order.drop_last(), entries, members, k).push(order.last())
    }
}

/// The first `n` traffic records in the order of their relays' node ids,
/// those of one id in the order of the records.
pub open spec fn traffic_order(
    entries: Seq<(String, TrafficSample)>,
    members: Seq<RecordView>,
    n: int,
) -> Seq<int>
    decreases n,
{
    if n <= 0 {
        Seq::empty()
    } else {
        placed(traffic_order(entries, members, n - 1), entries, members, n - 1)
    }
}

/// Whether `rows` shows the traffic records in that order.
pub open spec fn shows_relays(rows: Seq<RelayTraffic>, ns: NetState, now: u64) -> bool {
    let e = ns.directory.traffic.entries@;
    let order = traffic_order(e, ns.registry@.members, e.len() as int);
    &&& rows.len() == order.len()
    &&& forall|i: int|
        0 <= i < rows.len() ==> shows_traffic(
            #[trigger] rows[i],
            ns.registry@.members,
            e[order[i]].0@,
            e[order[i]].1,
            now,
        )
}

proof fn lemma_placed(
    order: Seq<int>,
    entries: Seq<(String, TrafficSample)>,
    members: Seq<RecordView>,
    k: int,
    p: int,
)
    requires
        0 <= p <= order.len(),
        forall|j: int|
            p <= j < order.len() ==> reporter(entries, members, #[trigger] order[j]) > reporter(
                entries,
                members,
                k,
            ),
        p > 0 ==> reporter(entries, members, order[p - 1]) <= reporter(entries, members, k),
    ensures
        placed(order, entries, members, k) == order.insert(p, k),
    decreases order.len(),
{
    if p == order.len() {
        assert(order.insert(p, k) =~= order.push(k));
    } else {
        lemma_placed(order.drop_last(), entries, members, k, p);
        assert(order.insert(p, k) =~= order.drop_last().insert(p, k).push(order.last()));
    }
}

/// Each traffic record has its row.
pub proof fn law_every_record_has_its_row(
    entries: Seq<(String, TrafficSample)>,
    members: Seq<RecordView>,
    n: int,
    k: int,
)
    requires
        0 <= k < n,
    ensures
        traffic_order(entries, members, n).contains(k),
    decreases n,
{
    let was = traffic_order(entries, members, n - 1);
    if k < n - 1 {
        law_every_record_has_its_row(entries, members, n - 1, k);
    }
    lemma_placed_contains(was, entries, members, n - 1, k);
}

proof fn lemma_placed_contains(
    order: Seq<int>,
    entries: Seq<(String, TrafficSample)>,
    members: Seq<RecordView>,
    k: int,
    x: int,
)
    requires
        x == k || order.contains(x),
    ensures
        placed(order, entries, members, k).contains(x),
    decreases order.len(),
{
    let r = placed(order, entries, members, k);
    if order.len() == 0 || reporter(entries, members, order.last()) <= reporter(
        entries,
        members,
        k,
    ) {
        if x == k {
            assert(r[order.len() as int] == x);
        } else {
            let i = choose|i: int| 0 <= i < order.len() && order[i] == x;
            assert(r[i] == x);
        }
    } else {
        let d = order.drop_last();
        let rd = placed(d, entries, members, k);
        if x != k && !d.contains(x) {
            let i = choose|i: int| 0 <= i < order.len() && order[i] == x;
            if i < d.len() {
                assert(d[i] == x);
            }
            assert(r[rd.len() as int] == x);
        } else {
            lemma_placed_contains(d, entries, members, k, x);
            let i = choose|i: int| 0 <= i < rd.len() && rd[i] == x;
            assert(r[i] == x);
        }
    }
}

fn relay_rows(ns: &NetState, now: u64) -> (r: Vec<RelayTraffic>)
    requires
        ns.wf(),
    ensures
        shows_relays(r@, *ns, now),
{
    let ghost e = ns.directory.traffic.entries@;
    let ghost members = ns.registry@.members;
    let mut out: Vec<RelayTraffic> = Vec::new();
    let ghost mut order: Seq<int> = Seq::empty();
    let mut k: usize = 0;
    while k < ns.directory.traffic.entries.len()
        invariant
            k <= e.len(),
            e == ns.directory.traffic.entries@,
            members == ns.registry@.members,
            order == traffic_order(e, members, k as int),
            out@.len() == order.len(),
            forall|i: int|
                0 <= i < out@.len() ==> shows_traffic(
                    #[trigger] out@[i],
                    members,
                    e[order[i]].0@,
                    e[order[i]].1,
                    now,
                ),
        decreases e.len() - k,
    {
        let name = ns.directory.traffic.entries[k].0.as_str();
        let row = relay_row(&ns.registry, name, &ns.directory.traffic.entries[k].1, now);
        let ghost was = out@;
        let ghost new_row = row;
        let mut p: usize = out.len();
        while p > 0 && out[p - 1].node_id > row.node_id
            invariant
                p <= out@.len(),
                out@ == was,
                row == new_row,
                was.len() == order.len(),
                row.node_id == reporter(e, members, k as int),
                forall|i: int|
                    0 <= i < was.len() ==> (#[trigger] was[i]).node_id == reporter(
                        e,
                        members,
                        order[i],
                    ),
                forall|j: int|
                    p <= j < order.len() ==> reporter(e, members, #[trigger] order[j])
                        > row.node_id,
            decreases p,
        {
            assert(was[p - 1].node_id == reporter(e, members, order[p - 1]));
            p = p - 1;
        }
        proof {
            if p > 0 {
                assert(was[p - 1].node_id == reporter(e, members, order[p - 1]));
            }
            lemma_placed(order, e, members, k as int, p as int);
        }
        out.insert(p, row);
        proof {
            let next = order.insert(p as int, k as int);
            assert forall|i: int| 0 <= i < out@.len() implies shows_traffic(
                #[trigger] out@[i],
                members,
                e[next[i]].0@,
                e[next[i]].1,
                now,
            ) by {
                if i < p {
                    assert(out@[i] == was[i]);
                } else if i > p {
                    assert(out@[i] == was[i - 1]);
                }
            }
            order = next;
        }
        k = k + 1;
    }
    out
}

/// What an administrator sees of a network. `published_digest` is the digest
/// of the view that is published now.
pub fn status_of(ns: &NetState, id: &str, published_digest: u64, now: u64) -> (r: NetworkStatus)
    requires
        ns.wf(),
    ensures
        r.network_id@ == id@,
        r.network_uuid@ == ns.registry@.network_uuid,
        r.gen == ns.directory.revision,
        r.members@.len() == ns.cfg@.everyone().len(),
        forall|i: int|
            0 <= i < r.members@.len() ==> shows_member(
                #[trigger] r.members@[i],
                *ns,
                published_digest,
                ns.cfg@.everyone()[i].0,
                ns.cfg@.everyone()[i].1,
                ns.cfg@.everyone()[i].2,
            ),
        prefix_views(r.prefix_table@) == prefix_rows(*ns),
        shows_relays(r.relay_traffic@, *ns, now),
        r.transport@ == ns.cfg@.settings.transport,
        r.lanes == ns.cfg@.settings.lanes,
{
    let attachments = ns.leases.attachments();
    let ghost all = ns.cfg@.everyone();
    assert(ns.cfg@.clients.len() == ns.cfg.clients.entries@.len());
    assert(ns.cfg@.relays.len() == ns.cfg.relays.entries@.len());
    let total = ns.cfg.clients.entries.len() + ns.cfg.relays.entries.len();
    let mut members: Vec<MemberStatus> = Vec::new();
    let mut i: usize = 0;
    while i < total
        invariant
            i <= total,
            total == all.len(),
            all == ns.cfg@.everyone(),
            ns.wf(),
            attachments.wf(),
            forall|c: NodeId| #[trigger]
                attachments@.dom().contains(c) <==> attached(ns.leases@, c),
            forall|c: NodeId| #[trigger]
                attachments@.dom().contains(c) ==> ns.leases@.wins(attachments@[c], c),
            members@.len() == i,
            forall|k: int|
                0 <= k < i ==> shows_member(
                    #[trigger] members@[k],
                    *ns,
                    published_digest,
                    all[k].0,
                    all[k].1,
                    all[k].2,
                ),
        decreases total - i,
    {
        let (name, m, role) = crate::validate::nth_member(&ns.cfg, i);
        members.push(member_status(ns, &attachments, published_digest, name, m, role));
        i = i + 1;
    }
    NetworkStatus {
        network_id: id.to_owned(),
        network_uuid: ns.registry.network_uuid.clone(),
        gen: ns.directory.revision,
        members,
        prefix_table: prefix_table(ns),
        relay_traffic: relay_rows(ns, now),
        transport: ns.cfg.settings.transport.clone(),
        lanes: ns.cfg.settings.lanes,
    }
}

/// A network in one line.
pub fn summary_of(ns: &NetState, id: &str) -> (r: NetworkSummary)
    requires
        ns.wf(),
    ensures
        r.network_id@ == id@,
        r.members_total == ns.cfg@.everyone().len(),
        r.relays_total == ns.cfg@.relays.len(),
        r.members_online as nat == ns.leases@.last_seen.dom().len(),
        r.gen == ns.directory.revision,
{
    assert(ns.cfg@.clients.len() == ns.cfg.clients.entries@.len());
    assert(ns.cfg@.relays.len() == ns.cfg.relays.entries@.len());
    let online = ns.leases.online_nodes();
    NetworkSummary {
        network_id: id.to_owned(),
        members_total: ns.cfg.clients.entries.len() + ns.cfg.relays.entries.len(),
        relays_total: ns.cfg.relays.entries.len(),
        members_online: online.len(),
        gen: ns.directory.revision,
    }
}

/// A member that has joined is shown with its own id, whether it is online
/// and disabled, the addresses it was granted (those it asks for where it was
/// granted none), the prefixes that are registered for it, when and from where
/// it joined, and what it last said that it holds.
pub proof fn law_a_member_is_shown_as_it_stands(
    s: MemberStatus,
    ns: NetState,
    digest: u64,
    name: Seq<char>,
    m: MemberView,
    role: Role,
    k: int,
)
    requires
        shows_member(s, ns, digest, name, m, role),
        0 <= k < ns.registry@.members.len(),
        ns.registry@.members[k].name == name,
        forall|j: int| 0 <= j < k ==> (#[trigger] ns.registry@.members[j]).name != name,
    ensures
        ({
            let rec = ns.registry@.members[k];
            let id = rec.node_id;
            let l = ns.leases@;
            &&& s.name@ == name
            &&& s.role == role
            &&& s.node_id == id
            &&& s.online <==> l.last_seen.dom().contains(id)
            &&& s.disabled == rec.disabled
            &&& rec.ip4 is Some ==> s.ip4 == rec.ip4
            &&& rec.ip4 is None ==> s.ip4 == m.preferred_ip4
            &&& rec.ip6 is Some ==> s.ip6 == rec.ip6
            &&& rec.ip6 is None ==> s.ip6 == m.preferred_ip6
            &&& s.registered_cidrs@.len() == rec.routes.len()
            &&& forall|i: int|
                0 <= i < rec.routes.len() ==> #[trigger] s.registered_cidrs@[i]
                    == rec.routes[i].cidr
            &&& s.last_join_unix == rec.last_join_unix
            &&& opt_text(s.last_join_from) == rec.last_join_from
            &&& s.login_gen == rec.login_gen
            &&& s.replaced_unix == rec.replaced_unix
            &&& opt_text(s.replaced_from) == rec.replaced_from
            &&& l.reported.dom().contains(id) ==> s.reported_gen == Some(l.reported[id].gen)
            &&& !l.reported.dom().contains(id) ==> s.reported_gen is None && !s.digest_ok
            &&& l.reported.dom().contains(id) ==> (s.digest_ok <==> l.reported[id].gen
                == ns.directory.revision && l.reported[id].digest == digest)
            &&& s.last_heartbeat_unix is Some <==> l.last_seen.dom().contains(id)
            &&& l.last_seen.dom().contains(id) ==> s.last_heartbeat_unix == Some(
                (l.last_seen[id] / 1000) as u64,
            )
            &&& s.attached_relay is Some <==> exists|relay: NodeId| #[trigger] l.holds(relay, id)
            &&& role == Role::Client ==> s.advertised_reachable is None && s.exit == ExitState::No
            &&& role == Role::Relay && m.internet_gateway != Some(true) ==> s.exit == ExitState::No
        }),
{
    crate::registry::lemma_name_index_is(ns.registry@.members, name, k);
}

/// A member that never joined is shown offline, without an id, and with the
/// addresses and prefixes that it is configured with.
pub proof fn law_a_member_that_never_joined_is_shown_as_configured(
    s: MemberStatus,
    ns: NetState,
    digest: u64,
    name: Seq<char>,
    m: MemberView,
    role: Role,
)
    requires
        shows_member(s, ns, digest, name, m, role),
        forall|j: int|
            0 <= j < ns.registry@.members.len() ==> (#[trigger] ns.registry@.members[j]).name
                != name,
    ensures
        s.name@ == name,
        s.role == role,
        s.node_id == 0,
        !s.online,
        !s.disabled,
        s.ip4 == m.preferred_ip4,
        s.ip6 == m.preferred_ip6,
        s.registered_cidrs@ == m.local_cidrs,
        s.last_join_unix is None,
        s.last_join_from is None,
        s.replaced_unix is None,
        s.login_gen == 0,
{
    crate::registry::lemma_name_index(ns.registry@.members, name);
}

proof fn lemma_standbys(
    members: Seq<RecordView>,
    regs: Seq<Registrant>,
    owner: Option<Seq<char>>,
    name: Seq<char>,
)
    ensures
        standbys(members, regs, owner).contains(name) <==> owner != Some(name) && exists|i: int|
            0 <= i < regs.len() && shown(members, (#[trigger] regs[i]).0) == name,
    decreases regs.len(),
{
    if regs.len() > 0 {
        let d = regs.drop_last();
        let p = standbys(members, d, owner);
        let q = standbys(members, regs, owner);
        lemma_standbys(members, d, owner, name);
        assert(regs[regs.len() - 1] == regs.last());
        if q.contains(name) {
            let x = choose|x: int| 0 <= x < q.len() && q[x] == name;
            if x < p.len() {
                assert(p[x] == name);
                let i = choose|i: int|
                    0 <= i < d.len() && shown(members, (#[trigger] d[i]).0) == name;
                assert(regs[i] == d[i]);
            }
        }
        if owner != Some(name) && exists|i: int|
            0 <= i < regs.len() && shown(members, (#[trigger] regs[i]).0) == name {
            let i = choose|i: int|
                0 <= i < regs.len() && shown(members, (#[trigger] regs[i]).0) == name;
            if i < d.len() {
                assert(d[i] == regs[i]);
                let x = choose|x: int| 0 <= x < p.len() && p[x] == name;
                assert(q[x] == name);
            } else {
                assert(q[p.len() as int] == name);
            }
        }
    }
}

/// A registered prefix is shown with the member that owns it, and with all
/// its other registrants as standbys; one that nobody owns is shown as
/// withdrawn, and everyone who registered it stands by.
pub proof fn law_a_prefix_is_shown_with_its_owner_and_standbys(
    members: Seq<RecordView>,
    owners: Seq<(IpNet, Seq<char>)>,
    cidr: IpNet,
    regs: Seq<Registrant>,
    k: int,
    r: int,
    j: int,
)
    requires
        0 <= r < regs.len(),
        0 <= j < members.len(),
        members[j].node_id == regs[r].0,
        forall|x: int| 0 <= x < j ==> (#[trigger] members[x]).node_id != regs[r].0,
    ensures
        prefix_entry(members, owners, cidr, regs).cidr == cidr,
        0 <= k < owners.len() && owners[k].0 == cidr && (forall|x: int|
            0 <= x < owners.len() && (#[trigger] owners[x]).0 == cidr ==> owners[x] == owners[k])
            ==> ({
            let e = prefix_entry(members, owners, cidr, regs);
            &&& e.owner == owners[k].1
            &&& e.standby.contains(members[j].name) <==> members[j].name != owners[k].1
        }),
        (forall|x: int| 0 <= x < owners.len() ==> (#[trigger] owners[x]).0 != cidr) ==> ({
            let e = prefix_entry(members, owners, cidr, regs);
            &&& e.owner == "(withdrawn)"@
            &&& e.owner_node_id == 0
            &&& e.standby.contains(members[j].name)
        }),
{
    crate::directory::lemma_owner_of(owners, cidr);
    crate::registry::lemma_id_index(members, regs[r].0);
    assert(shown(members, regs[r].0) == members[j].name);
    lemma_standbys(members, regs, owner_of(owners, cidr), members[j].name);
}

/// The addresses of every member are shown as its own.
pub proof fn law_every_address_is_shown_with_its_holder(members: Seq<RecordView>, j: int)
    requires
        0 <= j < members.len(),
    ensures
        members[j].ip4 matches Some(ip) ==> all_addresses(members).contains(
            (PrefixView {
                cidr: IpNet { addr: IpAddr::V4(ip), prefix_len: 32 },
                owner: members[j].name,
                owner_node_id: members[j].node_id,
                standby: Seq::empty(),
            }),
        ),
        members[j].ip6 matches Some(ip) ==> all_addresses(members).contains(
            (PrefixView {
                cidr: IpNet { addr: IpAddr::V6(ip), prefix_len: 128 },
                owner: members[j].name,
                owner_node_id: members[j].node_id,
                standby: Seq::empty(),
            }),
        ),
    decreases members.len(),
{
    let d = members.drop_last();
    let p = all_addresses(d);
    let q = all_addresses(members);
    let rec = members[j];
    if j < d.len() {
        assert(d[j] == rec);
        law_every_address_is_shown_with_its_holder(d, j);
        assert forall|e: PrefixView| p.contains(e) implies q.contains(e) by {
            let x = choose|x: int| 0 <= x < p.len() && p[x] == e;
            assert(q[x] == e);
        }
    } else {
        let a = crate::directory::address_prefixes(rec);
        let t = address_entries(rec);
        assert(q == p + t);
        assert(t.len() == a.len());
        if let Some(ip) = rec.ip4 {
            assert(a[0] == (IpNet { addr: IpAddr::V4(ip), prefix_len: 32 }));
            assert(q[p.len() as int] == t[0]);
        }
        if let Some(ip) = rec.ip6 {
            assert(a[a.len() - 1] == (IpNet { addr: IpAddr::V6(ip), prefix_len: 128 }));
            assert(q[p.len() + a.len() - 1] == t[a.len() - 1]);
        }
    }
}

/// A relay's traffic is shown as it was reported, link by link and each way,
/// with how old the report is.
pub proof fn law_traffic_is_shown_as_it_was_reported(
    t: RelayTraffic,
    members: Seq<RecordView>,
    name: Seq<char>,
    sample: TrafficSample,
    now: u64,
    i: int,
)
    requires
        shows_traffic(t, members, name, sample, now),
    ensures
        t.relay@ == name,
        now >= sample.at ==> t.age_secs == now - sample.at,
        now < sample.at ==> t.age_secs == 0,
        t.links@.len() == sample.report.links@.len(),
        0 <= i < t.links@.len() ==> ({
            let l = t.links@[i];
            let x = sample.report.links@[i];
            &&& l.peer_node_id == x.peer_id
            &&& l.tx_bytes == x.tx_bytes
            &&& l.tx_pkts == x.tx_pkts
            &&& l.rx_bytes == x.rx_bytes
            &&& l.rx_pkts == x.rx_pkts
            &&& l.up == x.up
        }),
        t.local_bytes == sample.report.local_bytes,
        t.local_pkts == sample.report.local_pkts,
        t.terminated_bytes == sample.report.terminated_bytes,
        t.terminated_pkts == sample.report.terminated_pkts,
{
    if 0 <= i < t.links@.len() {
        assert(shows_link(t.links@[i], members, sample, sample.report.links@[i]));
    }
}

} // verus!
