//! Which routes an endpoint should have.
//!
//! The routing table is a function of the network view: every reserved
//! prefix and every member's prefixes, less what this node owns itself, and
//! less anything that would capture what this host routes already. Reserved
//! prefixes that nobody owns stay pointed at the tunnel on purpose: a packet
//! for a site that is down is dropped there, instead of leaving in cleartext.

use vstd::prelude::*;

use crate::net::{all_valid, lemma_range, IpAddr, IpNet};
use crate::netset::{
    ascending, gather, gathered, has_item, lemma_gathered, lemma_with_item, put_item, with_item,
};
use crate::proto::{peer_views, NodeId, PeerInfo, PeerView, Snapshot};
use crate::text::{
    behind_prefix, opt_text, said, say, split_first, split_once, str_eq, strip_prefix, texts, trim,
    trimmed,
};
use crate::validate::{any_contains, any_has};

verus! {

/// The two halves that together cover a whole address family. Each is one
/// bit longer than the default route, so that it is preferred to the default
/// without deleting it.
pub open spec fn halves(v6: bool) -> Seq<IpNet> {
    if v6 {
        seq![
            IpNet { addr: IpAddr::V6(0), prefix_len: 1 },
            IpNet {
                addr: IpAddr::V6(0x8000_0000_0000_0000_0000_0000_0000_0000),
                prefix_len: 1,
            },
        ]
    } else {
        seq![
            IpNet { addr: IpAddr::V4(0), prefix_len: 1 },
            IpNet { addr: IpAddr::V4(0x8000_0000), prefix_len: 1 },
        ]
    }
}

/// The two halves of an address family.
pub fn catch_all_halves(v6: bool) -> (r: [IpNet; 2])
    ensures
        r@ == halves(v6),
        r@[0].valid(),
        r@[1].valid(),
{
    let r = if v6 {
        [
            IpNet { addr: IpAddr::V6(0), prefix_len: 1 },
            IpNet {
                addr: IpAddr::V6(0x8000_0000_0000_0000_0000_0000_0000_0000),
                prefix_len: 1,
            },
        ]
    } else {
        [
            IpNet { addr: IpAddr::V4(0), prefix_len: 1 },
            IpNet { addr: IpAddr::V4(0x8000_0000), prefix_len: 1 },
        ]
    };
    assert(r@ =~= halves(v6));
    r
}

/// Every address of a family is in one of its halves, and in one alone; no
/// address of the other family is in either.
pub proof fn law_the_halves_cover_their_family(v6: bool, ip: IpAddr)
    ensures
        halves(v6)[0].has(ip) != halves(v6)[1].has(ip) <==> ip.v4() != v6,
        halves(v6)[0].has(ip) || halves(v6)[1].has(ip) <==> ip.v4() != v6,
{
    let a = halves(v6)[0];
    let b = halves(v6)[1];
    lemma_range(a);
    lemma_range(b);
    crate::net::lemma_family_bounds(ip);
    crate::net::lemma_family_bounds(a.addr);
    vstd::arithmetic::power2::lemma2_to64_rest();
    vstd::arithmetic::power2::lemma2_to64();
    if v6 {
        vstd::arithmetic::power2::lemma_pow2_adds(1, 127);
        assert(a.size() == vstd::arithmetic::power2::pow2(127));
        assert(a.size() * 2 == u128::MAX + 1);
        assert(a.size() == 0x8000_0000_0000_0000_0000_0000_0000_0000);
        assert(0nat % a.size() == 0);
        vstd::arithmetic::div_mod::lemma_mod_self_0(a.size() as int);
    } else {
        assert(a.size() == 0x8000_0000);
        assert(0nat % a.size() == 0);
        vstd::arithmetic::div_mod::lemma_mod_self_0(a.size() as int);
    }
}

/// The resolver that a line of a resolver configuration names.
pub open spec fn line_resolver(line: Seq<char>) -> Option<IpAddr> {
    let plain = match split_first(line, '#') {
        Some((a, _)) => a,
        None => line,
    };
    match behind_prefix(trimmed(plain), "nameserver"@) {
        None => None,
        Some(rest) => {
            let t = trimmed(rest);
            IpAddr::read(
                match split_first(t, '%') {
                    Some((a, _)) => a,
                    None => t,
                },
            )
        },
    }
}

/// The resolvers that a resolver configuration names, in order.
pub open spec fn resolvers_of(text: Seq<char>) -> Seq<IpAddr>
    decreases text.len(),
{
    match split_first(text, '\n') {
        None => match line_resolver(text) {
            Some(ip) => seq![ip],
            None => Seq::empty(),
        },
        Some((line, rest)) => {
            proof {
                crate::text::lemma_first_position(text, '\n');
            }
            match line_resolver(line) {
                Some(ip) => seq![ip] + resolvers_of(rest),
                None => resolvers_of(rest),
            }
        },
    }
}

fn read_line(line: &str) -> (r: Option<IpAddr>)
    ensures
        r == line_resolver(line@),
{
    let plain = match split_once(line, '#') {
        Some((a, _)) => a,
        None => line.to_owned(),
    };
    let t = trim(plain.as_str());
    match strip_prefix(t.as_str(), "nameserver") {
        None => None,
        Some(rest) => {
            let t = trim(rest.as_str());
            match split_once(t.as_str(), '%') {
                Some((a, _)) => IpAddr::parse(a.as_str()),
                None => IpAddr::parse(t.as_str()),
            }
        },
    }
}

/// The resolvers that this host uses, from the content of its resolver
/// configuration, if that could be read.
///
/// An endpoint that sends everything into the tunnel leaves name resolution
/// alone, and cannot resolve through a tunnel that is not up yet: its
/// resolvers have to stay reachable over the real gateway.
pub fn system_resolvers(resolv_conf: &Option<String>) -> (r: Vec<IpAddr>)
    ensures
        r@ == match *resolv_conf {
            Some(t) => resolvers_of(t@),
            None => Seq::empty(),
        },
{
    let mut out: Vec<IpAddr> = Vec::new();
    match resolv_conf {
        None => out,
        Some(t) => {
            let mut rest: String = t.clone();
            let ghost all = resolvers_of(t@);
            assert(all =~= out@ + resolvers_of(rest@));
            loop
                invariant_except_break
                    all == out@ + resolvers_of(rest@),
                ensures
                    out@ == all,
                decreases rest@.len(),
            {
                match split_once(rest.as_str(), '\n') {
                    None => {
                        if let Some(ip) = read_line(rest.as_str()) {
                            out.push(ip);
                        }
                        assert(out@ =~= all);
                        break;
                    },
                    Some((line, tail)) => {
                        proof {
                            crate::text::lemma_first_position(rest@, '\n');
                        }
                        let ghost was = out@;
                        if let Some(ip) = read_line(line.as_str()) {
                            out.push(ip);
                        }
                        assert(all =~= out@ + resolvers_of(tail@));
                        rest = tail;
                    },
                }
            }
            out
        },
    }
}

/// The addresses that no local prefix carries.
pub open spec fn off_link(underlay: Seq<IpAddr>, local: Seq<IpNet>) -> Seq<IpAddr>
    decreases underlay.len(),
{
    if underlay.len() == 0 {
        underlay
    } else if any_has(local, underlay.last()) {
        off_link(underlay.drop_last(), local)
    } else {
        off_link(underlay.drop_last(), local).push(underlay.last())
    }
}

/// Which underlay hosts need a route of their own when everything goes into
/// the tunnel: those that no connected route carries already.
pub fn underlay_to_pin(underlay: &Vec<IpAddr>, local: &Vec<IpNet>) -> (r: Vec<IpAddr>)
    requires
        all_valid(local@),
    ensures
        r@ == gathered(off_link(underlay@, local@)),
{
    let mut kept: Vec<IpAddr> = Vec::new();
    let mut i: usize = 0;
    assert(underlay@.take(0) =~= Seq::empty());
    while i < underlay.len()
        invariant
            i <= underlay@.len(),
            all_valid(local@),
            kept@ == off_link(underlay@.take(i as int), local@),
        decreases underlay.len() - i,
    {
        assert(underlay@.take(i + 1).drop_last() =~= underlay@.take(i as int));
        if !any_contains(local, &underlay[i]) {
            kept.push(underlay[i]);
        }
        i = i + 1;
    }
    assert(underlay@.take(i as int) =~= underlay@);
    gather(&kept)
}

proof fn lemma_off_link(underlay: Seq<IpAddr>, local: Seq<IpNet>, ip: IpAddr)
    ensures
        off_link(underlay, local).contains(ip) <==> underlay.contains(ip) && !any_has(local, ip),
    decreases underlay.len(),
{
    if underlay.len() > 0 {
        let d = underlay.drop_last();
        let x = underlay.last();
        let t = off_link(d, local);
        let u = off_link(underlay, local);
        lemma_off_link(d, local, ip);
        if underlay.contains(ip) && !any_has(local, ip) {
            let i = choose|i: int| 0 <= i < underlay.len() && underlay[i] == ip;
            if i < d.len() {
                assert(d[i] == ip);
                let k = choose|k: int| 0 <= k < t.len() && t[k] == ip;
                assert(u[k] == ip);
            } else {
                assert(u[t.len() as int] == ip);
            }
        }
        if u.contains(ip) {
            let k = choose|k: int| 0 <= k < u.len() && u[k] == ip;
            if k < t.len() {
                assert(t[k] == ip);
                let i = choose|i: int| 0 <= i < d.len() && d[i] == ip;
                assert(underlay[i] == ip);
            } else {
                assert(underlay[underlay.len() - 1] == ip);
            }
        }
    }
}

/// A host is pinned exactly when it is an underlay host that no connected
/// route carries, and each once.
pub proof fn law_exactly_the_hosts_off_the_link_are_pinned(
    underlay: Seq<IpAddr>,
    local: Seq<IpNet>,
    ip: IpAddr,
)
    ensures
        gathered(off_link(underlay, local)).contains(ip) <==> underlay.contains(ip) && !any_has(
            local,
            ip,
        ),
        ascending(gathered(off_link(underlay, local))),
{
    lemma_off_link(underlay, local, ip);
    lemma_gathered(off_link(underlay, local));
}

/// The prefix is the default route of the family.
pub open spec fn is_default(p: IpNet, v6: bool) -> bool {
    p.prefix_len == 0 && p.addr.v4() != v6
}

/// A member that internet traffic of the family can leave through: it is
/// online and owns the default route, so that it accepts such packets.
pub open spec fn is_exit(m: PeerView, v6: bool) -> bool {
    m.online && exists|i: int|
        0 <= i < m.prefixes.len() && is_default(#[trigger] m.prefixes[i], v6)
}

/// The first exit of this name.
pub open spec fn named_exit(members: Seq<PeerView>, name: Seq<char>, v6: bool) -> Option<NodeId>
    decreases members.len(),
{
    if members.len() == 0 {
        None
    } else {
        match named_exit(members.drop_last(), name, v6) {
            Some(id) => Some(id),
            None => if members.last().name == name && is_exit(members.last(), v6) {
                Some(members.last().node_id)
            } else {
                None
            },
        }
    }
}

/// The node is one of the exits.
pub open spec fn usable_exit(members: Seq<PeerView>, id: NodeId, v6: bool) -> bool {
    exists|i: int|
        0 <= i < members.len() && (#[trigger] members[i]).node_id == id && is_exit(members[i], v6)
}

/// The exit with the lowest id.
pub open spec fn lowest_exit(members: Seq<PeerView>, v6: bool) -> Option<NodeId>
    decreases members.len(),
{
    if members.len() == 0 {
        None
    } else {
        let p = lowest_exit(members.drop_last(), v6);
        let m = members.last();
        if !is_exit(m, v6) {
            p
        } else {
            match p {
                Some(id) if id <= m.node_id => Some(id),
                _ => Some(m.node_id),
            }
        }
    }
}

/// The exit that is chosen: the named one if it is usable, else the relay
/// that this node is attached to if that is one, else the lowest id.
pub open spec fn chosen_exit(
    members: Seq<PeerView>,
    via: Option<Seq<char>>,
    attached: Option<NodeId>,
    v6: bool,
) -> Option<NodeId> {
    let preferred = match via {
        Some(name) => named_exit(members, name, v6),
        None => None,
    };
    match preferred {
        Some(id) => Some(id),
        None => match attached {
            Some(id) if usable_exit(members, id, v6) => Some(id),
            _ => lowest_exit(members, v6),
        },
    }
}

fn check_exit(m: &PeerInfo, v6: bool) -> (r: bool)
    ensures
        r == is_exit(m@, v6),
{
    if !m.online {
        return false;
    }
    let mut i: usize = 0;
    while i < m.prefixes.len()
        invariant
            i <= m.prefixes@.len(),
            m.online,
            forall|k: int| 0 <= k < i ==> !is_default(#[trigger] m.prefixes@[k], v6),
        decreases m.prefixes.len() - i,
    {
        if m.prefixes[i].prefix_len == 0 && m.prefixes[i].addr.is_ipv4() != v6 {
            assert(is_default(m@.prefixes[i as int], v6));
            return true;
        }
        i = i + 1;
    }
    false
}

/// What a name says, if there is one.
pub open spec fn opt_str(o: Option<&str>) -> Option<Seq<char>> {
    match o {
        Some(s) => Some(s@),
        None => None,
    }
}

/// The exit that traffic which is not otherwise routed is sealed to, for one
/// address family. Nothing means that there is none, and that the family has
/// to be left alone.
///
/// A named exit is a preference: another one is used while it is not usable.
/// Nothing is remembered, so the preference returns by itself. Without one,
/// the relay that holds our session is preferred, because it costs no hop.
pub fn exit_gateway(
    view: &Snapshot,
    via: Option<&str>,
    attached: Option<NodeId>,
    v6: bool,
) -> (r: Option<NodeId>)
    ensures
        r == chosen_exit(peer_views(view.members@), opt_str(via), attached, v6),
{
    let ghost s = peer_views(view.members@);
    let mut by_name: Option<NodeId> = None;
    let mut lowest: Option<NodeId> = None;
    let mut attached_ok = false;
    let mut i: usize = 0;
    assert(s.take(0) =~= Seq::empty());
    while i < view.members.len()
        invariant
            i <= view.members@.len(),
            s == peer_views(view.members@),
            s.len() == view.members@.len(),
            lowest == lowest_exit(s.take(i as int), v6),
            attached_ok <==> attached is Some && usable_exit(s.take(i as int), attached->0, v6),
            by_name == (match opt_str(via) {
                Some(name) => named_exit(s.take(i as int), name, v6),
                None => None,
            }),
        decreases view.members.len() - i,
    {
        let ghost t = s.take(i + 1);
        let ghost d = s.take(i as int);
        assert(t.drop_last() =~= d);
        assert(t.last() == view.members@[i as int]@);
        let m = &view.members[i];
        let exit = check_exit(m, v6);
        proof {
            if let Some(id) = attached {
                if usable_exit(d, id, v6) {
                    let k = choose|k: int|
                        0 <= k < d.len() && (#[trigger] d[k]).node_id == id && is_exit(d[k], v6);
                    assert(t[k] == d[k]);
                }
                if exit && m.node_id == id {
                    assert(t[i as int].node_id == id && is_exit(t[i as int], v6));
                }
                if usable_exit(t, id, v6) {
                    let k = choose|k: int|
                        0 <= k < t.len() && (#[trigger] t[k]).node_id == id && is_exit(t[k], v6);
                    if k < i {
                        assert(d[k] == t[k]);
                    }
                }
            }
        }
        if exit {
            if let Some(id) = attached {
                if m.node_id == id {
                    attached_ok = true;
                }
            }
            if by_name.is_none() {
                if let Some(name) = via {
                    if str_eq(m.name.as_str(), name) {
                        by_name = Some(m.node_id);
                    }
                }
            }
            lowest = match lowest {
                Some(id) if id <= m.node_id => Some(id),
                _ => Some(m.node_id),
            };
        }
        i = i + 1;
    }
    assert(s.take(i as int) =~= s);
    if by_name.is_some() {
        return by_name;
    }
    if attached_ok {
        return attached;
    }
    lowest
}

/// What [`lowest_exit`] gives is an exit, and it gives one if there is one.
proof fn lemma_lowest_exit(members: Seq<PeerView>, v6: bool)
    ensures
        match lowest_exit(members, v6) {
            Some(id) => usable_exit(members, id, v6) && forall|i: int|
                0 <= i < members.len() && is_exit(#[trigger] members[i], v6) ==> id
                    <= members[i].node_id,
            None => forall|i: int| 0 <= i < members.len() ==> !is_exit(#[trigger] members[i], v6),
        },
    decreases members.len(),
{
    if members.len() > 0 {
        let d = members.drop_last();
        lemma_lowest_exit(d, v6);
        let n = members.len() - 1;
        assert(members[n] == members.last());
        if let Some(id) = lowest_exit(d, v6) {
            let k = choose|k: int|
                0 <= k < d.len() && (#[trigger] d[k]).node_id == id && is_exit(d[k], v6);
            assert(members[k] == d[k]);
        }
        assert forall|i: int| 0 <= i < n implies members[i] == #[trigger] d[i] by {}
        if let Some(id) = lowest_exit(members, v6) {
            assert forall|i: int| 0 <= i < members.len() && is_exit(
                #[trigger] members[i],
                v6,
            ) implies id <= members[i].node_id by {
                if i < n {
                    assert(d[i] == members[i]);
                }
            }
        } else {
            assert forall|i: int| 0 <= i < members.len() implies !is_exit(
                #[trigger] members[i],
                v6,
            ) by {
                if i < n {
                    assert(d[i] == members[i]);
                }
            }
        }
    }
}

proof fn lemma_named_exit(members: Seq<PeerView>, name: Seq<char>, v6: bool)
    ensures
        named_exit(members, name, v6) matches Some(id) ==> usable_exit(members, id, v6),
    decreases members.len(),
{
    if members.len() > 0 {
        let d = members.drop_last();
        lemma_named_exit(d, name, v6);
        if let Some(id) = named_exit(d, name, v6) {
            let k = choose|k: int|
                0 <= k < d.len() && (#[trigger] d[k]).node_id == id && is_exit(d[k], v6);
            assert(members[k] == d[k]);
        } else {
            assert(members[members.len() - 1] == members.last());
        }
    }
}

/// Whatever is preferred, traffic is only ever sealed to a member that is
/// online and owns the default, and there is an exit whenever one member is
/// such.
pub proof fn law_an_exit_is_chosen_exactly_when_there_is_one(
    members: Seq<PeerView>,
    via: Option<Seq<char>>,
    attached: Option<NodeId>,
    v6: bool,
)
    ensures
        match chosen_exit(members, via, attached, v6) {
            Some(id) => usable_exit(members, id, v6),
            None => forall|i: int| 0 <= i < members.len() ==> !is_exit(#[trigger] members[i], v6),
        },
{
    lemma_lowest_exit(members, v6);
    if let Some(name) = via {
        lemma_named_exit(members, name, v6);
    }
}

/// The decision for both families at once: which catch-all halves go into
/// the routing table, and which exit each family's traffic is sealed to.
#[derive(Debug)]
pub struct RouteAllPlan {
    pub nets: Vec<IpNet>,
    /// Whether the family is IPv6, and its exit.
    pub exits: Vec<(bool, NodeId)>,
}

/// Every host of the family is pinned.
pub open spec fn transport_safe(to_pin: Seq<IpAddr>, pinned: Seq<IpAddr>, v6: bool) -> bool {
    forall|i: int|
        0 <= i < to_pin.len() && (#[trigger] to_pin[i]).v4() != v6 ==> pinned.contains(to_pin[i])
}

/// The exit of a family that is armed: its transport is pinned, so that the
/// tunnel's own path is safe, and there is an exit, so that nothing is lost.
pub open spec fn armed(
    members: Seq<PeerView>,
    via: Option<Seq<char>>,
    attached: Option<NodeId>,
    to_pin: Seq<IpAddr>,
    pinned: Seq<IpAddr>,
    v6: bool,
) -> Option<NodeId> {
    if transport_safe(to_pin, pinned, v6) {
        chosen_exit(members, via, attached, v6)
    } else {
        None
    }
}

fn check_pinned(to_pin: &Vec<IpAddr>, pinned: &Vec<IpAddr>, v6: bool) -> (r: bool)
    ensures
        r == transport_safe(to_pin@, pinned@, v6),
{
    let mut i: usize = 0;
    while i < to_pin.len()
        invariant
            i <= to_pin@.len(),
            forall|k: int|
                0 <= k < i && (#[trigger] to_pin@[k]).v4() != v6 ==> pinned@.contains(to_pin@[k]),
        decreases to_pin.len() - i,
    {
        if to_pin[i].is_ipv4() != v6 && !has_item(pinned, &to_pin[i]) {
            assert(to_pin@[i as int].v4() != v6);
            return false;
        }
        i = i + 1;
    }
    true
}

/// The catch-all routes and exits of both families.
pub fn route_all_plan(
    view: &Snapshot,
    via: Option<&str>,
    attached: Option<NodeId>,
    to_pin: &Vec<IpAddr>,
    pinned: &Vec<IpAddr>,
) -> (r: RouteAllPlan)
    ensures
        ({
            let m = peer_views(view.members@);
            let a = armed(m, opt_str(via), attached, to_pin@, pinned@, false);
            let b = armed(m, opt_str(via), attached, to_pin@, pinned@, true);
            &&& r.nets@ == (if a is Some {
                halves(false)
            } else {
                Seq::empty()
            }) + (if b is Some {
                halves(true)
            } else {
                Seq::empty()
            })
            &&& r.exits@ == (if a is Some {
                seq![(false, a->0)]
            } else {
                Seq::empty()
            }) + (if b is Some {
                seq![(true, b->0)]
            } else {
                Seq::empty()
            })
        }),
{
    let mut nets: Vec<IpNet> = Vec::new();
    let mut exits: Vec<(bool, NodeId)> = Vec::new();
    if check_pinned(to_pin, pinned, false) {
        if let Some(node) = exit_gateway(view, via, attached, false) {
            let h = catch_all_halves(false);
            nets.push(h[0]);
            nets.push(h[1]);
            exits.push((false, node));
        }
    }
    if check_pinned(to_pin, pinned, true) {
        if let Some(node) = exit_gateway(view, via, attached, true) {
            let h = catch_all_halves(true);
            nets.push(h[0]);
            nets.push(h[1]);
            exits.push((true, node));
        }
    }
    RouteAllPlan { nets, exits }
}

/// A family is armed only when every transport host of it is pinned and its
/// exit is a member that is online and owns the default: never so that the
/// tunnel cuts off its own transport, or swallows traffic.
pub proof fn law_a_family_is_armed_only_when_it_is_safe(
    members: Seq<PeerView>,
    via: Option<Seq<char>>,
    attached: Option<NodeId>,
    to_pin: Seq<IpAddr>,
    pinned: Seq<IpAddr>,
    v6: bool,
)
    ensures
        armed(members, via, attached, to_pin, pinned, v6) matches Some(id) ==> transport_safe(
            to_pin,
            pinned,
            v6,
        ) && usable_exit(members, id, v6),
{
    law_an_exit_is_chosen_exactly_when_there_is_one(members, via, attached, v6);
}

/// The prefixes without their host bits.
pub open spec fn truncs(s: Seq<IpNet>) -> Seq<IpNet> {
    s.map_values(|n: IpNet| n.truncated())
}

/// Some prefix of the list holds `n`.
pub open spec fn held(s: Seq<IpNet>, n: IpNet) -> bool {
    exists|i: int| 0 <= i < s.len() && (#[trigger] s[i]).covers(n)
}

/// A prefix of the list that is not a default route holds `n`.
pub open spec fn own_space(mine: Seq<IpNet>, n: IpNet) -> bool {
    exists|i: int|
        0 <= i < mine.len() && (#[trigger] mine[i]).prefix_len > 0 && mine[i].covers(n)
}

/// `set` with the prefixes that no cover holds.
pub open spec fn with_uncovered(
    set: Seq<IpNet>,
    covers: Seq<IpNet>,
    prefixes: Seq<IpNet>,
) -> Seq<IpNet>
    decreases prefixes.len(),
{
    if prefixes.len() == 0 {
        set
    } else {
        let p = with_uncovered(set, covers, prefixes.drop_last());
        let n = prefixes.last().truncated();
        if held(covers, n) {
            p
        } else {
            with_item(p, n)
        }
    }
}

/// `set` with what the members but this one have outside the covers.
pub open spec fn with_members(
    set: Seq<IpNet>,
    covers: Seq<IpNet>,
    members: Seq<PeerView>,
    me: NodeId,
) -> Seq<IpNet>
    decreases members.len(),
{
    if members.len() == 0 {
        set
    } else {
        let p = with_members(set, covers, members.drop_last(), me);
        if members.last().node_id == me {
            p
        } else {
            with_uncovered(p, covers, members.last().prefixes)
        }
    }
}

/// The prefixes that are not in this node's own space.
pub open spec fn foreign(s: Seq<IpNet>, mine: Seq<IpNet>) -> Seq<IpNet>
    decreases s.len(),
{
    if s.len() == 0 {
        s
    } else if own_space(mine, s.last()) {
        foreign(s.drop_last(), mine)
    } else {
        foreign(s.drop_last(), mine).push(s.last())
    }
}

/// The routes that the view calls for.
pub open spec fn wanted(
    reserved: Seq<IpNet>,
    members: Seq<PeerView>,
    me: NodeId,
    mine: Seq<IpNet>,
) -> Seq<IpNet> {
    let covers = gathered(truncs(reserved));
    foreign(with_members(covers, covers, members, me), mine)
}

fn check_held(s: &Vec<IpNet>, n: &IpNet) -> (r: bool)
    requires
        all_valid(s@),
        n.valid(),
    ensures
        r == held(s@, *n),
{
    let mut i: usize = 0;
    while i < s.len()
        invariant
            i <= s@.len(),
            all_valid(s@),
            n.valid(),
            forall|k: int| 0 <= k < i ==> !(#[trigger] s@[k]).covers(*n),
        decreases s.len() - i,
    {
        if s[i].contains(n) {
            return true;
        }
        i = i + 1;
    }
    false
}

fn check_own(mine: &Vec<IpNet>, n: &IpNet) -> (r: bool)
    requires
        all_valid(mine@),
        n.valid(),
    ensures
        r == own_space(mine@, *n),
{
    let mut i: usize = 0;
    while i < mine.len()
        invariant
            i <= mine@.len(),
            all_valid(mine@),
            n.valid(),
            forall|k: int|
                0 <= k < i ==> !((#[trigger] mine@[k]).prefix_len > 0 && mine@[k].covers(*n)),
        decreases mine.len() - i,
    {
        if mine[i].prefix_len > 0 && mine[i].contains(n) {
            return true;
        }
        i = i + 1;
    }
    false
}

/// The prefixes of a list without their host bits.
pub fn truncate_all(v: &Vec<IpNet>) -> (r: Vec<IpNet>)
    requires
        all_valid(v@),
    ensures
        r@ == truncs(v@),
        all_valid(r@),
{
    let mut out: Vec<IpNet> = Vec::new();
    let mut i: usize = 0;
    while i < v.len()
        invariant
            i <= v@.len(),
            all_valid(v@),
            out@.len() == i,
            forall|k: int|
                0 <= k < i ==> #[trigger] out@[k] == v@[k].truncated() && out@[k].valid(),
        decreases v.len() - i,
    {
        out.push(v[i].trunc());
        i = i + 1;
    }
    assert(out@ =~= truncs(v@));
    out
}

/// Every prefix of a gathered list of valid ones is valid.
pub proof fn lemma_gathered_valid(s: Seq<IpNet>)
    requires
        all_valid(s),
    ensures
        all_valid(gathered(s)),
{
    lemma_gathered(s);
    let g = gathered(s);
    assert forall|i: int| 0 <= i < g.len() implies (#[trigger] g[i]).valid() by {
        assert(g.contains(g[i]));
        let k = choose|k: int| 0 <= k < s.len() && s[k] == g[i];
        assert(s[k].valid());
    }
}

/// Putting a valid prefix into a set of valid ones keeps them valid.
pub proof fn lemma_with_valid(s: Seq<IpNet>, n: IpNet)
    requires
        all_valid(s),
        n.valid(),
    ensures
        all_valid(with_item(s, n)),
    decreases s.len(),
{
    let t = with_item(s, n);
    if s.len() == 0 || s.last().before(n) {
        assert forall|i: int| 0 <= i < t.len() implies (#[trigger] t[i]).valid() by {
            if i < s.len() {
                assert(t[i] == s[i]);
            }
        }
    } else if s.last() != n {
        let d = s.drop_last();
        assert forall|i: int| 0 <= i < d.len() implies (#[trigger] d[i]).valid() by {
            assert(d[i] == s[i]);
        }
        lemma_with_valid(d, n);
        let u = with_item(d, n);
        assert forall|i: int| 0 <= i < t.len() implies (#[trigger] t[i]).valid() by {
            if i < u.len() {
                assert(t[i] == u[i]);
            } else {
                assert(t[i] == s[s.len() - 1]);
            }
        }
    }
}

fn add_uncovered(set: &mut Vec<IpNet>, covers: &Vec<IpNet>, prefixes: &Vec<IpNet>)
    requires
        all_valid(old(set)@),
        all_valid(covers@),
        all_valid(prefixes@),
    ensures
        all_valid(final(set)@),
        final(set)@ == with_uncovered(old(set)@, covers@, prefixes@),
{
    let mut i: usize = 0;
    assert(prefixes@.take(0) =~= Seq::empty());
    while i < prefixes.len()
        invariant
            i <= prefixes@.len(),
            all_valid(set@),
            all_valid(covers@),
            all_valid(prefixes@),
            set@ == with_uncovered(old(set)@, covers@, prefixes@.take(i as int)),
        decreases prefixes.len() - i,
    {
        assert(prefixes@.take(i + 1).drop_last() =~= prefixes@.take(i as int));
        let n = prefixes[i].trunc();
        if !check_held(covers, &n) {
            proof {
                lemma_with_valid(set@, n);
            }
            put_item(set, n);
        }
        i = i + 1;
    }
    assert(prefixes@.take(i as int) =~= prefixes@);
}

/// Every prefix of a view is a valid one.
pub open spec fn view_valid(view: Snapshot) -> bool {
    &&& all_valid(view.reserved_prefixes@)
    &&& forall|i: int|
        0 <= i < view.members@.len() ==> all_valid((#[trigger] view.members@[i]).prefixes@)
}

/// The routes that the view says this node should have, before anything that
/// the host routes itself is left out.
///
/// Member addresses are inside the reserved prefixes, so the table needs only
/// those. Nothing of our own is routed into the tunnel; a default route that
/// we front is the space behind us and not ours, so it leaves nothing out.
pub fn wanted_routes(view: &Snapshot, my_node_id: NodeId, mine: &Vec<IpNet>) -> (r: Vec<IpNet>)
    requires
        view_valid(*view),
        all_valid(mine@),
    ensures
        r@ == wanted(view.reserved_prefixes@, peer_views(view.members@), my_node_id, mine@),
        all_valid(r@),
{
    let cut = truncate_all(&view.reserved_prefixes);
    let covers = gather(&cut);
    proof {
        lemma_gathered_valid(cut@);
    }
    let ghost s = peer_views(view.members@);
    let mut set = crate::proto::copy_nets(&covers);
    let mut i: usize = 0;
    assert(s.take(0) =~= Seq::empty());
    while i < view.members.len()
        invariant
            i <= view.members@.len(),
            view_valid(*view),
            s == peer_views(view.members@),
            s.len() == view.members@.len(),
            all_valid(covers@),
            all_valid(set@),
            set@ == with_members(covers@, covers@, s.take(i as int), my_node_id),
        decreases view.members.len() - i,
    {
        assert(s.take(i + 1).drop_last() =~= s.take(i as int));
        assert(s.take(i + 1).last() == view.members@[i as int]@);
        if view.members[i].node_id != my_node_id {
            add_uncovered(&mut set, &covers, &view.members[i].prefixes);
        }
        i = i + 1;
    }
    assert(s.take(i as int) =~= s);
    let mut out: Vec<IpNet> = Vec::new();
    let mut k: usize = 0;
    assert(set@.take(0) =~= Seq::empty());
    while k < set.len()
        invariant
            k <= set@.len(),
            all_valid(set@),
            all_valid(mine@),
            all_valid(out@),
            out@ == foreign(set@.take(k as int), mine@),
        decreases set.len() - k,
    {
        assert(set@.take(k + 1).drop_last() =~= set@.take(k as int));
        let n = set[k];
        if !check_own(mine, &n) {
            out.push(n);
        }
        k = k + 1;
    }
    assert(set@.take(k as int) =~= set@);
    out
}

proof fn lemma_foreign(s: Seq<IpNet>, mine: Seq<IpNet>, n: IpNet)
    ensures
        foreign(s, mine).contains(n) <==> s.contains(n) && !own_space(mine, n),
    decreases s.len(),
{
    if s.len() > 0 {
        let d = s.drop_last();
        let t = foreign(d, mine);
        let u = foreign(s, mine);
        lemma_foreign(d, mine, n);
        if s.contains(n) && !own_space(mine, n) {
            let i = choose|i: int| 0 <= i < s.len() && s[i] == n;
            if i < d.len() {
                assert(d[i] == n);
                let k = choose|k: int| 0 <= k < t.len() && t[k] == n;
                assert(u[k] == n);
            } else {
                assert(u[t.len() as int] == n);
            }
        }
        if u.contains(n) {
            let k = choose|k: int| 0 <= k < u.len() && u[k] == n;
            if k < t.len() {
                assert(t[k] == n);
                let i = choose|i: int| 0 <= i < d.len() && d[i] == n;
                assert(s[i] == n);
            } else {
                assert(s[s.len() - 1] == n);
            }
        }
    }
}

proof fn lemma_with_uncovered(set: Seq<IpNet>, covers: Seq<IpNet>, prefixes: Seq<IpNet>)
    requires
        ascending(set),
    ensures
        ascending(with_uncovered(set, covers, prefixes)),
        forall|n: IpNet| #[trigger] set.contains(n) ==> with_uncovered(
            set,
            covers,
            prefixes,
        ).contains(n),
        forall|n: IpNet| #[trigger]
            with_uncovered(set, covers, prefixes).contains(n) ==> set.contains(n) || !held(
                covers,
                n,
            ),
    decreases prefixes.len(),
{
    if prefixes.len() > 0 {
        let d = prefixes.drop_last();
        lemma_with_uncovered(set, covers, d);
        lemma_with_item(with_uncovered(set, covers, d), prefixes.last().truncated());
    }
}

proof fn lemma_with_members(
    set: Seq<IpNet>,
    covers: Seq<IpNet>,
    members: Seq<PeerView>,
    me: NodeId,
)
    requires
        ascending(set),
    ensures
        ascending(with_members(set, covers, members, me)),
        forall|n: IpNet| #[trigger] set.contains(n) ==> with_members(
            set,
            covers,
            members,
            me,
        ).contains(n),
        forall|n: IpNet| #[trigger]
            with_members(set, covers, members, me).contains(n) ==> set.contains(n) || !held(
                covers,
                n,
            ),
    decreases members.len(),
{
    if members.len() > 0 {
        let d = members.drop_last();
        lemma_with_members(set, covers, d, me);
        let p = with_members(set, covers, d, me);
        lemma_with_uncovered(p, covers, members.last().prefixes);
        let q = with_members(set, covers, members, me);
        assert forall|n: IpNet| #[trigger] set.contains(n) implies q.contains(n) by {
            assert(p.contains(n));
        }
        assert forall|n: IpNet| #[trigger] q.contains(n) implies set.contains(n) || !held(
            covers,
            n,
        ) by {
            if p.contains(n) {
            }
        }
    }
}

/// A reserved prefix stays routed into the tunnel whether or not anyone owns
/// it now, unless it is this node's own space.
pub proof fn law_reserved_prefixes_never_leak(
    reserved: Seq<IpNet>,
    members: Seq<PeerView>,
    me: NodeId,
    mine: Seq<IpNet>,
    i: int,
)
    requires
        0 <= i < reserved.len(),
    ensures
        wanted(reserved, members, me, mine).contains(reserved[i].truncated()) <==> !own_space(
            mine,
            reserved[i].truncated(),
        ),
{
    let t = truncs(reserved);
    let covers = gathered(t);
    let n = reserved[i].truncated();
    lemma_gathered(t);
    assert(t[i] == n);
    assert(t.contains(n));
    assert(covers.contains(n));
    lemma_with_members(covers, covers, members, me);
    lemma_foreign(with_members(covers, covers, members, me), mine, n);
}

/// Nothing of this node's own space is routed into the tunnel; and beyond
/// the reserved prefixes, only what none of them holds.
pub proof fn law_wanted_routes_are_foreign_and_not_redundant(
    reserved: Seq<IpNet>,
    members: Seq<PeerView>,
    me: NodeId,
    mine: Seq<IpNet>,
    n: IpNet,
)
    requires
        wanted(reserved, members, me, mine).contains(n),
    ensures
        !own_space(mine, n),
        truncs(reserved).contains(n) || !held(gathered(truncs(reserved)), n),
{
    let covers = gathered(truncs(reserved));
    lemma_gathered(truncs(reserved));
    lemma_with_members(covers, covers, members, me);
    lemma_foreign(with_members(covers, covers, members, me), mine, n);
}

/// Default routes that a node fronts leave none of the wanted routes out.
pub proof fn law_fronting_a_default_leaves_nothing_out(mine: Seq<IpNet>, n: IpNet)
    requires
        forall|i: int| 0 <= i < mine.len() ==> (#[trigger] mine[i]).prefix_len == 0,
    ensures
        !own_space(mine, n),
{
}

/// The first local prefix that holds `w`.
pub open spec fn local_holder(local: Seq<IpNet>, w: IpNet) -> Option<IpNet>
    decreases local.len(),
{
    if local.len() == 0 {
        None
    } else if local[0].covers(w) {
        Some(local[0])
    } else {
        local_holder(local.drop_first(), w)
    }
}

/// A connected route that is more specific than `w` carries the address.
pub open spec fn shielded(local: Seq<IpNet>, u: IpAddr, w: IpNet) -> bool {
    exists|i: int|
        0 <= i < local.len() && (#[trigger] local[i]).has(u) && local[i].prefix_len > w.prefix_len
}

/// The first underlay address that a route to `w` would capture.
pub open spec fn captured(local: Seq<IpNet>, underlay: Seq<IpAddr>, w: IpNet) -> Option<IpAddr>
    decreases underlay.len(),
{
    if underlay.len() == 0 {
        None
    } else if w.has(underlay[0]) && !shielded(local, underlay[0], w) {
        Some(underlay[0])
    } else {
        captured(local, underlay.drop_first(), w)
    }
}

/// Why a wanted prefix must not be installed, if it must not.
pub open spec fn exclusion(w: IpNet, local: Seq<IpNet>, underlay: Seq<IpAddr>) -> Option<
    Seq<char>,
> {
    match local_holder(local, w) {
        Some(l) => Some(said(seq!["inside local interface prefix "@, l.text()])),
        None => match captured(local, underlay, w) {
            Some(u) => Some(said(seq!["would capture underlay address "@, u.text()])),
            None => None,
        },
    }
}

fn check_shielded(local: &Vec<IpNet>, u: &IpAddr, w: &IpNet) -> (r: bool)
    requires
        all_valid(local@),
    ensures
        r == shielded(local@, *u, *w),
{
    let mut i: usize = 0;
    while i < local.len()
        invariant
            i <= local@.len(),
            all_valid(local@),
            forall|k: int|
                0 <= k < i ==> !((#[trigger] local@[k]).has(*u) && local@[k].prefix_len
                    > w.prefix_len),
        decreases local.len() - i,
    {
        if local[i].contains_addr(u) && local[i].prefix_len > w.prefix_len {
            return true;
        }
        i = i + 1;
    }
    false
}

/// Why a wanted prefix must not be installed, if it must not: it is a
/// connected network or a slice of one, or it would capture an underlay
/// address that no more specific connected route protects.
pub fn exclusion_reason(w: &IpNet, local: &Vec<IpNet>, underlay: &Vec<IpAddr>) -> (r: Option<
    String,
>)
    requires
        w.valid(),
        all_valid(local@),
    ensures
        opt_text(r) == exclusion(*w, local@, underlay@),
{
    let mut i: usize = 0;
    assert(local@.skip(0) =~= local@);
    while i < local.len()
        invariant
            i <= local@.len(),
            w.valid(),
            all_valid(local@),
            local_holder(local@, *w) == local_holder(local@.skip(i as int), *w),
        decreases local.len() - i,
    {
        assert(local@.skip(i as int).drop_first() =~= local@.skip(i + 1));
        if local[i].contains(w) {
            let t = local[i].to_text();
            let parts = vec!["inside local interface prefix ", t.as_str()];
            assert(texts(parts@) =~= seq![
                "inside local interface prefix "@,
                local@[i as int].text(),
            ]);
            return Some(say(&parts));
        }
        i = i + 1;
    }
    let mut k: usize = 0;
    assert(underlay@.skip(0) =~= underlay@);
    while k < underlay.len()
        invariant
            k <= underlay@.len(),
            w.valid(),
            all_valid(local@),
            local_holder(local@, *w) is None,
            captured(local@, underlay@, *w) == captured(local@, underlay@.skip(k as int), *w),
        decreases underlay.len() - k,
    {
        assert(underlay@.skip(k as int).drop_first() =~= underlay@.skip(k + 1));
        let u = underlay[k];
        if w.contains_addr(&u) && !check_shielded(local, &u, w) {
            let t = u.to_text();
            let parts = vec!["would capture underlay address ", t.as_str()];
            assert(texts(parts@) =~= seq!["would capture underlay address "@, u.text()]);
            return Some(say(&parts));
        }
        k = k + 1;
    }
    None
}

/// The routes that can be installed.
pub open spec fn installable(
    wanted: Seq<IpNet>,
    local: Seq<IpNet>,
    underlay: Seq<IpAddr>,
) -> Seq<IpNet>
    decreases wanted.len(),
{
    if wanted.len() == 0 {
        wanted
    } else {
        let p = installable(wanted.drop_last(), local, underlay);
        if exclusion(wanted.last(), local, underlay) is Some {
            p
        } else {
            p.push(wanted.last())
        }
    }
}

/// The routes that cannot be installed, each with why.
pub open spec fn excluded(
    wanted: Seq<IpNet>,
    local: Seq<IpNet>,
    underlay: Seq<IpAddr>,
) -> Seq<(IpNet, Seq<char>)>
    decreases wanted.len(),
{
    if wanted.len() == 0 {
        Seq::empty()
    } else {
        let p = excluded(wanted.drop_last(), local, underlay);
        match exclusion(wanted.last(), local, underlay) {
            Some(why) => p.push((wanted.last(), why)),
            None => p,
        }
    }
}

/// The content of a list of excluded routes.
pub open spec fn reason_views(s: Seq<(IpNet, String)>) -> Seq<(IpNet, Seq<char>)> {
    s.map_values(|e: (IpNet, String)| (e.0, e.1@))
}

/// Split wanted routes into those that can be installed and those that
/// cannot, with why.
pub fn exclude_local(wanted: &Vec<IpNet>, local: &Vec<IpNet>, underlay: &Vec<IpAddr>) -> (r: (
    Vec<IpNet>,
    Vec<(IpNet, String)>,
))
    requires
        all_valid(wanted@),
        all_valid(local@),
    ensures
        r.0@ == installable(wanted@, local@, underlay@),
        reason_views(r.1@) == excluded(wanted@, local@, underlay@),
        all_valid(r.0@),
{
    let mut keep: Vec<IpNet> = Vec::new();
    let mut out: Vec<(IpNet, String)> = Vec::new();
    let mut i: usize = 0;
    assert(wanted@.take(0) =~= Seq::empty());
    assert(reason_views(out@) =~= Seq::empty());
    while i < wanted.len()
        invariant
            i <= wanted@.len(),
            all_valid(wanted@),
            all_valid(local@),
            all_valid(keep@),
            keep@ == installable(wanted@.take(i as int), local@, underlay@),
            reason_views(out@) == excluded(wanted@.take(i as int), local@, underlay@),
        decreases wanted.len() - i,
    {
        assert(wanted@.take(i + 1).drop_last() =~= wanted@.take(i as int));
        let w = wanted[i];
        let ghost was = reason_views(out@);
        match exclusion_reason(&w, local, underlay) {
            Some(why) => {
                let ghost v = why@;
                out.push((w, why));
                assert(reason_views(out@) =~= was.push((w, v)));
            },
            None => {
                keep.push(w);
            },
        }
        i = i + 1;
    }
    assert(wanted@.take(i as int) =~= wanted@);
    (keep, out)
}

proof fn lemma_captured(local: Seq<IpNet>, underlay: Seq<IpAddr>, w: IpNet, i: int)
    requires
        captured(local, underlay, w) is None,
        0 <= i < underlay.len(),
    ensures
        w.has(underlay[i]) ==> shielded(local, underlay[i], w),
    decreases i,
{
    if i > 0 {
        lemma_captured(local, underlay.drop_first(), w, i - 1);
    }
}

proof fn lemma_local_holder(local: Seq<IpNet>, w: IpNet, i: int)
    requires
        local_holder(local, w) is None,
        0 <= i < local.len(),
    ensures
        !local[i].covers(w),
    decreases i,
{
    if i > 0 {
        lemma_local_holder(local.drop_first(), w, i - 1);
    }
}

/// A route that is installed takes nothing from a connected network that the
/// kernel would prefer it to, and no underlay address that is not carried by
/// a more specific connected route.
pub proof fn law_an_installed_route_captures_nothing_local(
    wanted: Seq<IpNet>,
    local: Seq<IpNet>,
    underlay: Seq<IpAddr>,
    w: IpNet,
)
    requires
        installable(wanted, local, underlay).contains(w),
    ensures
        wanted.contains(w),
        forall|i: int| 0 <= i < local.len() ==> !(#[trigger] local[i]).covers(w),
        forall|i: int|
            0 <= i < underlay.len() && w.has(#[trigger] underlay[i]) ==> shielded(
                local,
                underlay[i],
                w,
            ),
    decreases wanted.len(),
{
    let d = wanted.drop_last();
    let p = installable(d, local, underlay);
    let k = choose|k: int|
        0 <= k < installable(wanted, local, underlay).len() && installable(wanted, local, underlay)[k]
            == w;
    if k < p.len() {
        assert(p[k] == w);
        law_an_installed_route_captures_nothing_local(d, local, underlay, w);
        let i = choose|i: int| 0 <= i < d.len() && d[i] == w;
        assert(wanted[i] == w);
    } else {
        assert(wanted[wanted.len() - 1] == w);
        assert forall|i: int| 0 <= i < local.len() implies !(#[trigger] local[i]).covers(w) by {
            lemma_local_holder(local, w, i);
        }
        assert forall|i: int|
            0 <= i < underlay.len() && w.has(#[trigger] underlay[i]) implies shielded(
            local,
            underlay[i],
            w,
        ) by {
            lemma_captured(local, underlay, w, i);
        }
    }
}

/// Traffic of the family can leave through the member: it is online, and one
/// of its prefixes is everything of that family.
pub open spec fn leads_out(m: PeerView, v6: bool) -> bool {
    m.online && exists|i: int|
        0 <= i < m.prefixes.len() && (#[trigger] m.prefixes[i]).prefix_len == 0 && (if v6 {
            m.prefixes[i].addr is V6
        } else {
            m.prefixes[i].addr is V4
        })
}

proof fn lemma_leads_out(m: PeerView, v6: bool)
    ensures
        is_exit(m, v6) <==> leads_out(m, v6),
{
    if is_exit(m, v6) {
        let i = choose|i: int| 0 <= i < m.prefixes.len() && is_default(#[trigger] m.prefixes[i], v6);
        assert(m.prefixes[i].prefix_len == 0);
    }
    if leads_out(m, v6) {
        let i = choose|i: int|
            0 <= i < m.prefixes.len() && (#[trigger] m.prefixes[i]).prefix_len == 0 && (if v6 {
                m.prefixes[i].addr is V6
            } else {
                m.prefixes[i].addr is V4
            });
        assert(is_default(m.prefixes[i], v6));
    }
}

/// The members before the `n`th of which none is an exit of this name.
pub open spec fn none_named(members: Seq<PeerView>, name: Seq<char>, v6: bool, n: int) -> bool {
    forall|j: int|
        0 <= j < n ==> !((#[trigger] members[j]).name == name && leads_out(members[j], v6))
}

proof fn lemma_first_named(members: Seq<PeerView>, name: Seq<char>, v6: bool, i: int)
    requires
        0 <= i <= members.len(),
        none_named(members, name, v6, i),
        i < members.len() ==> members[i].name == name && leads_out(members[i], v6),
    ensures
        named_exit(members, name, v6) == (if i < members.len() {
            Some(members[i].node_id)
        } else {
            None
        }),
    decreases members.len(),
{
    if members.len() > 0 {
        let d = members.drop_last();
        lemma_leads_out(members.last(), v6);
        assert(members[members.len() - 1] == members.last());
        assert(forall|j: int| 0 <= j < d.len() ==> #[trigger] d[j] == members[j]);
        if i < members.len() {
            lemma_first_named(d, name, v6, i);
        } else {
            lemma_first_named(d, name, v6, i - 1);
        }
    }
}

/// The exit of a family is the first member of the wanted name that traffic
/// can leave through. Where there is none, it is the relay that holds the
/// session, if traffic can leave through that; and where it cannot, the member
/// with the lowest id of those that it can leave through.
pub proof fn law_the_exit_is_the_named_the_attached_or_the_lowest(
    members: Seq<PeerView>,
    via: Option<Seq<char>>,
    attached: Option<NodeId>,
    v6: bool,
    i: int,
)
    requires
        0 <= i < members.len(),
        leads_out(members[i], v6),
    ensures
        none_named(members, members[i].name, v6, i) && via == Some(members[i].name) ==> chosen_exit(
            members,
            via,
            attached,
            v6,
        ) == Some(members[i].node_id),
        (via is None || none_named(members, via->0, v6, members.len() as int)) && attached == Some(
            members[i].node_id,
        ) ==> chosen_exit(members, via, attached, v6) == attached,
        (via is None || none_named(members, via->0, v6, members.len() as int)) && (attached is None
            || forall|j: int|
            0 <= j < members.len() && leads_out(#[trigger] members[j], v6) ==> Some(
                members[j].node_id,
            ) != attached) ==> (chosen_exit(members, via, attached, v6) matches Some(id) && id
            <= members[i].node_id && exists|j: int|
            0 <= j < members.len() && (#[trigger] members[j]).node_id == id && leads_out(
                members[j],
                v6,
            )),
{
    lemma_leads_out(members[i], v6);
    if via == Some(members[i].name) && none_named(members, members[i].name, v6, i) {
        lemma_first_named(members, members[i].name, v6, i);
    }
    if via is None || none_named(members, via->0, v6, members.len() as int) {
        if let Some(name) = via {
            lemma_first_named(members, name, v6, members.len() as int);
        }
        assert(usable_exit(members, members[i].node_id, v6));
        if attached is None || forall|j: int|
            0 <= j < members.len() && leads_out(#[trigger] members[j], v6) ==> Some(
                members[j].node_id,
            ) != attached {
            if let Some(id) = attached {
                if usable_exit(members, id, v6) {
                    let j = choose|j: int|
                        0 <= j < members.len() && (#[trigger] members[j]).node_id == id && is_exit(
                            members[j],
                            v6,
                        );
                    lemma_leads_out(members[j], v6);
                }
            }
            lemma_lowest_exit(members, v6);
            let id = lowest_exit(members, v6)->0;
            let j = choose|j: int|
                0 <= j < members.len() && (#[trigger] members[j]).node_id == id && is_exit(
                    members[j],
                    v6,
                );
            lemma_leads_out(members[j], v6);
        }
    }
}

/// A family whose every transport host is pinned is armed with the exit that
/// is chosen for it, and one of whose hosts some is not pinned is left alone.
pub proof fn law_a_safe_family_is_armed(
    members: Seq<PeerView>,
    via: Option<Seq<char>>,
    attached: Option<NodeId>,
    to_pin: Seq<IpAddr>,
    pinned: Seq<IpAddr>,
    v6: bool,
)
    ensures
        (forall|i: int|
            0 <= i < to_pin.len() && (if v6 {
                #[trigger] to_pin[i] is V6
            } else {
                to_pin[i] is V4
            }) ==> pinned.contains(to_pin[i])) ==> armed(
            members,
            via,
            attached,
            to_pin,
            pinned,
            v6,
        ) == chosen_exit(members, via, attached, v6),
        (exists|i: int|
            0 <= i < to_pin.len() && (if v6 {
                #[trigger] to_pin[i] is V6
            } else {
                to_pin[i] is V4
            }) && !pinned.contains(to_pin[i])) ==> armed(
            members,
            via,
            attached,
            to_pin,
            pinned,
            v6,
        ) is None,
{
}

proof fn lemma_uncovered_contains(
    set: Seq<IpNet>,
    covers: Seq<IpNet>,
    prefixes: Seq<IpNet>,
    n: IpNet,
)
    requires
        ascending(set),
    ensures
        with_uncovered(set, covers, prefixes).contains(n) <==> set.contains(n) || (!held(covers, n)
            && exists|j: int| 0 <= j < prefixes.len() && (#[trigger] prefixes[j]).truncated() == n),
    decreases prefixes.len(),
{
    if prefixes.len() > 0 {
        let d = prefixes.drop_last();
        lemma_uncovered_contains(set, covers, d, n);
        lemma_with_uncovered(set, covers, d);
        lemma_with_item(with_uncovered(set, covers, d), prefixes.last().truncated());
        assert(prefixes[prefixes.len() - 1] == prefixes.last());
        if exists|j: int| 0 <= j < prefixes.len() && (#[trigger] prefixes[j]).truncated() == n {
            let j = choose|j: int|
                0 <= j < prefixes.len() && (#[trigger] prefixes[j]).truncated() == n;
            if j < d.len() {
                assert(d[j] == prefixes[j]);
            }
        }
        if exists|j: int| 0 <= j < d.len() && (#[trigger] d[j]).truncated() == n {
            let j = choose|j: int| 0 <= j < d.len() && (#[trigger] d[j]).truncated() == n;
            assert(prefixes[j] == d[j]);
        }
    }
}

/// One of the member's prefixes is this one, but for its host bits.
pub open spec fn has_prefix(m: PeerView, n: IpNet) -> bool {
    exists|j: int| 0 <= j < m.prefixes.len() && (#[trigger] m.prefixes[j]).truncated() == n
}

proof fn lemma_members_contain(
    set: Seq<IpNet>,
    covers: Seq<IpNet>,
    members: Seq<PeerView>,
    me: NodeId,
    n: IpNet,
)
    requires
        ascending(set),
    ensures
        with_members(set, covers, members, me).contains(n) <==> set.contains(n) || (!held(covers, n)
            && exists|i: int|
            0 <= i < members.len() && (#[trigger] members[i]).node_id != me && has_prefix(
                members[i],
                n,
            )),
    decreases members.len(),
{
    if members.len() > 0 {
        let d = members.drop_last();
        lemma_members_contain(set, covers, d, me, n);
        lemma_with_members(set, covers, d, me);
        lemma_uncovered_contains(
            with_members(set, covers, d, me),
            covers,
            members.last().prefixes,
            n,
        );
        assert(members[members.len() - 1] == members.last());
        if exists|i: int|
            0 <= i < members.len() && (#[trigger] members[i]).node_id != me && has_prefix(
                members[i],
                n,
            ) {
            let i = choose|i: int|
                0 <= i < members.len() && (#[trigger] members[i]).node_id != me && has_prefix(
                    members[i],
                    n,
                );
            if i < d.len() {
                assert(d[i] == members[i]);
            }
        }
        if exists|i: int|
            0 <= i < d.len() && (#[trigger] d[i]).node_id != me && has_prefix(d[i], n) {
            let i = choose|i: int|
                0 <= i < d.len() && (#[trigger] d[i]).node_id != me && has_prefix(d[i], n);
            assert(members[i] == d[i]);
        }
    }
}

/// The routes that a view calls for are the reserved prefixes, and the
/// prefixes of the other members that no reserved one holds; all of them but
/// those inside this node's own space.
pub proof fn law_what_others_hold_is_routed(
    reserved: Seq<IpNet>,
    members: Seq<PeerView>,
    me: NodeId,
    mine: Seq<IpNet>,
    n: IpNet,
)
    ensures
        wanted(reserved, members, me, mine).contains(n) <==> {
            &&& forall|i: int|
                0 <= i < mine.len() && (#[trigger] mine[i]).prefix_len > 0 ==> !mine[i].covers(n)
            &&& {
                ||| exists|i: int|
                    0 <= i < reserved.len() && (#[trigger] reserved[i]).truncated() == n
                ||| (forall|i: int|
                    0 <= i < reserved.len() ==> !(#[trigger] reserved[i]).truncated().covers(n))
                    && exists|i: int|
                    0 <= i < members.len() && (#[trigger] members[i]).node_id != me && has_prefix(
                        members[i],
                        n,
                    )
            }
        },
{
    let t = truncs(reserved);
    let covers = gathered(t);
    lemma_gathered(t);
    lemma_members_contain(covers, covers, members, me, n);
    lemma_foreign(with_members(covers, covers, members, me), mine, n);
    assert(forall|i: int| 0 <= i < t.len() ==> #[trigger] t[i] == reserved[i].truncated());
    if covers.contains(n) {
        assert(t.contains(n));
        let i = choose|i: int| 0 <= i < t.len() && t[i] == n;
        assert(reserved[i].truncated() == n);
    }
    if exists|i: int| 0 <= i < reserved.len() && (#[trigger] reserved[i]).truncated() == n {
        let i = choose|i: int|
            0 <= i < reserved.len() && (#[trigger] reserved[i]).truncated() == n;
        assert(t[i] == n);
        assert(t.contains(n));
        assert(covers.contains(n));
    }
    if held(covers, n) {
        let k = choose|k: int| 0 <= k < covers.len() && (#[trigger] covers[k]).covers(n);
        assert(covers.contains(covers[k]));
        assert(t.contains(covers[k]));
        let i = choose|i: int| 0 <= i < t.len() && t[i] == covers[k];
        assert(reserved[i].truncated().covers(n));
    }
    if exists|i: int| 0 <= i < reserved.len() && (#[trigger] reserved[i]).truncated().covers(n) {
        let i = choose|i: int|
            0 <= i < reserved.len() && (#[trigger] reserved[i]).truncated().covers(n);
        assert(t[i] == reserved[i].truncated());
        assert(t.contains(t[i]));
        assert(covers.contains(t[i]));
        let k = choose|k: int| 0 <= k < covers.len() && covers[k] == t[i];
        assert(covers[k].covers(n));
    }
}

proof fn lemma_no_local_holder(local: Seq<IpNet>, w: IpNet)
    requires
        forall|i: int| 0 <= i < local.len() ==> !(#[trigger] local[i]).covers(w),
    ensures
        local_holder(local, w) is None,
    decreases local.len(),
{
    if local.len() > 0 {
        let d = local.drop_first();
        assert forall|i: int| 0 <= i < d.len() implies !(#[trigger] d[i]).covers(w) by {
            assert(d[i] == local[i + 1]);
        }
        assert(!local[0].covers(w));
        lemma_no_local_holder(d, w);
    }
}

/// The address is among those of the route and no connected network that is
/// longer than the route has it.
pub open spec fn taken_over(local: Seq<IpNet>, u: IpAddr, w: IpNet) -> bool {
    w.has(u) && forall|k: int|
        0 <= k < local.len() && (#[trigger] local[k]).prefix_len > w.prefix_len ==> !local[k].has(u)
}

proof fn lemma_none_captured(local: Seq<IpNet>, underlay: Seq<IpAddr>, w: IpNet)
    requires
        forall|i: int| 0 <= i < underlay.len() ==> !taken_over(local, #[trigger] underlay[i], w),
    ensures
        captured(local, underlay, w) is None,
    decreases underlay.len(),
{
    if underlay.len() > 0 {
        let d = underlay.drop_first();
        assert forall|i: int| 0 <= i < d.len() implies !taken_over(local, #[trigger] d[i], w) by {
            assert(d[i] == underlay[i + 1]);
        }
        assert(!taken_over(local, underlay[0], w));
        lemma_none_captured(local, d, w);
    }
}

/// A wanted route that takes nothing from a connected network, and no
/// underlay address that is not carried by a longer connected one, is
/// installed.
pub proof fn law_a_harmless_route_is_installed(
    wanted: Seq<IpNet>,
    local: Seq<IpNet>,
    underlay: Seq<IpAddr>,
    k: int,
)
    requires
        0 <= k < wanted.len(),
        forall|i: int| 0 <= i < local.len() ==> !(#[trigger] local[i]).covers(wanted[k]),
        forall|i: int|
            0 <= i < underlay.len() ==> !taken_over(local, #[trigger] underlay[i], wanted[k]),
    ensures
        installable(wanted, local, underlay).contains(wanted[k]),
    decreases wanted.len(),
{
    let w = wanted[k];
    let d = wanted.drop_last();
    let p = installable(d, local, underlay);
    let q = installable(wanted, local, underlay);
    if k == wanted.len() - 1 {
        lemma_no_local_holder(local, w);
        lemma_none_captured(local, underlay, w);
        assert(q[p.len() as int] == w);
    } else {
        assert(d[k] == w);
        law_a_harmless_route_is_installed(d, local, underlay, k);
        let x = choose|x: int| 0 <= x < p.len() && p[x] == w;
        assert(q[x] == w);
    }
}

/// A wanted route that is not installed is among those that are left out, and
/// is told why; one that is installed is not.
pub proof fn law_what_is_left_out_is_told_why(
    wanted: Seq<IpNet>,
    local: Seq<IpNet>,
    underlay: Seq<IpAddr>,
    k: int,
)
    requires
        0 <= k < wanted.len(),
        (exists|i: int| 0 <= i < local.len() && (#[trigger] local[i]).covers(wanted[k])) || (
        exists|i: int| 0 <= i < underlay.len() && taken_over(local, #[trigger] underlay[i], wanted[k])),
    ensures
        exists|x: int|
            0 <= x < excluded(wanted, local, underlay).len() && (#[trigger] excluded(
                wanted,
                local,
                underlay,
            )[x]).0 == wanted[k],
        !installable(wanted, local, underlay).contains(wanted[k]),
    decreases wanted.len(),
{
    let w = wanted[k];
    if installable(wanted, local, underlay).contains(w) {
        law_an_installed_route_captures_nothing_local(wanted, local, underlay, w);
        if exists|i: int| 0 <= i < underlay.len() && taken_over(local, #[trigger] underlay[i], w) {
            let i = choose|i: int|
                0 <= i < underlay.len() && taken_over(local, #[trigger] underlay[i], w);
            assert(w.has(underlay[i]));
            assert(shielded(local, underlay[i], w));
            let j = choose|j: int|
                0 <= j < local.len() && (#[trigger] local[j]).has(underlay[i])
                    && local[j].prefix_len > w.prefix_len;
            assert(local[j].prefix_len > w.prefix_len);
        }
    }
    let d = wanted.drop_last();
    let p = excluded(d, local, underlay);
    let q = excluded(wanted, local, underlay);
    if k < d.len() {
        assert(d[k] == w);
        law_what_is_left_out_is_told_why(d, local, underlay, k);
        let x = choose|x: int| 0 <= x < p.len() && (#[trigger] p[x]).0 == w;
        assert(q[x] == p[x]);
    } else {
        if exclusion(w, local, underlay) is None {
            let i = installable(d, local, underlay);
            assert(installable(wanted, local, underlay)[i.len() as int] == w);
        }
        assert(q[p.len() as int].0 == w);
    }
}

/// A resolver configuration is read line by line: what a line names comes
/// before what the lines behind it name.
pub proof fn law_resolvers_are_read_line_by_line(line: Seq<char>, rest: Seq<char>)
    requires
        forall|i: int| 0 <= i < line.len() ==> line[i] != '\n',
    ensures
        resolvers_of(line.push('\n') + rest) == (match line_resolver(line) {
            Some(ip) => seq![ip],
            None => Seq::empty(),
        }) + resolvers_of(rest),
        resolvers_of(line) == (match line_resolver(line) {
            Some(ip) => seq![ip],
            None => Seq::empty(),
        }),
{
    let text = line.push('\n') + rest;
    crate::text::law_the_first_separator_splits(text, '\n');
    crate::text::law_the_first_separator_splits(line, '\n');
    let n = line.len() as int;
    assert(text[n] == '\n');
    let (a, b) = split_first(text, '\n')->0;
    assert(text[a.len() as int] == '\n');
    assert(a.len() == n) by {
        if a.len() < n {
            assert(text[a.len() as int] == line[a.len() as int]);
        }
        if a.len() > n {
            assert(a[n] == text[n]);
        }
    }
    assert(a =~= line) by {
        assert forall|i: int| 0 <= i < n implies a[i] == line[i] by {
            assert(a[i] == text[i]);
        }
    }
    assert(b =~= rest) by {
        assert forall|i: int| 0 <= i < b.len() implies b[i] == rest[i] by {
            assert(b[i] == text[n + 1 + i]);
        }
    }
    if let Some((x, y)) = split_first(line, '\n') {
        assert(line[x.len() as int] == '\n');
    }
    match line_resolver(line) {
        Some(ip) => {},
        None => {
            assert(Seq::<IpAddr>::empty() + resolvers_of(rest) =~= resolvers_of(rest));
        },
    }
}

} // verus!
