use nqvpn::net::{IpAddr, IpNet};
use nqvpn::pins::{reconcile_pins, HostRouteTable, Pins};
use nqvpn::proto::{PeerInfo, Role, Snapshot};
use nqvpn::routes::{
    catch_all_halves, exclude_local, exit_gateway, route_all_plan, system_resolvers,
    underlay_to_pin, wanted_routes,
};
use nqvpn::routeset::{RecordingProgrammer, RouteProgrammer, RouteSet};

fn net(s: &str) -> IpNet {
    IpNet::parse(s).unwrap()
}

fn nets(v: &[&str]) -> Vec<IpNet> {
    v.iter().map(|s| net(s)).collect()
}

fn ip(s: &str) -> IpAddr {
    IpAddr::parse(s).unwrap()
}

fn ips(v: &[&str]) -> Vec<IpAddr> {
    v.iter().map(|s| ip(s)).collect()
}

fn member(id: u32, name: &str, role: Role, prefixes: &[&str]) -> PeerInfo {
    PeerInfo {
        node_id: id,
        name: name.to_string(),
        role,
        prefixes: nets(prefixes),
        pubkey: String::new(),
        online: true,
        login_gen: 0,
    }
}

fn view() -> Snapshot {
    Snapshot {
        gen: 1,
        members: vec![
            member(1, "me", Role::Client, &["10.99.1.1/32"]),
            member(2, "b", Role::Client, &["10.99.1.2/32"]),
            member(3, "gw", Role::Relay, &["10.99.0.1/32", "192.168.7.0/24"]),
        ],
        attachments: vec![],
        relays: vec![],
        mtu: 1350,
        reserved_prefixes: nets(&["10.99.0.0/16", "192.168.7.0/24", "192.168.9.0/24"]),
    }
}

fn node(s: &mut Snapshot, id: u32) -> &mut PeerInfo {
    s.members.iter_mut().find(|m| m.node_id == id).unwrap()
}

#[test]
fn route_all_pins_only_underlay_not_carried_by_a_local_route() {
    let underlay = ips(&["203.0.113.7", "192.168.1.9", "2001:db8::5"]);
    let local = nets(&["192.168.1.0/24", "10.0.0.5/32"]);
    let to_pin = underlay_to_pin(&underlay, &local);
    assert_eq!(
        to_pin,
        ips(&["203.0.113.7", "2001:db8::5"]),
        "LAN-local underlay is left to its connected route"
    );
}

#[test]
fn exit_gateway_requires_an_online_owner_of_the_default() {
    let mut s = view(); // node 3 = "gw", a relay; no default owner yet
    assert_eq!(exit_gateway(&s, None, None, false), None, "no default owner, no exit");
    // Make the relay front the v4 default: it becomes an internet exit.
    node(&mut s, 3).prefixes.push(net("0.0.0.0/0"));
    assert_eq!(exit_gateway(&s, None, None, false), Some(3));
    assert_eq!(exit_gateway(&s, None, None, true), None, "it owns no v6 default");
    // An offline owner is not a candidate.
    node(&mut s, 3).online = false;
    assert_eq!(exit_gateway(&s, None, None, false), None, "offline exits do not count");
}

#[test]
fn via_selects_the_named_exit_among_several_and_rejects_a_non_owner() {
    let mut s = view();
    // Two nodes own the v4 default (names: 2 = "b", 3 = "gw").
    for id in [2, 3] {
        node(&mut s, id).prefixes.push(net("0.0.0.0/0"));
    }
    assert_eq!(exit_gateway(&s, Some("gw"), None, false), Some(3), "the named exit wins over the lowest id");
    assert_eq!(exit_gateway(&s, None, None, false), Some(2), "no name: lowest id, deterministically");
    // --via is a preference: a name that is not a usable exit falls back
    // to one that is, rather than leaving the client with no internet.
    assert_eq!(exit_gateway(&s, Some("me"), None, false), Some(2), "a named non-owner falls back to a real exit");
    assert_eq!(exit_gateway(&s, Some("nope"), None, false), Some(2), "an unknown name falls back too");
}

#[test]
fn with_no_preference_our_own_relay_is_the_exit_because_it_costs_no_mesh_hop() {
    let mut s = view();
    for id in [2, 3] {
        node(&mut s, id).prefixes.push(net("0.0.0.0/0"));
    }
    assert_eq!(exit_gateway(&s, None, Some(3), false), Some(3), "our own relay, no hop");
    assert_eq!(exit_gateway(&s, None, None, false), Some(2), "unattached: lowest id, deterministic");
    // An attachment to a relay that is not an exit changes nothing.
    assert_eq!(exit_gateway(&s, None, Some(1), false), Some(2), "our relay is no exit: fall through");
    // A named preference still outranks our own relay.
    assert_eq!(exit_gateway(&s, Some("b"), Some(3), false), Some(2), "the operator's choice wins");
    // And our relay is only preferred while it really is a usable exit.
    node(&mut s, 3).online = false;
    assert_eq!(exit_gateway(&s, None, Some(3), false), Some(2), "offline: not an exit, hop or not");
}

#[test]
fn a_preferred_exit_is_fallen_back_from_and_returned_to_by_itself() {
    let mut s = view();
    for id in [2, 3] {
        node(&mut s, id).prefixes.push(net("0.0.0.0/0"));
    }
    assert_eq!(exit_gateway(&s, Some("gw"), None, false), Some(3), "preferred while it qualifies");

    // It goes offline (the coordinator stops vouching for it).
    node(&mut s, 3).online = false;
    assert_eq!(exit_gateway(&s, Some("gw"), None, false), Some(2), "falls back to the remaining exit");

    // Its default is withdrawn instead (an exit that stopped being ready).
    node(&mut s, 3).online = true;
    node(&mut s, 3).prefixes.retain(|p| p.prefix_len != 0);
    assert_eq!(exit_gateway(&s, Some("gw"), None, false), Some(2), "owning no default is not an exit either");

    // Back online and owning the default again: the preference returns on
    // its own, because the choice is recomputed, never remembered.
    node(&mut s, 3).prefixes.push(net("0.0.0.0/0"));
    assert_eq!(exit_gateway(&s, Some("gw"), None, false), Some(3), "preference restores itself");

    // With no exit at all the caller still gets None and withholds.
    for id in [2, 3] {
        node(&mut s, id).prefixes.retain(|p| p.prefix_len != 0);
    }
    assert_eq!(exit_gateway(&s, Some("gw"), None, false), None, "no exits: nothing to fall back to");
}

#[test]
fn route_all_plan_needs_both_a_pinned_transport_and_an_exit() {
    let mut s = view();
    node(&mut s, 3).prefixes.push(net("0.0.0.0/0"));
    let to_pin = ips(&["203.0.113.7"]);
    let none: Vec<IpAddr> = Vec::new();
    // Pinned transport + an exit -> the v4 halves and that exit.
    let p = route_all_plan(&s, Some("gw"), None, &to_pin, &to_pin);
    assert_eq!(p.nets, nets(&["0.0.0.0/1", "128.0.0.0/1"]));
    assert_eq!(p.exits, vec![(false, 3)]);
    // Transport not pinned -> nothing at all, even with an exit, so
    // route-all never severs the tunnel's own path.
    let p = route_all_plan(&s, Some("gw"), None, &to_pin, &none);
    assert!(p.nets.is_empty() && p.exits.is_empty());
    // The preferred node is not a usable exit -> fall back to one that is.
    let p = route_all_plan(&s, Some("nope"), None, &to_pin, &to_pin);
    assert_eq!(p.exits, vec![(false, 3)], "--via is a preference, not a pin");
    // Nothing owns a default anywhere -> withheld (no blackhole).
    let p = route_all_plan(&view(), Some("gw"), None, &to_pin, &to_pin);
    assert!(p.nets.is_empty() && p.exits.is_empty());
    // v4 has an exit, v6 does not: only v4 activates.
    let p = route_all_plan(&s, None, None, &to_pin, &to_pin);
    assert_eq!(p.exits, vec![(false, 3)], "the v6 family is left alone");
}

#[test]
fn wanted_is_a_function_of_the_view_minus_my_own_space() {
    let w = wanted_routes(&view(), 1, &nets(&["10.99.1.1/32"]));
    assert!(w.contains(&net("10.99.0.0/16")), "covering tunnel route");
    assert!(w.contains(&net("192.168.9.0/24")), "a reserved but unowned site stays blackholed into the tunnel");
    assert!(!w.contains(&net("10.99.1.2/32")), "the covering tunnel CIDR makes per-member OS routes redundant");
    assert!(!w.contains(&net("10.99.1.1/32")), "never my own host address");
    // A gateway never routes its own LAN into the tunnel, even when
    // another node currently owns it.
    let gw = wanted_routes(&view(), 9, &nets(&["10.99.0.4/32", "192.168.7.0/24"]));
    assert!(!gw.contains(&net("192.168.7.0/24")));
    assert!(gw.contains(&net("192.168.9.0/24")));
}

/// A routing table that records what was asked of it. `preexisting` are
/// host routes the machine already had, which we must never claim.
struct FakeTable {
    gw: Option<IpAddr>,
    preexisting: Vec<(IpAddr, IpAddr)>,
    added: Vec<(IpAddr, IpAddr)>,
    deleted: Vec<(IpAddr, IpAddr)>,
}

impl FakeTable {
    fn with_gateway(gw: &str) -> Self {
        FakeTable { gw: Some(ip(gw)), preexisting: vec![], added: vec![], deleted: vec![] }
    }
}

impl HostRouteTable for FakeTable {
    fn default_gateway(&mut self, _v6: bool) -> Option<IpAddr> {
        self.gw
    }
    fn add_host_route(&mut self, i: IpAddr, gw: IpAddr) -> Result<bool, String> {
        if self.preexisting.contains(&(i, gw)) {
            return Ok(false);
        }
        self.added.push((i, gw));
        Ok(true)
    }
    fn del_host_route(&mut self, i: IpAddr, gw: IpAddr) {
        self.deleted.push((i, gw));
    }
}

#[test]
fn a_pin_follows_the_default_gateway_when_the_network_moves() {
    let mut t = FakeTable::with_gateway("192.168.1.1");
    let mut pinned = Pins::new();
    let want = ips(&["3.1.237.225", "8.8.8.8"]);
    let ok = reconcile_pins(&mut t, &want, &mut pinned);
    assert_eq!(ok.len(), 2);
    assert_eq!(pinned.get(&ip("8.8.8.8")), Some(ip("192.168.1.1")));

    // Same want set, new gateway: every pin is re-pointed, not skipped.
    t.gw = Some(ip("10.0.0.1"));
    let ok = reconcile_pins(&mut t, &want, &mut pinned);
    assert_eq!(ok.len(), 2);
    for host in want.iter() {
        assert!(t.deleted.contains(&(*host, ip("192.168.1.1"))), "unpinned from the old gateway");
        assert!(t.added.contains(&(*host, ip("10.0.0.1"))), "re-pinned to the new gateway");
        assert_eq!(pinned.get(host), Some(ip("10.0.0.1")));
    }

    // Steady state: nothing is touched when the gateway is unchanged.
    let (a, d) = (t.added.len(), t.deleted.len());
    reconcile_pins(&mut t, &want, &mut pinned);
    assert_eq!((t.added.len(), t.deleted.len()), (a, d));
}

#[test]
fn tearing_down_never_deletes_a_host_route_we_did_not_create() {
    let mut t = FakeTable::with_gateway("192.168.1.1");
    t.preexisting.push((ip("3.1.237.225"), ip("192.168.1.1")));
    let mut pinned = Pins::new();
    let ok = reconcile_pins(&mut t, &ips(&["3.1.237.225", "8.8.8.8"]), &mut pinned);
    assert!(ok.contains(&ip("3.1.237.225")), "a route already in place still counts as reachable");
    assert!(pinned.get(&ip("3.1.237.225")).is_none(), "not ours: never recorded, so never torn down");
    assert_eq!(
        pinned.entries.iter().map(|e| e.0).collect::<Vec<_>>(),
        vec![ip("8.8.8.8")],
        "only what we created"
    );
}

#[test]
fn a_relay_that_leaves_the_fleet_loses_its_pin() {
    let mut t = FakeTable::with_gateway("192.168.1.1");
    let mut pinned = Pins::new();
    reconcile_pins(&mut t, &ips(&["3.1.237.225", "47.237.120.106"]), &mut pinned);
    // A new snapshot drops one relay and adds another.
    let ok = reconcile_pins(&mut t, &ips(&["3.1.237.225", "43.230.99.31"]), &mut pinned);
    assert!(
        t.deleted.contains(&(ip("47.237.120.106"), ip("192.168.1.1"))),
        "the departed relay is unpinned"
    );
    assert!(ok.contains(&ip("43.230.99.31")), "a relay added later is pinned on the reconcile its snapshot triggers");
    assert_eq!(pinned.entries.len(), 2);
}

#[test]
fn without_a_default_gateway_nothing_is_pinned_and_the_caller_arms_nothing() {
    let mut t = FakeTable::with_gateway("192.168.1.1");
    t.gw = None;
    let mut pinned = Pins::new();
    let ok = reconcile_pins(&mut t, &ips(&["3.1.237.225"]), &mut pinned);
    assert!(ok.is_empty() && pinned.entries.is_empty());
    let plan = route_all_plan(&view(), None, None, &ips(&["3.1.237.225"]), &ok);
    assert!(plan.nets.is_empty(), "an unpinned transport must never arm a catch-all");
}

#[test]
fn route_all_pins_off_lan_resolvers_so_dns_cannot_deadlock_the_tunnel() {
    let local = nets(&["172.20.54.0/24"]);
    let underlay = ips(&["3.1.237.225"]);
    let resolvers = ips(&["8.8.8.8", "1.1.1.1"]);
    let all: Vec<IpAddr> = underlay.iter().chain(resolvers.iter()).copied().collect();
    let pinned = underlay_to_pin(&all, &local);
    for r in resolvers {
        assert!(pinned.contains(&r), "a resolver must be pinned or DNS dies under route-all");
    }
    assert!(pinned.contains(&ip("3.1.237.225")), "the transport is still pinned");

    // A resolver on our own LAN is reached by its connected route and is
    // never pinned — same rule as a relay on the LAN.
    let pinned = underlay_to_pin(&ips(&["172.20.54.53"]), &local);
    assert!(pinned.is_empty(), "an on-LAN resolver needs no pin");
}

#[test]
fn an_internet_exit_owning_the_default_still_routes_every_member_into_the_tunnel() {
    let mine = nets(&["10.99.0.4/32", "0.0.0.0/0", "::/0"]);
    let w = wanted_routes(&view(), 9, &mine);
    for p in ["10.99.0.0/16", "192.168.7.0/24", "192.168.9.0/24"] {
        assert!(w.contains(&net(p)), "{p} must be routed into the tunnel on an internet exit");
    }
    assert!(
        !w.contains(&net("10.99.1.1/32")) && !w.contains(&net("10.99.1.2/32")),
        "member host routes are covered by tunnel CIDR"
    );
    assert!(!w.contains(&net("10.99.0.4/32")), "never my own host address");
    // A real LAN of ours is still excluded; the default just never is.
    let w = wanted_routes(&view(), 9, &nets(&["10.99.0.4/32", "192.168.7.0/24", "0.0.0.0/0"]));
    assert!(!w.contains(&net("192.168.7.0/24")));
    assert!(w.contains(&net("10.99.0.0/16")));
}

#[test]
fn a_prefix_that_is_my_own_lan_is_excluded() {
    // The colliding-LAN case: the client sits on 192.168.7.0/24 too.
    let local = nets(&["192.168.7.0/24", "172.16.5.0/24"]);
    let (keep, out) = exclude_local(
        &nets(&["192.168.7.0/24", "192.168.7.128/25", "10.99.1.2/32"]),
        &local,
        &ips(&[]),
    );
    assert_eq!(keep, vec![net("10.99.1.2/32")]);
    assert_eq!(out.len(), 2, "equal to, or a slice of, a connected network");
    assert!(out[0].1.contains("local interface"));
}

#[test]
fn a_wider_prefix_than_a_local_lan_is_allowed() {
    let (keep, out) = exclude_local(&nets(&["10.0.0.0/8"]), &nets(&["10.1.2.0/24"]), &ips(&[]));
    assert_eq!(keep, vec![net("10.0.0.0/8")]);
    assert!(out.is_empty());
}

#[test]
fn a_prefix_covering_the_underlay_is_excluded_unless_a_local_route_protects_it() {
    let relay = ips(&["203.0.113.7"]);
    let (keep, out) = exclude_local(&nets(&["203.0.113.0/24"]), &nets(&[]), &relay);
    assert!(keep.is_empty());
    assert!(out[0].1.contains("underlay"));
    // The same prefix is fine if the relay sits on a connected LAN more
    // specific than it: the kernel keeps the relay local.
    let (keep, _) = exclude_local(&nets(&["203.0.113.0/24"]), &nets(&["203.0.113.0/25"]), &relay);
    assert_eq!(keep, vec![net("203.0.113.0/24")]);
    let (keep, _) = exclude_local(&nets(&["203.0.0.0/16"]), &nets(&["203.0.113.0/24"]), &relay);
    assert_eq!(keep, vec![net("203.0.0.0/16")]);
}

#[test]
fn kernel_reconcile_deletes_stale_adds_missing_and_leaves_our_addresses() {
    // Kernel starts with a stale route, a wanted route already present,
    // and our own host address (a connected route).
    let mine = net("10.99.1.1/32");
    let p = RecordingProgrammer::with_kernel(&vec![net("10.0.9.0/24"), net("10.0.2.0/24"), mine]);
    let mut set = RouteSet::new(p);
    let ok = set
        .reconcile_via_kernel(&nets(&["10.0.2.0/24", "10.0.3.0/24"]), &vec![mine])
        .unwrap();
    assert!(ok, "readback was available");
    let kernel = set.programmer.kernel_now().unwrap();
    // stale removed, missing added, present untouched, ours kept.
    assert!(!kernel.contains(&net("10.0.9.0/24")), "stale removed");
    assert!(kernel.contains(&net("10.0.3.0/24")), "missing added");
    assert!(kernel.contains(&net("10.0.2.0/24")), "present kept");
    assert!(kernel.contains(&mine), "our own address is never touched");
}

#[test]
fn kernel_reconcile_self_heals_an_externally_deleted_route() {
    let p = RecordingProgrammer::with_kernel(&nets(&["10.0.1.0/24"]));
    let mut set = RouteSet::new(p);
    set.reconcile_via_kernel(&nets(&["10.0.1.0/24"]), &nets(&[])).unwrap();
    // Someone else deletes it out from under us.
    set.programmer.kernel.as_mut().unwrap().retain(|n| *n != net("10.0.1.0/24"));
    // A cache-only reconcile would not notice; the kernel one does.
    set.reassert_via_kernel().unwrap();
    assert!(
        set.programmer.kernel_now().unwrap().contains(&net("10.0.1.0/24")),
        "re-added from truth"
    );
}

#[test]
fn an_identical_resnapshot_programs_nothing_the_no_op_after_a_coordinator_restart() {
    let mut set = RouteSet::new(RecordingProgrammer::with_kernel(&nets(&[])));
    let wanted = nets(&["10.99.1.5/32", "10.99.1.6/32", "192.168.9.0/24"]);
    let mine = nets(&["10.99.1.1/32"]);
    assert!(set.reconcile_via_kernel(&wanted, &mine).unwrap());
    assert_eq!(set.programmer.calls.len(), 3, "the first apply installs three routes");

    // The coordinator comes back and pushes a snapshot with the SAME
    // content (only the generation changed).
    set.reconcile_via_kernel(&wanted, &mine).unwrap();
    assert_eq!(set.programmer.calls.len(), 3, "an identical resnapshot programs nothing new");
    // And the kernel still holds exactly the same set.
    let mut k = set.programmer.kernel_now().unwrap();
    k.sort_by_key(|n| n.to_text());
    let mut w = wanted.clone();
    w.sort_by_key(|n| n.to_text());
    assert_eq!(k, w);
}

#[test]
fn kernel_reconcile_reports_unsupported_so_the_caller_can_fall_back() {
    // The default recorder has no simulated kernel.
    let mut set = RouteSet::new(RecordingProgrammer::default());
    assert!(
        !set.reconcile_via_kernel(&nets(&["10.0.1.0/24"]), &nets(&[])).unwrap(),
        "readback unavailable"
    );
    assert!(set.programmer.calls.is_empty(), "did nothing; caller uses the cache path");
}

#[test]
fn reconcile_issues_only_the_difference() {
    let mut set = RouteSet::new(RecordingProgrammer::default());
    set.reconcile(&nets(&["10.0.1.0/24", "10.0.2.0/24"])).unwrap();
    assert_eq!(set.installed().len(), 2);
    set.programmer.calls.clear();
    set.reconcile(&nets(&["10.0.1.0/24", "10.0.2.0/24"])).unwrap();
    assert!(set.programmer.calls.is_empty(), "no change, no calls");
    set.reconcile(&nets(&["10.0.2.0/24", "10.0.3.0/24"])).unwrap();
    let calls: Vec<String> = set.programmer.calls.iter().map(|c| c.to_text()).collect();
    assert_eq!(calls, vec!["remove 10.0.1.0/24", "add 10.0.3.0/24"]);
}

struct Flaky;

impl RouteProgrammer for Flaky {
    fn add_via_tun(&mut self, net: IpNet) -> Result<(), String> {
        if net.prefix_len == 8 {
            Err("nope".to_string())
        } else {
            Ok(())
        }
    }
    fn remove(&mut self, _net: IpNet) -> Result<(), String> {
        Err("no such process".to_string())
    }
    fn list_via_dev(&mut self) -> Option<Vec<IpNet>> {
        None
    }
    fn pin_underlay(&mut self, _ips: &Vec<IpAddr>) -> Result<Vec<IpAddr>, String> {
        Ok(Vec::new())
    }
}

#[test]
fn a_failed_remove_does_not_abort_and_a_failed_add_is_not_recorded() {
    let mut set = RouteSet::new(Flaky);
    set.reconcile(&nets(&["10.0.1.0/24"])).unwrap();
    assert!(set.reconcile(&nets(&["10.0.0.0/8", "10.0.5.0/24"])).is_err());
    let mut got = set.installed();
    got.sort_by_key(|n| n.to_text());
    assert_eq!(
        got,
        vec![net("10.0.5.0/24")],
        "the failed add is retried next time; the failed remove is forgotten"
    );
}

#[test]
fn reassert_reprograms_everything_owned() {
    let mut set = RouteSet::new(RecordingProgrammer::default());
    set.reconcile(&nets(&["10.99.1.1/32", "10.99.1.2/32"])).unwrap();
    set.programmer.calls.clear();
    set.reassert().unwrap();
    let calls: Vec<String> = set.programmer.calls.iter().map(|c| c.to_text()).collect();
    assert_eq!(calls, vec!["add 10.99.1.1/32", "add 10.99.1.2/32"]);
}

#[test]
fn the_halves_lie_over_the_default() {
    assert_eq!(catch_all_halves(false).to_vec(), nets(&["0.0.0.0/1", "128.0.0.0/1"]));
    assert_eq!(catch_all_halves(true).to_vec(), nets(&["::/1", "8000::/1"]));
}

#[test]
fn resolvers_are_read_from_the_file() {
    let conf = "# local\nnameserver 8.8.8.8\nsearch example.org\nnameserver 2001:db8::53 # far\n nameserver bad\n";
    assert_eq!(system_resolvers(&Some(conf.to_string())), ips(&["8.8.8.8", "2001:db8::53"]));
    assert!(system_resolvers(&None).is_empty());
}

#[test]
fn clearing_takes_every_route_back() {
    let mut set = RouteSet::new(RecordingProgrammer::with_kernel(&nets(&[])));
    set.reconcile(&nets(&["10.0.1.0/24"])).unwrap();
    set.clear();
    assert!(set.installed().is_empty());
    assert!(set.programmer.kernel_now().unwrap().is_empty());
}

#[test]
fn reasserting_reads_the_table_and_applies_what_was_wanted_last() {
    let mut set = RouteSet::new(RecordingProgrammer::with_kernel(&nets(&["10.0.9.0/24"])));
    assert_eq!(set.reconcile_via_kernel(&nets(&["10.0.1.0/24"]), &nets(&[])), Ok(true));
    set.programmer.remove(net("10.0.1.0/24")).unwrap();
    assert_eq!(set.reassert_via_kernel(), Ok(true));
    assert_eq!(set.programmer.kernel_now().unwrap(), nets(&["10.0.1.0/24"]));
    assert_eq!(set.programmer.seen, vec![Some(nets(&["10.0.9.0/24"])), Some(nets(&[]))]);

    let mut blind = RouteSet::new(RecordingProgrammer::new());
    assert_eq!(blind.reassert_via_kernel(), Ok(false));
    assert_eq!(blind.programmer.seen, vec![None]);
    assert!(blind.programmer.calls.is_empty());
}

#[test]
fn a_set_hands_its_pins_to_the_programmer() {
    let mut set = RouteSet::new(RecordingProgrammer::new());
    let hosts = ips(&["203.0.113.7", "2001:db8::5"]);
    assert_eq!(set.pin_underlay(&hosts), Ok(hosts.clone()));
    assert_eq!(set.programmer.pinned, vec![hosts]);
    assert!(set.programmer.calls.is_empty());
}

#[test]
fn a_wanted_route_that_is_there_for_our_own_address_is_not_programmed_again() {
    let own = nets(&["10.99.1.1/32"]);
    let mut set = RouteSet::new(RecordingProgrammer::with_kernel(&own));
    assert_eq!(set.reconcile_via_kernel(&own, &own), Ok(true));
    assert!(set.programmer.calls.is_empty());
    assert_eq!(set.programmer.kernel_now().unwrap(), own);
}
