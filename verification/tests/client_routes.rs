use nqvpn::commands::{
    command_failure, macos_route_args, set_device_mtu, Platform, SystemProgrammer,
};
use nqvpn::net::{IpAddr, IpNet};
use nqvpn::routeset::{RecordingProgrammer, RouteProgrammer};
use nqvpn::session_routes::RouteSet;

fn net(s: &str) -> IpNet {
    IpNet::parse(s).unwrap()
}

fn nets(v: &[&str]) -> Vec<IpNet> {
    v.iter().map(|s| net(s)).collect()
}

fn calls(set: &RouteSet<RecordingProgrammer>) -> Vec<String> {
    set.programmer.calls.iter().map(|c| c.to_text()).collect()
}

#[test]
fn installs_and_diffs() {
    let mut set = RouteSet::new(RecordingProgrammer::default());
    set.apply(&nets(&["10.0.1.0/24", "10.0.2.0/24"])).unwrap();
    assert_eq!(set.installed().len(), 2);
    // Re-applying the same set is a no-op.
    set.apply(&nets(&["10.0.1.0/24", "10.0.2.0/24"])).unwrap();
    assert_eq!(set.programmer.calls.len(), 2);
}

#[test]
fn a_withdrawn_prefix_keeps_its_route_so_traffic_cannot_leak() {
    // Deleting it would let traffic to a dead site fall through to the
    // default route and leave in cleartext.
    let mut set = RouteSet::new(RecordingProgrammer::default());
    set.apply(&nets(&["192.168.7.0/24"])).unwrap();
    set.programmer.calls.clear();

    set.apply(&nets(&[])).unwrap();
    assert!(
        set.programmer.calls.is_empty(),
        "a withdrawal must not touch the routing table at all"
    );
    assert_eq!(set.installed(), vec![net("192.168.7.0/24")], "the route stays");
}

#[test]
fn a_returning_site_needs_no_route_change() {
    let mut set = RouteSet::new(RecordingProgrammer::default());
    set.apply(&nets(&["192.168.7.0/24"])).unwrap();
    set.apply(&nets(&[])).unwrap();
    set.programmer.calls.clear();
    set.apply(&nets(&["192.168.7.0/24"])).unwrap();
    assert!(
        set.programmer.calls.is_empty(),
        "the route was never removed, so coming back is free"
    );
}

#[test]
fn reconcile_returns_the_table_to_the_snapshot() {
    let mut set = RouteSet::new(RecordingProgrammer::default());
    set.apply(&nets(&["10.0.1.0/24", "10.0.2.0/24"])).unwrap();
    set.apply(&nets(&[])).unwrap(); // both withdrawn, both kept
    set.programmer.calls.clear();

    set.reconcile(&nets(&["10.0.2.0/24", "10.0.9.0/24"])).unwrap();
    let calls = calls(&set);
    // Everything previously owned is deleted first...
    assert!(calls.contains(&"remove 10.0.1.0/24".to_string()), "{calls:?}");
    assert!(calls.contains(&"remove 10.0.2.0/24".to_string()), "{calls:?}");
    // ...then the snapshot is installed, including the re-added one.
    assert!(calls.contains(&"add 10.0.2.0/24".to_string()), "{calls:?}");
    assert!(calls.contains(&"add 10.0.9.0/24".to_string()), "{calls:?}");
    let mut got = set.installed();
    got.sort_by_key(|n| n.to_text());
    assert_eq!(got, vec![net("10.0.2.0/24"), net("10.0.9.0/24")]);
}

#[test]
fn reconcile_clears_a_prefix_that_left_the_network_for_good() {
    let mut set = RouteSet::new(RecordingProgrammer::default());
    set.apply(&nets(&["192.168.7.0/24"])).unwrap();
    set.apply(&nets(&[])).unwrap();
    set.reconcile(&nets(&[])).unwrap();
    assert!(set.installed().is_empty(), "a departed prefix must not be held forever");
}

struct Flaky(Vec<String>);

impl RouteProgrammer for Flaky {
    fn add_via_tun(&mut self, net: IpNet) -> Result<(), String> {
        self.0.push(format!("add {}", net.to_text()));
        Ok(())
    }
    fn remove(&mut self, _net: IpNet) -> Result<(), String> {
        Err("no such process".to_string())
    }
    fn list_via_dev(&mut self) -> Option<Vec<IpNet>> {
        None
    }
    fn pin_underlay(&mut self, _ips: &Vec<IpAddr>) -> Result<Vec<IpAddr>, String> {
        Ok(Vec::new())
    }
}

#[test]
fn reconcile_survives_routes_something_else_already_removed() {
    // Another writer took a route and its interface vanished. The delete
    // fails; reconcile must still install the snapshot.
    let mut set = RouteSet::new(Flaky(Vec::new()));
    set.apply(&nets(&["10.0.1.0/24"])).unwrap();
    set.reconcile(&nets(&["10.0.5.0/24"])).expect("a failed delete must not abort");
    assert!(set.programmer.0.contains(&"add 10.0.5.0/24".to_string()));
}

#[test]
fn reassert_reprograms_routes_another_writer_removed() {
    let mut set = RouteSet::new(RecordingProgrammer::default());
    set.apply(&nets(&["10.99.1.1/32", "10.99.1.2/32"])).unwrap();
    set.programmer.calls.clear();

    // A no-op apply must stay a no-op — we still rely on the diff.
    set.apply(&nets(&["10.99.1.1/32", "10.99.1.2/32"])).unwrap();
    assert!(set.programmer.calls.is_empty());

    // Re-assert must re-issue every route regardless of the cache.
    set.reassert().unwrap();
    assert_eq!(calls(&set), vec!["add 10.99.1.1/32", "add 10.99.1.2/32"]);
}

#[test]
fn reassert_on_an_empty_set_does_nothing() {
    let mut set = RouteSet::new(RecordingProgrammer::default());
    set.reassert().unwrap();
    assert!(set.programmer.calls.is_empty());
}

#[test]
fn macos_ipv6_routes_carry_an_explicit_prefix_length() {
    let a = macos_route_args("add", net("fd99::1:1/128"), "utun10");
    assert!(a.contains(&"-prefixlen".to_string()), "{a:?}");
    assert!(a.contains(&"128".to_string()), "{a:?}");
    // The destination must be the bare address; a slash form here is
    // exactly what gets misread.
    assert!(a.contains(&"fd99::1:1".to_string()), "{a:?}");
    assert!(!a.iter().any(|s| s.contains("::1:1/")), "no slash form: {a:?}");
    assert!(!a.contains(&"-net".to_string()), "-net is the form that misparses: {a:?}");

    let b = macos_route_args("add", net("fd00::/64"), "utun10");
    assert!(b.contains(&"64".to_string()), "a real prefix must keep its length: {b:?}");
}

#[test]
fn macos_ipv4_routes_keep_the_slash_form() {
    let a = macos_route_args("add", net("10.99.1.0/24"), "utun10");
    assert!(a.contains(&"-net".to_string()), "{a:?}");
    assert!(a.contains(&"10.99.1.0/24".to_string()), "{a:?}");
    assert!(!a.contains(&"-prefixlen".to_string()), "{a:?}");
}

#[test]
fn the_verb_is_the_only_difference_between_add_and_change() {
    // add falls back to change when the route already exists; if the two
    // ever diverged, re-asserting would install something else.
    let add = macos_route_args("add", net("fd99::1:1/128"), "utun10");
    let chg = macos_route_args("change", net("fd99::1:1/128"), "utun10");
    assert_eq!(add.len(), chg.len());
    let diffs: Vec<_> = add.iter().zip(&chg).filter(|(a, b)| a != b).collect();
    assert_eq!(diffs.len(), 1);
    assert_eq!(diffs[0], (&"add".to_string(), &"change".to_string()));
}

#[test]
fn a_route_command_is_spelled_for_its_platform() {
    let p = SystemProgrammer { device: "nqvpn0".to_string() };
    let add = p.add_via_tun(Platform::Linux, net("10.99.1.0/24")).unwrap();
    assert_eq!(add, vec![vec!["ip", "-4", "route", "replace", "10.99.1.0/24", "dev", "nqvpn0"]]);
    let del = p.remove(Platform::Linux, net("fd00::/64")).unwrap();
    assert_eq!(del, vec!["ip", "-6", "route", "del", "fd00::/64"]);
    let del = p.remove(Platform::MacOs, net("10.99.1.0/24")).unwrap();
    assert_eq!(del, vec!["route", "-n", "delete", "-inet", "-net", "10.99.1.0/24"]);
    assert!(p.add_via_tun(Platform::Other, net("10.99.1.0/24")).is_err());
    assert!(p.remove(Platform::Other, net("10.99.1.0/24")).is_err());
}

#[test]
fn a_failed_command_says_what_it_was() {
    let args = vec!["ip".to_string(), "route".to_string()];
    let said = command_failure(&args, "  File exists\n");
    assert!(said.contains("ip"), "{said}");
    assert!(said.contains("File exists"), "{said}");
    assert!(set_device_mtu(Platform::Linux, "nqvpn0", 1350).unwrap().contains(&"1350".to_string()));
}

struct NoGateway;

impl RouteProgrammer for NoGateway {
    fn add_via_tun(&mut self, _net: IpNet) -> Result<(), String> {
        Ok(())
    }
    fn remove(&mut self, _net: IpNet) -> Result<(), String> {
        Ok(())
    }
    fn list_via_dev(&mut self) -> Option<Vec<IpNet>> {
        None
    }
    fn pin_underlay(&mut self, _ips: &Vec<IpAddr>) -> Result<Vec<IpAddr>, String> {
        Err("no gateway".to_string())
    }
}

#[test]
fn a_pin_is_one_request_and_fails_as_the_programmer_does() {
    let host = IpAddr::parse("203.0.113.7").unwrap();
    let mut set = RouteSet::new(RecordingProgrammer::new());
    assert_eq!(set.pin_underlay(host), Ok(()));
    assert_eq!(set.programmer.pinned, vec![vec![host]]);
    assert!(set.programmer.calls.is_empty());

    let mut set = RouteSet::new(NoGateway);
    assert_eq!(set.pin_underlay(host), Err("no gateway".to_string()));
}
