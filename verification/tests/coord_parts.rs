use nqvpn::auth::{
    check_admin, cookie_token, hash_password, public_url, session_cookie, verify_password,
    Sessions, MAX_FAILURES_PER_MIN,
};
use nqvpn::config::{MemberCfg, NetworkConfig, PoolCfg, SettingsCfg};
use nqvpn::directory::{Directory, MIN_TUNNEL_MTU, TRAFFIC_RETENTION_SECS};
use nqvpn::ipam::{allocate, allocate_for_join, scan_from_cursor};
use nqvpn::leases::Leases;
use nqvpn::namemap::NameMap;
use nqvpn::net::{IpAddr, IpNet};
use nqvpn::proto::{
    AttachedClient, Heartbeat, LinkTraffic, PeerInfo, Role, TrafficReport,
};
use nqvpn::registry::{Registry, RouteReg};
use nqvpn::secrets::generate_secret;
use nqvpn::signer::Keyring;
use nqvpn::state::config_matches_registry;
use nqvpn::validate::validate_network;

fn net(s: &str) -> IpNet {
    IpNet::parse(s).unwrap()
}

fn v4(s: &str) -> u32 {
    match IpAddr::parse(s).unwrap() {
        IpAddr::V4(a) => a,
        IpAddr::V6(_) => panic!("not IPv4: {s}"),
    }
}

fn v6(s: &str) -> u128 {
    match IpAddr::parse(s).unwrap() {
        IpAddr::V6(a) => a,
        IpAddr::V4(_) => panic!("not IPv6: {s}"),
    }
}

// ---- admin sessions ----

#[test]
fn hash_and_verify() {
    let h = hash_password("hunter2").unwrap();
    assert!(h.starts_with("$argon2"));
    assert!(verify_password("hunter2", &h));
    assert!(!verify_password("hunter3", &h));
    assert!(!verify_password("hunter2", "not-a-hash"));
}

#[test]
fn sessions_open_lookup_expire_and_close() {
    let now = 1_000_000;
    let mut s = Sessions::new();
    let (t, exp) = s.open("admin", 60, now);
    assert!(exp > now);
    assert_eq!(s.lookup(&t, now).unwrap().user, "admin");
    assert!(s.lookup("nope", now).is_none());
    s.close(&t);
    assert!(s.lookup(&t, now).is_none());
    let (t2, _) = s.open("admin", 0, now);
    assert!(s.lookup(&t2, now).is_none(), "already expired");
}

#[test]
fn failures_throttle_per_minute() {
    let now = 1_000_000;
    let mut s = Sessions::new();
    for _ in 0..MAX_FAILURES_PER_MIN {
        assert!(!s.throttled("1.1.1.1", now));
        s.note_failure("1.1.1.1", now);
    }
    assert!(s.throttled("1.1.1.1", now));
    assert!(!s.throttled("2.2.2.2", now));
}

#[test]
fn cookie_parsing() {
    assert_eq!(
        cookie_token(Some("a=b; nqvpn_session=tok123; c=d")).as_deref(),
        Some("tok123")
    );
    assert!(cookie_token(Some("a=b")).is_none());
    assert!(cookie_token(None).is_none());
}

#[test]
fn a_bearer_token_or_a_session_admits() {
    let now = 1_000_000;
    let mut s = Sessions::new();
    let (t, _) = s.open("admin", 60, now);
    let token = Some("sesame".to_string());
    assert!(check_admin(&token, true, &s, Some("Bearer sesame"), None, now).is_ok());
    assert!(check_admin(&token, true, &s, Some("Bearer other"), None, now).is_err());
    assert!(check_admin(&token, true, &s, None, None, now).is_err());
    let cookie = format!("nqvpn_session={t}");
    assert!(check_admin(&token, true, &s, None, Some(&cookie), now).is_ok());
    assert!(check_admin(&token, true, &s, None, Some(&cookie), now + 60).is_err());
}

#[test]
fn a_session_cookie_is_out_of_reach_of_scripts() {
    let c = session_cookie("tok", 3600);
    assert!(c.starts_with("nqvpn_session=tok"), "{c}");
    assert!(c.contains("HttpOnly") && c.contains("Max-Age=3600"), "{c}");
}

#[test]
fn the_public_url_is_the_configured_one_first() {
    let set = Some("https://coord.example:8443/".to_string());
    let u = public_url(&set, Some("other"), Some("h"), None);
    assert!(u.starts_with("https://coord.example:8443"), "{u}");
    let u = public_url(&None, None, Some("coord.lan:8443"), None);
    assert!(u.contains("coord.lan:8443"), "{u}");
}

// ---- configuration ----

fn member() -> MemberCfg {
    MemberCfg::default()
}

fn base() -> NetworkConfig {
    let mut c = NetworkConfig {
        network_id: "n1".to_string(),
        cidrs: vec![net("10.99.0.0/16"), net("fd99::/64")],
        pools: NameMap::new(),
        settings: SettingsCfg::default(),
        relays: NameMap::new(),
        clients: NameMap::new(),
    };
    c.pools.insert("default".to_string(), PoolCfg { cidr: net("10.99.1.0/24") });
    let mut r1 = member();
    r1.secret = Some("s".to_string());
    r1.relay_addr = Some("1.2.3.4:4444".to_string());
    r1.allowed_cidrs = vec![net("192.168.1.0/24")];
    r1.preferred_ip4 = Some(v4("10.99.0.1"));
    c.relays.insert("r1".to_string(), r1);
    let mut c1 = member();
    c1.secret = Some("s".to_string());
    c1.pool = Some("default".to_string());
    c.clients.insert("c1".to_string(), c1);
    c
}

fn check(c: &NetworkConfig) -> Result<(), String> {
    validate_network(c, 8, &vec![("localhost".to_string(), vec![IpAddr::parse("127.0.0.1").unwrap()])])
}

fn relay(addr: &str, allowed: &[&str]) -> MemberCfg {
    let mut m = member();
    m.relay_addr = Some(addr.to_string());
    m.allowed_cidrs = allowed.iter().map(|s| net(s)).collect();
    m
}

fn with_relay_addr(addr: &str) -> NetworkConfig {
    let mut c = base();
    let mut r1 = c.relays.remove("r1").unwrap();
    r1.relay_addr = Some(addr.to_string());
    c.relays.insert("r1".to_string(), r1);
    c
}

fn with_pool(cidr: &str) -> NetworkConfig {
    let mut c = base();
    c.pools.insert("default".to_string(), PoolCfg { cidr: net(cidr) });
    c
}

#[test]
fn valid_config_passes_and_indexes_by_name() {
    let cfg = base();
    check(&cfg).unwrap();
    assert_eq!(cfg.member_by_name("c1").unwrap().1, Role::Client);
    assert_eq!(cfg.member_by_name("r1").unwrap().1, Role::Relay);
    assert!(cfg.member_by_name("nope").is_none());
    assert_eq!(cfg.settings.liveness_window_secs(), 15);
}

#[test]
fn pool_must_be_entirely_inside_a_cidr() {
    assert!(check(&with_pool("10.200.0.0/24")).is_err());
    // Larger than its network.
    assert!(check(&with_pool("10.0.0.0/8")).is_err());
}

#[test]
fn overlapping_pools_fail() {
    let mut c = base();
    c.pools.insert("other".to_string(), PoolCfg { cidr: net("10.99.1.128/25") });
    assert!(check(&c).is_err());
}

#[test]
fn client_with_relay_fields_fails() {
    let mut c = base();
    c.clients.insert("c2".to_string(), relay("1.1.1.1:1", &[]));
    assert!(check(&c).is_err());
}

#[test]
fn relay_without_addr_fails() {
    let mut c = base();
    c.relays.insert("r2".to_string(), member());
    assert!(check(&c).is_err());
}

#[test]
fn relay_addr_in_tunnel_space_or_loopback_fails() {
    assert!(check(&with_relay_addr("10.99.0.7:4444")).is_err());
    assert!(check(&with_relay_addr("127.0.0.1:4444")).is_err());
    assert!(check(&with_relay_addr("localhost:4444")).is_err(), "names resolve too");
}

#[test]
fn duplicate_preferred_ip_fails_and_node_ids_are_not_configurable() {
    let mut c = base();
    let mut c9 = member();
    c9.preferred_ip4 = Some(v4("10.99.0.1"));
    c.clients.insert("c9".to_string(), c9);
    let e = check(&c).unwrap_err();
    assert!(e.contains("claimed by both"), "{e}");
}

#[test]
fn allowed_cidr_overlapping_tunnel_fails() {
    let mut c = base();
    c.relays.insert("r1".to_string(), relay("1.2.3.4:4444", &["10.99.5.0/24"]));
    assert!(check(&c).is_err());
}

#[test]
fn overlapping_allowed_cidrs_across_relays_ok_for_failover() {
    let mut c = base();
    c.relays.insert("r2".to_string(), relay("5.6.7.8:4444", &["192.168.1.0/24"]));
    check(&c).unwrap();
}

#[test]
fn a_secret_is_optional_but_not_empty() {
    let mut c = base();
    let mut c1 = c.clients.remove("c1").unwrap();
    c1.secret = None;
    c.clients.insert("c1".to_string(), c1);
    check(&c).expect("managed store may hold it");
    let mut c1 = c.clients.remove("c1").unwrap();
    c1.secret = Some(String::new());
    c.clients.insert("c1".to_string(), c1);
    assert!(check(&c).is_err());
}

#[test]
fn settings_are_bounds_checked() {
    let mut c = base();
    c.settings.credential_ttl_mins = 0;
    assert!(check(&c).is_err());
    let mut c = base();
    c.settings.mtu = 100;
    assert!(check(&c).is_err());
}

#[test]
fn tunnel_ranges_are_required_and_disjoint() {
    let mut c = base();
    c.cidrs = vec![];
    assert!(check(&c).is_err());
    let mut c = base();
    c.cidrs = vec![net("fd99::/64")];
    assert!(check(&c).unwrap_err().contains("IPv4"));
    let mut c = base();
    c.cidrs = vec![net("10.99.0.0/16"), net("10.99.4.0/24")];
    assert!(check(&c).unwrap_err().contains("overlap"));
}

#[test]
fn a_member_is_a_client_or_a_relay() {
    let mut c = base();
    c.clients.insert("r1".to_string(), member());
    assert!(check(&c).unwrap_err().contains("both client and relay"));
}

#[test]
fn an_unknown_pool_is_refused() {
    let mut c = base();
    let mut m = member();
    m.pool = Some("nowhere".to_string());
    c.clients.insert("c2".to_string(), m);
    assert!(check(&c).unwrap_err().contains("unknown pool \"nowhere\""));
}

#[test]
fn a_relay_address_needs_a_port() {
    assert!(check(&with_relay_addr("1.2.3.4")).unwrap_err().contains("must be host:port"));
    assert!(check(&with_relay_addr("1.2.3.4:port")).unwrap_err().contains("bad port"));
    assert!(check(&with_relay_addr("1.2.3.4:99999")).unwrap_err().contains("bad port"));
    check(&with_relay_addr("auto:4444")).unwrap();
    check(&with_relay_addr("[2001:db8::1]:4444")).unwrap();
}

// ---- directory ----

fn dir_cfg() -> NetworkConfig {
    let mut c = base();
    c.cidrs = vec![net("10.99.0.0/16")];
    c.clients = NameMap::new();
    c.relays = NameMap::new();
    c.relays.insert("old".to_string(), relay("1.2.3.4:1", &["192.168.1.0/24"]));
    c.relays.insert("new".to_string(), relay("5.6.7.8:1", &["192.168.1.0/24"]));
    c
}

fn registry_with_two_registrants() -> Registry {
    let mut reg = Registry::new();
    let cidr = net("192.168.1.0/24");
    {
        let r = reg.member_by_name_mut("old", Role::Relay, 1);
        r.pubkey = Some("PK".to_string());
        r.routes.push(RouteReg { cidr, first_granted_unix: 100 });
    }
    {
        let r = reg.member_by_name_mut("new", Role::Relay, 1);
        r.pubkey = Some("PK".to_string());
        r.routes.push(RouteReg { cidr, first_granted_unix: 200 });
    }
    reg
}

fn lan_owner(d: &Directory) -> String {
    d.owner(&net("192.168.1.0/24")).unwrap()
}

fn named<'a>(d: &'a Directory, name: &str) -> &'a PeerInfo {
    d.peers.iter().find(|p| p.name == name).unwrap()
}

#[test]
fn network_mtu_is_the_minimum_over_all_members() {
    let mut d = Directory::with_hold_down(0);
    // Nobody has reported yet: the configured value stands.
    assert_eq!(d.network_mtu(1350).mtu, 1350);
    assert_eq!(d.network_mtu(1350).limited_by, "config");

    d.reported_mtu.insert("fast".to_string(), 1400);
    d.reported_mtu.insert("slow".to_string(), 1300);
    let m = d.network_mtu(1350);
    assert_eq!(m.mtu, 1300, "one small uplink limits the whole network");
    assert_eq!(m.limited_by, "slow", "and the operator can see which");

    // A member cannot raise the network above the configured ceiling.
    d.reported_mtu = NameMap::new();
    d.reported_mtu.insert("huge".to_string(), 9000);
    assert_eq!(d.network_mtu(1350).mtu, 1350);

    // Nor drag it below the IPv6 floor.
    d.reported_mtu.insert("broken".to_string(), 500);
    assert_eq!(d.network_mtu(1350).mtu, MIN_TUNNEL_MTU);
}

#[test]
fn oldest_live_registrant_owns() {
    let (c, reg) = (dir_cfg(), registry_with_two_registrants());
    let mut d = Directory::with_hold_down(60);
    d.set_online("old", true, 1000);
    d.set_online("new", true, 1000);
    d.recompute(&c, &reg, 1000);
    assert_eq!(lan_owner(&d), "old");
}

#[test]
fn death_fails_over_immediately() {
    let (c, reg) = (dir_cfg(), registry_with_two_registrants());
    let mut d = Directory::with_hold_down(60);
    d.set_online("old", true, 1000);
    d.set_online("new", true, 1000);
    d.recompute(&c, &reg, 1000);

    d.set_online("old", false, 1100);
    let delta = d.recompute(&c, &reg, 1100).expect("ownership moved");
    assert_eq!(lan_owner(&d), "new");
    // The standby's PeerInfo now carries the LAN prefix.
    let new_peer = delta.changed.iter().find(|p| p.name == "new").unwrap();
    assert!(new_peer.prefixes.iter().any(|p| p.to_text() == "192.168.1.0/24"));
    // The dead owner keeps no route.
    let old = named(&d, "old");
    assert!(!old.prefixes.iter().any(|p| p.to_text() == "192.168.1.0/24"));
    assert!(!old.online);
}

#[test]
fn returning_owner_waits_out_hold_down() {
    let (c, reg) = (dir_cfg(), registry_with_two_registrants());
    let mut d = Directory::with_hold_down(60);
    d.set_online("new", true, 1000);
    d.recompute(&c, &reg, 1000);
    assert_eq!(lan_owner(&d), "new");

    // "old" comes back at t=1100; it is the older registration but must
    // not reclaim until hold_down elapses.
    d.set_online("old", true, 1100);
    d.recompute(&c, &reg, 1110);
    assert_eq!(lan_owner(&d), "new", "hold-down still active");

    d.recompute(&c, &reg, 1100 + 60);
    assert_eq!(lan_owner(&d), "old", "reclaimed after hold-down");
}

#[test]
fn addresses_survive_death_but_routes_do_not() {
    let c = dir_cfg();
    let mut reg = registry_with_two_registrants();
    reg.member_by_name_mut("old", Role::Relay, 1).ip4 = Some(v4("10.99.0.1"));
    let mut d = Directory::with_hold_down(0);
    d.set_online("old", true, 1000);
    d.recompute(&c, &reg, 1000);
    d.set_online("old", false, 1100);
    d.recompute(&c, &reg, 1100);
    let old = named(&d, "old");
    assert!(old.prefixes.iter().any(|p| p.to_text() == "10.99.0.1/32"));
    assert_eq!(old.prefixes.len(), 1);
}

#[test]
fn revision_advances_only_on_change() {
    let (c, reg) = (dir_cfg(), registry_with_two_registrants());
    let mut d = Directory::with_hold_down(60);
    d.set_online("old", true, 1000);
    assert!(d.recompute(&c, &reg, 1000).is_some());
    let rev = d.revision;
    assert!(d.recompute(&c, &reg, 1001).is_none(), "no change, no revision bump");
    assert_eq!(d.revision, rev);
}

#[test]
fn a_delta_carries_what_changed_and_nothing_else() {
    let (c, mut reg) = (dir_cfg(), registry_with_two_registrants());
    let mut d = Directory::with_hold_down(0);
    d.set_online("old", true, 1000);
    let first = d.recompute(&c, &reg, 1000).unwrap();
    assert_eq!(first.changed.len(), 2);
    let id = reg.id_of("old").unwrap();
    assert!(reg.remove_member(id));
    let next = d.recompute(&c, &reg, 1001).unwrap();
    assert_eq!(next.base_rev, first.new_rev);
    assert_eq!(next.removed, vec![id]);
}

fn report(peer: u32, tx: u64, rx: u64) -> TrafficReport {
    TrafficReport {
        links: vec![LinkTraffic {
            peer_id: peer,
            tx_bytes: tx,
            tx_pkts: tx / 1000,
            rx_bytes: rx,
            rx_pkts: rx / 1000,
            up: true,
        }],
        local_bytes: 0,
        local_pkts: 0,
        terminated_bytes: 0,
        terminated_pkts: 0,
    }
}

fn rate(d: &Directory, relay: &str, peer: u32, tx: bool) -> u64 {
    d.traffic.get(relay).unwrap().rate(peer, tx)
}

#[test]
fn rate_is_derived_from_consecutive_samples() {
    let mut d = Directory::with_hold_down(0);
    d.record_traffic("r1", report(2, 1_000, 500), 100);
    // The first sample has nothing to compare against.
    assert_eq!(rate(&d, "r1", 2, true), 0);

    d.record_traffic("r1", report(2, 11_000, 5_500), 110);
    // 10_000 bytes over 10 seconds.
    assert_eq!(rate(&d, "r1", 2, true), 1_000);
    assert_eq!(rate(&d, "r1", 2, false), 500);
}

#[test]
fn a_relay_restart_reports_zero_not_a_spike() {
    let mut d = Directory::with_hold_down(0);
    d.record_traffic("r1", report(2, 9_000_000, 0), 100);
    d.record_traffic("r1", report(2, 12_000, 0), 110);
    assert_eq!(rate(&d, "r1", 2, true), 0);
}

#[test]
fn unknown_peer_and_zero_window_are_not_divisions_by_zero() {
    let mut d = Directory::with_hold_down(0);
    d.record_traffic("r1", report(2, 1_000, 0), 100);
    d.record_traffic("r1", report(2, 5_000, 0), 100); // same second
    assert_eq!(rate(&d, "r1", 2, true), 0);
    // A peer this relay never reported on has no rate, not a panic.
    assert_eq!(rate(&d, "r1", 99, true), 0);
}

#[test]
fn each_relay_keeps_its_own_row() {
    let mut d = Directory::with_hold_down(0);
    d.record_traffic("r1", report(2, 1_000, 0), 100);
    d.record_traffic("r2", report(1, 7_000, 0), 100);
    assert_eq!(d.traffic.entries.len(), 2);
    assert_eq!(d.traffic.get("r2").unwrap().report.links[0].tx_bytes, 7_000);
}

#[test]
fn a_relay_that_stops_reporting_drops_out_of_the_matrix() {
    let mut d = Directory::with_hold_down(0);
    d.record_traffic("cp", report(2, 1_000, 0), 100);
    assert!(d.traffic.contains_key("cp"));

    // Still present while merely quiet for a short while.
    d.prune_traffic(100 + TRAFFIC_RETENTION_SECS);
    assert!(d.traffic.contains_key("cp"), "must survive a brief silence");

    // Gone once the silence is long enough to mean "decommissioned".
    d.prune_traffic(100 + TRAFFIC_RETENTION_SECS + 1);
    assert!(!d.traffic.contains_key("cp"));
}

#[test]
fn pruning_keeps_relays_that_are_still_reporting() {
    let mut d = Directory::with_hold_down(0);
    d.record_traffic("gone", report(2, 1, 0), 100);
    // A live relay reporting much later must not be swept away with the
    // dead one — and its own arrival is what triggers the prune.
    d.record_traffic("live", report(2, 1, 0), 100 + TRAFFIC_RETENTION_SECS + 50);
    assert!(d.traffic.contains_key("live"));
    assert!(!d.traffic.contains_key("gone"));
}

// ---- addresses ----

fn ipam_cfg() -> NetworkConfig {
    let mut c = base();
    c.cidrs = vec![net("10.99.1.0/30"), net("fd99::1:0/126")];
    c.pools = NameMap::new();
    c.clients = NameMap::new();
    c.relays = NameMap::new();
    for name in ["c1", "c2", "c3", "pinned"] {
        c.clients.insert(name.to_string(), member());
    }
    c.relays.insert("r1".to_string(), relay("1.2.3.4:1", &[]));
    c
}

fn prefer(c: &mut NetworkConfig, name: &str, ip: &str) {
    let mut m = c.clients.remove(name).unwrap();
    m.preferred_ip4 = Some(v4(ip));
    c.clients.insert(name.to_string(), m);
}

fn hold(reg: &mut Registry, id: u32, name: &str, now: u64, ip: &str) {
    reg.member_mut(id, name, Role::Client, now).ip4 = Some(v4(ip));
}

#[test]
fn sequential_cidr_allocation() {
    let c = ipam_cfg();
    let mut reg = Registry::new();
    let g = allocate(&c, &mut reg, "c1", None, None).unwrap();
    assert_eq!(g.ip4, Some(v4("10.99.1.1")));
}

#[test]
fn cidr_exhaustion() {
    let c = ipam_cfg();
    let mut reg = Registry::new();
    // /30 has hosts .1 and .2
    hold(&mut reg, 101, "a", 1, "10.99.1.1");
    hold(&mut reg, 102, "b", 1, "10.99.1.2");
    let err = allocate(&c, &mut reg, "c1", None, None).unwrap_err();
    assert_eq!(err.code.as_str(), "address_space_exhausted");
}

#[test]
fn preferred_inside_network_cidr_is_accepted() {
    let c = ipam_cfg();
    let mut reg = Registry::new();
    let g = allocate(&c, &mut reg, "c1", Some(v4("10.99.1.2")), None).unwrap();
    assert_eq!(g.ip4, Some(v4("10.99.1.2")));
}

#[test]
fn preferred_conflict_rejected() {
    let c = ipam_cfg();
    let mut reg = Registry::new();
    hold(&mut reg, 103, "other", 1, "10.99.1.2");
    let err = allocate(&c, &mut reg, "c1", Some(v4("10.99.1.2")), None).unwrap_err();
    assert_eq!(err.code.as_str(), "address_in_use");
}

#[test]
fn config_preferred_of_other_member_is_reserved() {
    let mut c = ipam_cfg();
    prefer(&mut c, "c2", "10.99.1.1");
    let mut reg = Registry::new();
    // c2's config reserves 10.99.1.1 even though c2 never joined.
    let err = allocate(&c, &mut reg, "c1", Some(v4("10.99.1.1")), None).unwrap_err();
    assert_eq!(err.code.as_str(), "address_in_use");
}

/// A freed address must not go straight back out. The allocator cycles
/// forward through the CIDR and wraps, so reuse happens only after a full
/// lap.
#[test]
fn a_released_address_is_not_immediately_reissued() {
    let c = ipam_cfg();
    let mut reg = Registry::new();
    // Fill the whole /30: hosts .1 and .2.
    let a = allocate(&c, &mut reg, "c1", None, None).unwrap();
    reg.member_mut(1, "c1", Role::Client, 1).ip4 = a.ip4;
    let b = allocate(&c, &mut reg, "c2", None, None).unwrap();
    reg.member_mut(2, "c2", Role::Client, 1).ip4 = b.ip4;
    assert_ne!(a.ip4, b.ip4);
    assert_eq!(a.ip4, Some(v4("10.99.1.1")));
    assert_eq!(b.ip4, Some(v4("10.99.1.2")));

    // An admin removes the FIRST member, freeing .1 — the lowest free
    // address. A naive allocator would hand it straight over.
    reg.remove_member(1);
    let next = allocate(&c, &mut reg, "c1", None, None).unwrap();
    assert_eq!(
        next.ip4,
        Some(v4("10.99.1.1")),
        "with only one address free the cursor must still find it"
    );

    // With room to move, the cursor keeps going forward instead of
    // backfilling the hole.
    let mut wide = ipam_cfg();
    wide.network_id = "n2".to_string();
    wide.cidrs = vec![net("10.99.1.0/28")];
    wide.clients = NameMap::new();
    wide.relays = NameMap::new();
    wide.clients.insert("x".to_string(), member());
    let mut r2 = Registry::new();
    let mut seen = Vec::new();
    for i in 0..4 {
        let g = allocate(&wide, &mut r2, "x", None, None).unwrap();
        let ip = g.ip4.unwrap();
        seen.push(ip);
        r2.member_mut(50 + i, &format!("m{i}"), Role::Client, 1).ip4 = Some(ip);
    }
    // Free the first one, then allocate again: the cursor has moved past
    // it, so the new member gets a fresh address.
    r2.remove_member(50);
    let after = allocate(&wide, &mut r2, "x", None, None).unwrap().ip4.unwrap();
    assert_ne!(after, seen[0], "the just-freed address was reissued immediately");
    assert!(!seen.contains(&after), "allocator moved forward to unused space");
}

#[test]
fn cursor_survives_a_coordinator_restart() {
    let c = ipam_cfg();
    let mut reg = Registry::new();
    allocate(&c, &mut reg, "c1", None, None).unwrap();
    let cursor = reg.alloc_cursor;
    assert!(cursor.ipv4.is_some(), "allocation advanced a cursor");
    // What is stored is the registry; a restart reads it back.
    let mut back = Registry {
        alloc_cursor: cursor,
        pool_cursors: vec![],
        network_uuid: reg.network_uuid.clone(),
        next_node_id: reg.next_node_id,
        members: vec![],
        gen_hwm: reg.gen_hwm,
    };
    assert_eq!(
        back.alloc_cursor, cursor,
        "a restart must not reset the cursor, or reuse starts over"
    );
    let g = allocate(&c, &mut back, "c1", None, None).unwrap();
    assert_eq!(g.ip4, Some(v4("10.99.1.2")), "the next one, not the first one again");
}

#[test]
fn preferred_addresses_must_be_usable_and_inside_the_tunnel_cidrs() {
    let c = ipam_cfg();
    let mut reg = Registry::new();
    let err = allocate(&c, &mut reg, "c1", Some(v4("192.168.9.9")), None).unwrap_err();
    assert_eq!(err.code.as_str(), "bad_request");
    let err = allocate(&c, &mut reg, "c1", Some(v4("127.0.0.1")), None).unwrap_err();
    assert_eq!(err.code.as_str(), "bad_request");
}

fn two_gone() -> (Registry, Leases) {
    let mut reg = Registry::new();
    hold(&mut reg, 1, "c1", 10, "10.99.1.1");
    hold(&mut reg, 2, "c2", 20, "10.99.1.2");
    let mut leases = Leases::new();
    leases.seen(1, 100_000);
    leases.offline(1);
    leases.seen(2, 200_000);
    leases.offline(2);
    (reg, leases)
}

const LATER: u64 = 400_000;

#[test]
fn exhausted_range_reclaims_the_longest_gone_dynamic_client() {
    let c = ipam_cfg();
    let (mut reg, leases) = two_gone();
    let g = allocate_for_join(&c, &mut reg, &leases, true, LATER, "c3", None, None).unwrap();
    assert_eq!(g.ip4, Some(v4("10.99.1.1")));
    assert_eq!(reg.by_id(1).unwrap().ip4, None, "the old soft reservation is released atomically");
    assert_eq!(reg.by_id(1).unwrap().login_gen, 1, "the old address-bearing credential is invalidated");
    assert_eq!(reg.by_id(2).unwrap().ip4, Some(v4("10.99.1.2")));
}

#[test]
fn static_addresses_and_restart_grace_are_never_reclaimed() {
    let mut c = ipam_cfg();
    prefer(&mut c, "c1", "10.99.1.1");
    let (mut reg, leases) = two_gone();

    let during_grace =
        allocate_for_join(&c, &mut reg, &leases, false, LATER, "c3", None, None).unwrap_err();
    assert_eq!(during_grace.code.as_str(), "address_space_exhausted");

    let g = allocate_for_join(&c, &mut reg, &leases, true, LATER, "c3", None, None).unwrap();
    assert_eq!(g.ip4, Some(v4("10.99.1.2")), "only the dynamic reservation is reclaimable");
    assert_eq!(reg.by_id(1).unwrap().ip4, Some(v4("10.99.1.1")), "static reservation remains forever");
}

fn hb(attached: &[(u32, u64)]) -> Heartbeat {
    Heartbeat {
        gen: 0,
        digest: 0,
        attached: attached
            .iter()
            .map(|(n, s)| AttachedClient { node_id: *n, session_id: *s })
            .collect(),
        attached_to: None,
        mesh_up: vec![],
    }
}

#[test]
fn a_client_still_attached_to_a_relay_is_not_reclaimed() {
    let c = ipam_cfg();
    let (mut reg, mut leases) = two_gone();
    leases.heartbeat(9, Role::Relay, &hb(&[(1, 7)]), 300_000);

    let g = allocate_for_join(&c, &mut reg, &leases, true, LATER, "c3", None, None).unwrap();
    assert_eq!(g.ip4, Some(v4("10.99.1.2")), "the detached client is reclaimed instead");
    assert_eq!(reg.by_id(1).unwrap().ip4, Some(v4("10.99.1.1")));
}

#[test]
fn v6_allocated_alongside_v4() {
    let c = ipam_cfg();
    let mut reg = Registry::new();
    let g = allocate(&c, &mut reg, "c1", None, None).unwrap();
    assert!(g.ip4.is_some());
    assert_eq!(g.ip6, Some(v6("fd99::1:1")));
}

#[test]
fn a_scan_starts_at_its_cursor_and_wraps() {
    assert_eq!(scan_from_cursor(4, 100, &vec![100, 102], 0).unwrap().0, 101);
    assert_eq!(scan_from_cursor(4, 100, &vec![103], 3).unwrap().0, 100);
    assert_eq!(scan_from_cursor(2, 100, &vec![100, 101], 1), None);
    assert_eq!(scan_from_cursor(0, 100, &vec![], 0), None);
}

// ---- leases ----

#[test]
fn declarations_are_sets_not_events() {
    let mut l = Leases::new();
    assert!(l.heartbeat(1, Role::Relay, &hb(&[(10, 1), (11, 1)]), 100));
    assert_eq!(l.attachments().get(10), Some(&1));
    // A lost "detach" cannot exist: the next declaration omits 11.
    assert!(l.heartbeat(1, Role::Relay, &hb(&[(10, 1)]), 105));
    assert!(!l.attachments().contains_key(11));
    // Re-declaring the same set changes nothing.
    assert!(!l.heartbeat(1, Role::Relay, &hb(&[(10, 1)]), 110));
}

#[test]
fn a_move_is_won_by_the_most_recent_declaration() {
    let mut l = Leases::new();
    l.heartbeat(1, Role::Relay, &hb(&[(10, 1)]), 100);
    // Client moves to relay 2; relay 1's stale session still lists it.
    l.heartbeat(2, Role::Relay, &hb(&[(10, 1)]), 110);
    l.heartbeat(1, Role::Relay, &hb(&[(10, 1)]), 115);
    assert_eq!(l.attachments().get(10), Some(&2), "newer declaration wins even while the old repeats");
    // Relay 1's stale session dies; nothing to detach, it just stops.
    l.heartbeat(1, Role::Relay, &hb(&[]), 120);
    assert_eq!(l.attachments().get(10), Some(&2));
    // The client bounces back to relay 1 with a *new* session.
    l.heartbeat(1, Role::Relay, &hb(&[(10, 2)]), 130);
    assert_eq!(l.attachments().get(10), Some(&1), "a new session id is a new declaration");
}

#[test]
fn control_leases_expiring_do_not_detach_anyone() {
    let mut l = Leases::new();
    l.heartbeat(1, Role::Relay, &hb(&[(10, 1)]), 100);
    l.seen(10, 100);
    let mut gone = l.expire(200, 15);
    gone.sort();
    assert_eq!(gone, vec![1, 10]);
    assert!(!l.is_online(1) && !l.is_online(10));
    // Neither the relay's nor the client's silence to *us* changes the
    // fact that the relay holds the client's session.
    assert_eq!(l.attachments().get(10), Some(&1));
    // The relay stops declaring it: now it is gone.
    l.heartbeat(1, Role::Relay, &hb(&[]), 300);
    assert!(!l.attachments().contains_key(10));
    // Explicit removal drops claims at once.
    l.heartbeat(1, Role::Relay, &hb(&[(10, 1)]), 400);
    l.remove(10);
    assert!(!l.attachments().contains_key(10));
}

#[test]
fn explicit_removal_forgets_everything() {
    let mut l = Leases::new();
    l.heartbeat(1, Role::Relay, &hb(&[(10, 1)]), 100);
    l.remove_relay(1);
    assert!(l.attachments().is_empty());
    assert!(!l.is_online(1));
}

#[test]
fn reports_and_client_facts_are_recorded() {
    let mut l = Leases::new();
    let mut h = hb(&[]);
    h.gen = 42;
    h.digest = 7;
    h.attached_to = Some(1);
    assert!(!l.heartbeat(10, Role::Client, &h, 100));
    assert_eq!(l.report(10).unwrap().gen, 42);
    assert_eq!(l.attached_to(10), Some(1));
    assert_eq!(l.online_since(10), Some(100));
    l.seen(10, 150);
    assert_eq!(l.online_since(10), Some(100), "still the same online period");
}

// ---- registry ----

#[test]
fn generation_survives_restart_and_a_busy_predecessor() {
    let mut r = Registry::new();
    let g0 = r.initial_gen(1_000_000);
    assert_eq!(g0, 1_000_000, "fresh registry starts at the clock");
    assert!(r.note_gen(g0), "first use passes the mark");
    // The predecessor handed out many generations in little wall time.
    let busy = g0 + 5_000;
    r.note_gen(busy - 1);
    r.note_gen(busy);
    assert!(r.gen_hwm > busy);
    // A restart one millisecond later must not reuse anything.
    assert!(r.initial_gen(1_000_001) > busy);
    assert!(r.initial_gen(1_000_001) >= r.gen_hwm);
}

#[test]
fn names_get_assigned_ids_that_are_never_reused() {
    let mut r = Registry::new();
    let a = r.member_by_name_mut("a", Role::Client, 1).node_id;
    let b = r.member_by_name_mut("b", Role::Client, 1).node_id;
    assert!(a != 0 && b != 0 && a != b);
    assert_eq!(r.member_by_name_mut("a", Role::Client, 2).node_id, a, "a name keeps its id");
    assert_eq!(r.id_of("b"), Some(b));
    r.remove_member(a);
    let c = r.member_by_name_mut("c", Role::Client, 5).node_id;
    assert!(c > b && c != a, "removed ids are not recycled");
}

#[test]
fn owners_are_age_ordered_and_skip_disabled() {
    let cidr = net("192.168.1.0/24");
    let mut r = Registry::new();
    r.member_mut(1, "old", Role::Relay, 1).routes.push(RouteReg { cidr, first_granted_unix: 100 });
    r.member_mut(2, "new", Role::Relay, 1).routes.push(RouteReg { cidr, first_granted_unix: 200 });
    r.member_mut(3, "off", Role::Relay, 1).routes.push(RouteReg { cidr, first_granted_unix: 50 });
    r.member_mut(3, "off", Role::Relay, 1).disabled = true;
    let owners = r.resolve_owners();
    assert_eq!(owners.len(), 1);
    assert_eq!(owners[0].1.iter().map(|(n, _)| *n).collect::<Vec<_>>(), vec![1, 2]);
}

#[test]
fn a_network_is_minted_its_own_identity() {
    let (a, b) = (Registry::new(), Registry::new());
    assert_eq!(a.network_uuid.len(), 36);
    assert_ne!(a.network_uuid, b.network_uuid);
}

// ---- keys ----

#[test]
fn secrets_are_long_random_and_url_safe() {
    let a = generate_secret();
    let b = generate_secret();
    assert_ne!(a, b);
    assert_eq!(a.len(), 43);
    assert!(a.chars().all(|c| c.is_ascii_alphanumeric() || c == '-' || c == '_'));
}

#[test]
fn generates_then_reloads_same_key() {
    let k1 = Keyring::from_stored(vec![Keyring::generate(1000)]).unwrap();
    let kid1 = k1.active().0.to_string();
    let infos1 = k1.key_infos();
    let stored = k1.keys.into_iter().map(|(k, _)| k).collect();
    let k2 = Keyring::from_stored(stored).unwrap();
    let kid2 = k2.active().0.to_string();
    assert_eq!(kid1, kid2);
    let infos2 = k2.key_infos();
    assert_eq!(infos1.len(), infos2.len());
    for (a, b) in infos1.iter().zip(&infos2) {
        assert_eq!((&a.kid, &a.key, &a.state), (&b.kid, &b.key, &b.state));
    }
}

#[test]
fn a_public_key_is_the_one_of_its_seed() {
    // The first test vector of RFC 8032: the seed and its public key.
    let seed: Vec<u8> = vec![
        0x9d, 0x61, 0xb1, 0x9d, 0xef, 0xfd, 0x5a, 0x60, 0xba, 0x84, 0x4a, 0xf4, 0x92, 0xec, 0x2c,
        0xc4, 0x44, 0x49, 0xc5, 0x69, 0x7b, 0x32, 0x69, 0x19, 0x70, 0x3b, 0xac, 0x03, 0x1c, 0xae,
        0x7f, 0x60,
    ];
    let public: Vec<u8> = vec![
        0xd7, 0x5a, 0x98, 0x01, 0x82, 0xb1, 0x0a, 0xb7, 0xd5, 0x4b, 0xfe, 0xd3, 0xc9, 0x64, 0x07,
        0x3a, 0x0e, 0xe1, 0x72, 0xf3, 0xda, 0xa6, 0x23, 0x25, 0xaf, 0x02, 0x1a, 0x68, 0xf7, 0x07,
        0x51, 0x1a,
    ];
    let ring = Keyring::from_stored(vec![Keyring::first_key(&seed, 1000)]).unwrap();
    assert_eq!(ring.active().1, &seed);
    assert_eq!(ring.verifying_keys()[0].1, public);
}

#[test]
fn a_broken_key_is_refused() {
    let mut k = Keyring::generate(1000);
    k.secret = "not base64!".to_string();
    assert!(Keyring::from_stored(vec![k]).is_err());
    let mut k = Keyring::generate(1000);
    k.secret = "AAAA".to_string();
    assert!(Keyring::from_stored(vec![k]).is_err());
}

#[test]
fn an_address_that_was_configured_for_another_is_not_kept() {
    let mut c = ipam_cfg();
    prefer(&mut c, "c2", "10.99.1.1");
    let mut reg = Registry::new();
    hold(&mut reg, 1, "c1", 1, "10.99.1.1");
    let got = allocate(&c, &mut reg, "c1", None, None).unwrap();
    assert_eq!(got.ip4, Some(v4("10.99.1.2")));
    // Where it is nobody else's, it is kept.
    let mut reg = Registry::new();
    hold(&mut reg, 1, "c2", 1, "10.99.1.1");
    assert_eq!(allocate(&c, &mut reg, "c2", None, None).unwrap().ip4, Some(v4("10.99.1.1")));
}

#[test]
fn an_owner_that_withdraws_its_prefix_loses_it_at_once() {
    let (c, mut reg) = (dir_cfg(), registry_with_two_registrants());
    let mut d = Directory::with_hold_down(60);
    d.set_online("new", true, 1000);
    d.recompute(&c, &reg, 1000);
    d.set_online("old", true, 1100);
    d.recompute(&c, &reg, 1101);
    assert_eq!(lan_owner(&d), "new", "the hold-down protects an owner that registers");
    reg.member_by_name_mut("new", Role::Relay, 1).routes.clear();
    d.recompute(&c, &reg, 1102);
    assert_eq!(lan_owner(&d), "old");

    // A disabled owner loses it likewise.
    let mut reg = registry_with_two_registrants();
    let mut d = Directory::with_hold_down(60);
    d.set_online("new", true, 1000);
    d.recompute(&c, &reg, 1000);
    d.set_online("old", true, 1100);
    reg.member_by_name_mut("new", Role::Relay, 1).disabled = true;
    d.recompute(&c, &reg, 1102);
    assert_eq!(lan_owner(&d), "old");
    reg.member_by_name_mut("old", Role::Relay, 1).disabled = true;
    d.recompute(&c, &reg, 1103);
    assert_eq!(d.owner(&net("192.168.1.0/24")), None);
}

#[test]
fn addresses_go_round_before_one_comes_again() {
    let taken = vec![101];
    let mut cursor = 2;
    let mut seen = Vec::new();
    for _ in 0..4 {
        let (ip, next) = scan_from_cursor(4, 100, &taken, cursor).unwrap();
        seen.push(ip);
        cursor = next;
    }
    assert_eq!(seen, vec![102, 103, 100, 102]);
}

#[test]
fn a_registration_beyond_what_is_configured_is_warned_of() {
    let reg = registry_with_two_registrants();
    let mut c = dir_cfg();
    assert!(config_matches_registry(&c, &reg).is_empty());
    let warning = |name: &str| {
        format!(
            "member {name} holds registration 192.168.1.0/24 no longer allowed by config \
             (kept until it re-joins; renewal will drop it)"
        )
    };

    // A wider prefix permits it, a narrower one that starts alike does not.
    c.relays.insert("old".to_string(), relay("1.2.3.4:1", &["192.168.0.0/16"]));
    c.relays.insert("new".to_string(), relay("5.6.7.8:1", &["192.168.1.0/25"]));
    assert_eq!(config_matches_registry(&c, &reg), vec![warning("new")]);

    // A member that is gone from the configuration may hold nothing.
    c.relays = NameMap::new();
    assert_eq!(config_matches_registry(&c, &reg), vec![warning("old"), warning("new")]);
}

#[test]
fn a_member_draws_from_its_pool() {
    let mut c = ipam_cfg();
    c.cidrs = vec![net("10.99.0.0/16"), net("fd99::/64")];
    c.pools.insert("desk".to_string(), PoolCfg { cidr: net("10.99.1.0/24") });
    c.pools.insert("six".to_string(), PoolCfg { cidr: net("fd99::100:0/112") });
    let tie = |c: &mut NetworkConfig, name: &str, pool: &str| {
        let mut m = c.clients.remove(name).unwrap();
        m.pool = Some(pool.to_string());
        c.clients.insert(name.to_string(), m);
    };
    tie(&mut c, "c1", "desk");
    tie(&mut c, "c2", "six");
    let mut reg = Registry::new();
    let g = allocate(&c, &mut reg, "c1", None, None).unwrap();
    assert_eq!((g.ip4, g.ip6), (Some(v4("10.99.1.1")), Some(v6("fd99::1"))));
    let g = allocate(&c, &mut reg, "c2", None, None).unwrap();
    assert_eq!((g.ip4, g.ip6), (Some(v4("10.99.0.1")), Some(v6("fd99::100:1"))));
    // A pool goes round on its own.
    let g = allocate(&c, &mut reg, "c1", None, None).unwrap();
    assert_eq!(g.ip4, Some(v4("10.99.1.2")));
    assert_eq!(reg.pool_cursors.len(), 2);
}

#[test]
fn a_range_is_handed_out_whole_and_then_nothing() {
    let mut taken = Vec::new();
    let mut cursor = 3;
    let mut seen = Vec::new();
    while let Some((ip, next)) = scan_from_cursor(5, 100, &taken, cursor) {
        seen.push(ip);
        taken.push(ip);
        cursor = next;
        if seen.len() == 3 {
            // The first is released: what comes next is another all the same.
            let (ip, _) = scan_from_cursor(5, 100, &taken[1..].to_vec(), cursor).unwrap();
            assert_eq!(ip, 101);
        }
    }
    assert_eq!(seen, vec![103, 104, 100, 101, 102]);
}

#[test]
fn a_hash_that_asks_for_too_many_lanes_accepts_nothing() {
    let h = hash_password("pw").unwrap();
    assert!(verify_password("pw", &h));
    for lanes in ["4294967295", "536870912", "100000000"] {
        assert!(!verify_password("pw", &h.replace("p=1", &format!("p={lanes}"))), "{lanes}");
    }
    assert!(!verify_password("pw", &h.replace("p=1", "p=99999999")));
}

#[test]
fn an_ipv4_address_is_four_plain_numbers() {
    assert_eq!(v4("1.2.3.4"), 0x0102_0304);
    assert_eq!(v4("255.255.255.255"), u32::MAX);
    for bad in ["01.2.3.4", " 1.2.3.4", "1.2.3", "1.2.3.4.5", "1.2.3.256", "1.2.3.", "+1.2.3.4", ""] {
        assert!(IpAddr::parse(bad).is_none(), "{bad:?}");
    }
}
