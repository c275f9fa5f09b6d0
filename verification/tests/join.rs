use nqvpn::admin::{MemberSpec, NetworkSpec};
use nqvpn::auth::Sessions;
use nqvpn::config::{
    AdminCfg, CoordConfig, LimitsCfg, ListenCfg, MemberCfg, NetworkConfig, PoolCfg, SettingsCfg,
    StateCfg,
};
use nqvpn::coordinator::AppState;
use nqvpn::error::ApiError;
use nqvpn::join::{JoinRequest, JoinResponse, Joined};
use nqvpn::namemap::NameMap;
use nqvpn::net::{IpAddr, IpNet};
use nqvpn::proto::Role;
use nqvpn::registry::Registry;
use nqvpn::signer::Keyring;
use nqvpn::state::{NetState, ISS};
use nqvpn::status::{status_of, summary_of};
use std::collections::HashSet;

const NOW: u64 = 1_700_000_000;
const LANES: u8 = 8;

fn ipnet(s: &str) -> IpNet {
    IpNet::parse(s).unwrap()
}

fn ip4(s: &str) -> u32 {
    match IpAddr::parse(s).unwrap() {
        IpAddr::V4(a) => a,
        IpAddr::V6(_) => panic!("not IPv4: {s}"),
    }
}

fn secret_of(name: &str) -> String {
    format!("s-{name}")
}

fn with_secret(name: &str) -> MemberCfg {
    let mut m = MemberCfg::default();
    m.secret = Some(secret_of(name));
    m
}

fn relay(name: &str, addr: &str) -> MemberCfg {
    let mut m = with_secret(name);
    m.relay_addr = Some(addr.to_string());
    m
}

fn empty_network(id: &str, cidrs: &[&str]) -> NetworkConfig {
    NetworkConfig {
        network_id: id.to_string(),
        cidrs: cidrs.iter().map(|s| ipnet(s)).collect(),
        pools: NameMap::new(),
        settings: SettingsCfg::default(),
        relays: NameMap::new(),
        clients: NameMap::new(),
    }
}

fn network() -> NetworkConfig {
    let mut c = empty_network("n1", &["10.99.0.0/16", "fd99::/64"]);
    c.pools.insert("default".to_string(), PoolCfg { cidr: ipnet("10.99.1.0/24") });
    c.pools.insert("v6".to_string(), PoolCfg { cidr: ipnet("fd99::1:0/112") });
    c.settings.credential_ttl_mins = 15;
    let mut r1 = relay("r1", "1.2.3.4:4444");
    r1.local_cidrs = vec![ipnet("192.168.1.0/24")];
    r1.preferred_ip4 = Some(ip4("10.99.0.1"));
    c.relays.insert("r1".to_string(), r1);
    c.relays.insert("r2".to_string(), relay("r2", "5.6.7.8:4444"));
    c.relays.insert("r3".to_string(), relay("r3", "auto:4444"));
    c.clients.insert("c1".to_string(), with_secret("c1"));
    c.clients.insert("nosecret".to_string(), MemberCfg::default());
    c.clients.insert("auto".to_string(), with_secret("auto"));
    c
}

struct Harness {
    state: AppState,
    now: u64,
}

fn harness_with(cfg: NetworkConfig) -> Harness {
    let coord = CoordConfig {
        listen: ListenCfg { api: "127.0.0.1:0".to_string(), quic: String::new(), public_url: None },
        tls: None,
        state: StateCfg { dir: "unused".to_string() },
        admin: AdminCfg {
            bearer_token: None,
            bearer_token_file: None,
            user: None,
            password_hash: None,
            session_hours: 12,
        },
        limits: LimitsCfg::default(),
    };
    nqvpn::validate::validate_network(&cfg, LANES, &vec![]).unwrap();
    let mut state = AppState {
        coord,
        admin_token: Some("tok".to_string()),
        networks: NameMap::new(),
        keyring: Keyring::from_stored(vec![Keyring::generate(NOW)]).unwrap(),
        join_rate: vec![],
        auth: Sessions::new(),
        control_port: 14433,
    };
    let id = cfg.network_id.clone();
    let ns = NetState::new(cfg, Registry::new(), NOW * 1000);
    state.add_network(id, ns);
    Harness { state, now: NOW }
}

fn harness() -> Harness {
    harness_with(network())
}

fn net(h: &Harness) -> &NetState {
    h.state.networks.get("n1").unwrap()
}

fn net_mut(h: &mut Harness) -> &mut NetState {
    let i = h.state.networks.position("n1").unwrap();
    &mut h.state.networks.entries[i].1
}

/// 32 equal bytes in base64, spelled by hand.
fn pubkey(seed: u8) -> String {
    const ALPHABET: &[u8; 64] = b"ABCDEFGHIJKLMNOPQRSTUVWXYZabcdefghijklmnopqrstuvwxyz0123456789+/";
    let bytes = [seed; 32];
    let mut out = String::new();
    for chunk in bytes.chunks(3) {
        let n = chunk.iter().fold(0u32, |n, b| n << 8 | *b as u32) << (8 * (3 - chunk.len()));
        for k in 0..4 {
            if k <= chunk.len() {
                out.push(ALPHABET[(n >> (18 - 6 * k)) as usize & 63] as char);
            } else {
                out.push('=');
            }
        }
    }
    out
}

fn fp(seed: u8) -> String {
    format!("sha256:{}", format!("{seed:02x}").repeat(32))
}

fn name_of(node_id: u32) -> String {
    match node_id {
        1 => "r1".to_string(),
        2 => "r2".to_string(),
        3 => "r3".to_string(),
        10 => "c1".to_string(),
        11 => "nosecret".to_string(),
        99 => "ghost".to_string(),
        n => format!("c{n}"),
    }
}

fn req(node_id: u32) -> JoinRequest {
    JoinRequest {
        secret: secret_of(&name_of(node_id)),
        pubkey: pubkey(node_id as u8),
        cert_fingerprint: fp(node_id as u8),
    }
}

fn join_full(h: &mut Harness, r: &JoinRequest, from: &str) -> Result<Joined, ApiError> {
    let now = h.now;
    h.state.join(r, from, true, now)
}

fn join(h: &mut Harness, r: &JoinRequest, from: &str) -> Result<JoinResponse, ApiError> {
    join_full(h, r, from).map(|j| j.response)
}

fn code(r: Result<JoinResponse, ApiError>) -> String {
    r.unwrap_err().code.as_str().to_string()
}

fn blank() -> MemberSpec {
    MemberSpec::from_cfg(&MemberCfg::default())
}

fn spec_of(h: &Harness, name: &str) -> MemberSpec {
    MemberSpec::from_cfg(net(h).cfg.member_by_name(name).unwrap().0)
}

fn update(h: &mut Harness, name: &str, spec: &MemberSpec) -> Result<nqvpn::admin::Change, ApiError> {
    let now = h.now;
    h.state.update_member("n1", name, spec, LANES, &vec![], now)
}

/// The operator edits a member.
fn configure(h: &mut Harness, name: &str, f: impl FnOnce(&mut MemberSpec)) {
    let mut spec = spec_of(h, name);
    f(&mut spec);
    update(h, name, &spec).unwrap();
}

#[test]
fn client_join_happy_path_and_offline_verification() {
    let mut h = harness();
    let j = join_full(&mut h, &req(10), "1.1.1.1").unwrap();
    let (resp, claims) = (j.response, j.claims);
    assert!(resp.ip4.is_some());
    assert!(resp.ip6.is_some());
    assert_eq!(resp.subnet4, Some(ipnet("10.99.0.0/16")));
    assert_eq!(resp.mtu, 1350);
    assert_eq!(resp.name, "c1");
    assert_eq!(resp.control_port, 14433);
    assert_eq!(resp.heartbeat_secs, 5);
    assert_eq!(resp.login_gen, 0);
    assert!(resp.relays.is_empty(), "no relay has joined yet");
    assert_eq!(resp.coordinator_signing_keys.len(), 1);

    // What the credential vouches for.
    assert_eq!(claims.iss, ISS);
    assert_eq!(claims.network_id, "n1");
    assert_eq!(claims.network_uuid, resp.network_uuid);
    assert_eq!(claims.sub, "c1");
    assert_eq!(claims.node_id, resp.node_id, "the id the coordinator assigned");
    assert_eq!(claims.cert_fp, fp(10));
    assert_eq!(claims.iat, NOW);
    assert_eq!(claims.exp, NOW + 15 * 60);
    assert!(claims.prefixes.contains(&format!("{}/32", IpAddr::V4(resp.ip4.unwrap()).to_text())));
}

#[test]
fn rejoin_from_the_same_machine_is_idempotent_and_sticky() {
    let mut h = harness();
    let a = join(&mut h, &req(10), "1.1.1.1").unwrap();
    let b = join(&mut h, &req(10), "1.1.1.1").unwrap();
    assert_eq!(a.node_id, b.node_id);
    assert_eq!(a.ip4, b.ip4);
    assert_eq!(a.ip6, b.ip6);
    assert_eq!(a.login_gen, b.login_gen, "same keys: not a replacement");
    assert_eq!(a.network_uuid, b.network_uuid);
}

#[test]
fn a_different_machine_replaces_the_previous_instance() {
    let mut h = harness();
    let a = join(&mut h, &req(10), "1.1.1.1").unwrap();
    let mut other = req(10);
    other.pubkey = pubkey(200);
    other.cert_fingerprint = fp(200);
    let b = join(&mut h, &other, "9.9.9.9").unwrap();
    assert_eq!(b.node_id, a.node_id, "same identity");
    assert_eq!(b.ip4, a.ip4, "same address: identity, not declaration");
    assert_eq!(b.login_gen, a.login_gen + 1, "but a new login generation");
    let ns = net(&h);
    let rec = ns.registry.by_name("c1").unwrap();
    assert_eq!(rec.pubkey.as_deref(), Some(pubkey(200).as_str()), "latest keys are recorded, never judged");
    assert_eq!(rec.replaced_from.as_deref(), Some("1.1.1.1"));
    assert!(rec.replaced_unix.is_some());
    let published = ns.directory.peers.iter().find(|p| p.node_id == a.node_id).unwrap();
    assert_eq!(published.login_gen, 1, "published so acceptors evict the old one");
}

#[test]
fn a_wrong_or_unknown_secret_is_indistinguishable_from_no_member() {
    let mut h = harness();
    let mut r = req(10);
    r.secret = "wrong".to_string();
    assert_eq!(code(join(&mut h, &r, "1.1.1.1")), "bad_credentials");
    assert_eq!(code(join(&mut h, &req(99), "1.1.1.1")), "bad_credentials");
    let mut r = req(10);
    r.secret = String::new();
    assert_eq!(code(join(&mut h, &r, "1.1.1.1")), "bad_credentials");
    // A member with no secret cannot join at all (nothing to present).
    assert_eq!(code(join(&mut h, &req(11), "1.1.1.1")), "bad_credentials");
}

#[test]
fn rotating_a_secret_evicts_the_old_one_immediately_and_survives_reload() {
    let mut h = harness();
    let a = join(&mut h, &req(10), "1.1.1.1").unwrap();
    let (rotated, _) = h.state.rotate_member("n1", "c1", NOW).unwrap();
    assert_eq!(code(join(&mut h, &req(10), "1.1.1.1")), "bad_credentials");
    let mut r = req(10);
    r.secret = rotated.clone();
    let b = join(&mut h, &r, "1.1.1.1").unwrap();
    assert_eq!(b.node_id, a.node_id, "same member");
    assert!(b.login_gen > a.login_gen, "every acceptor drops the old holder's sessions");
    // What is stored holds the new secret.
    let saved = h.state.export();
    assert_eq!(saved[0].clients.get("c1").unwrap().secret.as_deref(), Some(rotated.as_str()));
    // A member without a secret gets one by rotating.
    let (s, _) = h.state.rotate_member("n1", "nosecret", NOW).unwrap();
    let mut r = req(11);
    r.secret = s;
    assert!(join(&mut h, &r, "1.1.1.1").is_ok());
}

#[test]
fn a_member_created_by_the_operator_joins_with_its_token_only() {
    let mut h = harness();
    let mut spec = blank();
    spec.relay_addr = Some("auto:5555".to_string());
    spec.local_cidrs = vec![ipnet("172.20.5.0/24")];
    spec.preferred_ip4 = Some(ip4("10.99.0.7"));
    let secret = h.state.create_member("n1", "cloud-3", Role::Relay, &spec, LANES, &vec![]).unwrap();
    let (token, role) = h.state.member_token("n1", "cloud-3", "https://coord.example:8443").unwrap();
    assert_eq!(role, Role::Relay);
    assert_eq!(token.secret, secret);
    assert_eq!(token.coordinator, "https://coord.example:8443");

    let r = JoinRequest { secret, pubkey: pubkey(77), cert_fingerprint: fp(77) };
    let resp = join(&mut h, &r, "203.0.113.9").unwrap();
    assert_eq!(resp.role, Role::Relay);
    assert_eq!(resp.network_id, "n1");
    assert_eq!(resp.name, "cloud-3");
    assert_eq!(resp.ip4, Some(ip4("10.99.0.7")));
    assert_eq!(resp.subnet4, Some(ipnet("10.99.0.0/16")), "every assigned address has a containing tunnel CIDR");
    assert_eq!(resp.granted_cidrs, vec![ipnet("172.20.5.0/24")]);
    assert_eq!(resp.relay_addr.as_deref(), Some("203.0.113.9:5555"), "auto resolves to where it joined from");
    // And it is in the fleet at that address.
    let c = join(&mut h, &req(10), "1.1.1.1").unwrap();
    assert!(c.relays.iter().any(|r| r.name == "cloud-3" && r.addr == "203.0.113.9:5555"));
    // Names are unique; the creation is durable.
    assert!(h.state.create_member("n1", "cloud-3", Role::Client, &blank(), LANES, &vec![]).is_err());
    assert!(h.state.export()[0].relays.contains_key("cloud-3"));
}

#[test]
fn a_name_is_assigned_a_durable_id_at_first_join() {
    let mut h = harness();
    let a = join(&mut h, &req(10), "1.1.1.1").unwrap();
    let r = join(&mut h, &req(1), "1.1.1.1").unwrap();
    assert!(a.node_id != 0 && r.node_id != 0 && a.node_id != r.node_id);
    let again = join(&mut h, &req(10), "1.1.1.1").unwrap();
    assert_eq!(again.node_id, a.node_id, "durable across joins");
    let reg = &net(&h).registry;
    assert_eq!(reg.id_of("c1"), Some(a.node_id));
    assert_eq!(reg.by_id(a.node_id).unwrap().name, "c1");
}

#[test]
fn bad_keys_are_rejected() {
    let mut h = harness();
    let mut r = req(10);
    r.pubkey = "not-a-key".to_string();
    assert_eq!(code(join(&mut h, &r, "1.1.1.1")), "bad_request");
    let mut r = req(10);
    r.cert_fingerprint = "sha256:short".to_string();
    assert_eq!(code(join(&mut h, &r, "1.1.1.1")), "bad_request");
}

#[test]
fn a_client_cannot_be_configured_with_routes() {
    let mut h = harness();
    let mut spec = blank();
    spec.local_cidrs = vec![ipnet("192.168.5.0/24")];
    assert!(update(&mut h, "c1", &spec).is_err());
}

#[test]
fn relay_join_registers_routes_and_becomes_visible() {
    let mut h = harness();
    let resp = join(&mut h, &req(1), "1.1.1.1").unwrap();
    assert_eq!(resp.ip4, Some(ip4("10.99.0.1")), "config preferred honoured");
    assert_eq!(resp.granted_cidrs, vec![ipnet("192.168.1.0/24")]);

    let c = join(&mut h, &req(10), "1.1.1.1").unwrap();
    assert_eq!(c.relays.len(), 1);
    assert_eq!(c.relays[0].name, "r1");
    assert_eq!(c.relays[0].cert_fp, fp(1), "what the relay presented at its join");
    // The CIDR is registered network-wide even before anyone owns it.
    let owners = net(&h).registry.resolve_owners();
    assert!(owners.iter().any(|(p, _)| p.to_text() == "192.168.1.0/24"));
}

#[test]
fn a_join_applies_the_current_configuration_in_full() {
    let mut h = harness();
    let r = req(1);
    join(&mut h, &r, "1.1.1.1").unwrap();
    let age1 = net(&h).registry.by_name("r1").unwrap().routes[0].first_granted_unix;

    // Renewal with the same CIDR keeps its age.
    h.now += 2;
    join(&mut h, &r, "1.1.1.1").unwrap();
    assert_eq!(net(&h).registry.by_name("r1").unwrap().routes[0].first_granted_unix, age1);

    // The operator removes the prefix: withdrawn at the next join, not
    // "at the next renewal".
    configure(&mut h, "r1", |s| s.local_cidrs.clear());
    let resp = join(&mut h, &r, "1.1.1.1").unwrap();
    assert!(resp.granted_cidrs.is_empty());
    assert!(net(&h).registry.by_name("r1").unwrap().routes.is_empty());

    // Declaring it again is a fresh registration with a fresh age.
    h.now += 2;
    configure(&mut h, "r1", |s| s.local_cidrs = vec![ipnet("192.168.1.0/24")]);
    join(&mut h, &r, "1.1.1.1").unwrap();
    let age2 = net(&h).registry.by_name("r1").unwrap().routes[0].first_granted_unix;
    assert!(age2 > age1, "left and came back: young again");
}

#[test]
fn a_changed_preferred_address_is_honoured_and_the_old_one_released() {
    let mut h = harness();
    let a = join(&mut h, &req(10), "1.1.1.1").unwrap();
    configure(&mut h, "c1", |s| s.preferred_ip4 = Some(ip4("10.99.50.7")));
    let b = join(&mut h, &req(10), "1.1.1.1").unwrap();
    assert_eq!(b.ip4, Some(ip4("10.99.50.7")));
    assert_ne!(a.ip4, b.ip4);
    // The old address is free for someone else now.
    let freed = a.ip4;
    configure(&mut h, "r2", |s| s.preferred_ip4 = freed);
    assert_eq!(join(&mut h, &req(2), "1.1.1.1").unwrap().ip4, a.ip4);
    // Two members may not be configured with the same address.
    let mut clash = blank();
    clash.preferred_ip4 = a.ip4;
    assert!(update(&mut h, "auto", &clash).is_err());
    // Going headless releases everything; coming back allocates again.
    configure(&mut h, "c1", |s| {
        s.want_vpn_ip = Some(false);
        s.preferred_ip4 = None;
    });
    assert!(join(&mut h, &req(10), "1.1.1.1").unwrap().ip4.is_none());
    configure(&mut h, "c1", |s| s.want_vpn_ip = None);
    assert!(join(&mut h, &req(10), "1.1.1.1").unwrap().ip4.is_some());
}

#[test]
fn a_relay_address_is_whatever_the_operator_configured() {
    let mut h = harness();
    // Concrete: as configured. Auto: where the join came from.
    assert_eq!(join(&mut h, &req(1), "1.1.1.1").unwrap().relay_addr.as_deref(), Some("1.2.3.4:4444"));
    assert_eq!(join(&mut h, &req(3), "9.9.9.9").unwrap().relay_addr.as_deref(), Some("9.9.9.9:4444"));
    assert_eq!(join(&mut h, &req(3), "2001:db8::1").unwrap().relay_addr.as_deref(), Some("[2001:db8::1]:4444"));
    // A relay configured without an address cannot be created.
    assert!(h.state.create_member("n1", "r9", Role::Relay, &blank(), LANES, &vec![]).is_err());
}

#[test]
fn conflicting_prefixes_are_refused_at_configuration_time() {
    let mut h = harness();
    let mut spec = spec_of(&h, "r2");
    spec.local_cidrs = vec![ipnet("192.168.1.128/25")];
    let e = update(&mut h, "r2", &spec).unwrap_err();
    assert_eq!(e.code.as_str(), "bad_request");
    assert!(e.message.contains("overlaps"), "{}", e.message);
    spec.local_cidrs = vec![ipnet("10.99.7.0/24")];
    assert!(update(&mut h, "r2", &spec).is_err(), "tunnel space");
}

#[test]
fn overlapping_registration_age_resolves() {
    let mut h = harness();
    join(&mut h, &req(1), "1.1.1.1").unwrap();
    h.now += 2;
    configure(&mut h, "r2", |s| s.local_cidrs = vec![ipnet("192.168.1.0/24")]);
    join(&mut h, &req(2), "1.1.1.1").unwrap();
    let ns = net(&h);
    let owners = ns.registry.resolve_owners();
    assert_eq!(owners.len(), 1);
    assert_eq!(owners[0].1[0].0, ns.registry.id_of("r1").unwrap(), "older registration owns");
    assert_eq!(owners[0].1[1].0, ns.registry.id_of("r2").unwrap(), "younger is standby");
}

fn set_disabled(h: &mut Harness, name: &str, disabled: bool) {
    let reg = &mut net_mut(h).registry;
    let i = reg.index_of_name(name).unwrap();
    reg.members[i].disabled = disabled;
}

#[test]
fn disabled_member_rejected_then_enable_restores() {
    let mut h = harness();
    join(&mut h, &req(10), "1.1.1.1").unwrap();
    set_disabled(&mut h, "c1", true);
    assert_eq!(code(join(&mut h, &req(10), "1.1.1.1")), "client_disabled");
    set_disabled(&mut h, "c1", false);
    join(&mut h, &req(10), "1.1.1.1").unwrap();
}

#[test]
fn registry_survives_reload_including_the_generation_mark() {
    let mut h = harness();
    let a = join(&mut h, &req(10), "1.1.1.1").unwrap();
    let gen = net(&h).directory.revision;
    // What is stored after a join is the registry as it is now.
    let stored = &net(&h).registry;
    assert_eq!(stored.network_uuid, a.network_uuid);
    assert_eq!(stored.by_id(a.node_id).unwrap().ip4, a.ip4);
    assert_eq!(stored.by_id(a.node_id).unwrap().name, "c1");
    assert!(stored.gen_hwm > gen, "the high-water mark is ahead of anything handed out");
    assert!(stored.initial_gen(0) > gen, "a restart continues above the old generation");
}

#[test]
fn concurrent_joins_never_hand_out_the_same_address() {
    const N: usize = 24;
    let mut c = empty_network("n1", &["10.99.0.0/16"]);
    c.pools.insert("default".to_string(), PoolCfg { cidr: ipnet("10.99.1.0/24") });
    for i in 0..N {
        let name = format!("c{}", 100 + i);
        c.clients.insert(name.clone(), with_secret(&name));
    }
    let mut h = harness_with(c);
    let mut ips = HashSet::new();
    for i in 0..N {
        let r = join(&mut h, &req(100 + i as u32), "1.1.1.1").expect("join failed");
        assert!(ips.insert(r.ip4.unwrap()), "address handed out twice");
    }
    assert_eq!(ips.len(), N);
}

#[test]
fn rate_limit_kicks_in() {
    let mut h = harness();
    let mut r = req(10);
    r.secret = "wrong".to_string();
    let mut codes = Vec::new();
    for _ in 0..40 {
        codes.push(code(join(&mut h, &r, "2.2.2.2")));
    }
    assert!(
        codes.iter().any(|c| c == "rate_limited"),
        "expected the limiter to refuse some attempts, got {codes:?}"
    );
    // The next minute starts anew.
    h.now += 60;
    assert_eq!(code(join(&mut h, &r, "2.2.2.2")), "bad_credentials");
}

#[test]
fn headless_join_gets_no_address() {
    let mut h = harness();
    configure(&mut h, "c1", |s| s.want_vpn_ip = Some(false));
    let resp = join(&mut h, &req(10), "1.1.1.1").unwrap();
    assert!(resp.ip4.is_none());
    assert!(resp.subnet4.is_none());
}

#[test]
fn a_member_goes_through_its_whole_life() {
    let mut h = harness();
    let spec = NetworkSpec {
        network_id: "acme".to_string(),
        cidrs: vec![ipnet("10.9.0.0/16")],
        pools: NameMap::new(),
        settings: SettingsCfg::default(),
    };
    h.state.create_network(spec, LANES, &vec![], NOW * 1000).unwrap();
    let mut m = blank();
    m.relay_addr = Some("203.0.113.7:4444".to_string());
    m.local_cidrs = vec![ipnet("192.168.1.0/24")];
    m.preferred_ip4 = Some(ip4("10.9.0.1"));
    let secret = h.state.create_member("acme", "home", Role::Relay, &m, LANES, &vec![]).unwrap();
    let r = JoinRequest { secret: secret.clone(), pubkey: pubkey(7), cert_fingerprint: fp(7) };
    let j = join(&mut h, &r, "1.1.1.1").unwrap();
    assert_eq!((j.network_id.as_str(), j.name.as_str()), ("acme", "home"));
    assert_eq!(j.ip4, Some(ip4("10.9.0.1")));

    h.state.set_disabled("acme", "home", true, NOW).unwrap();
    let e = join(&mut h, &r, "1.1.1.1").unwrap_err();
    assert_eq!((e.status, e.code.as_str()), (403, "client_disabled"));
    h.state.set_disabled("acme", "home", false, NOW).unwrap();
    join(&mut h, &r, "1.1.1.1").unwrap();

    h.state.delete_member("acme", "home", NOW).unwrap();
    assert_eq!(code(join(&mut h, &r, "1.1.1.1")), "bad_credentials");
    assert_eq!(h.state.delete_member("acme", "home", NOW).unwrap_err().status, 404);
    h.state.delete_network("acme").unwrap();
    assert_eq!(h.state.delete_network("acme").unwrap_err().code.as_str(), "not_found");
}

#[test]
fn an_export_can_be_imported_again() {
    let mut h = harness();
    join(&mut h, &req(10), "1.1.1.1").unwrap();
    let saved = h.state.export();
    let stored = vec![None];
    let done = h.state.import(saved, stored, LANES, &vec![], NOW, NOW * 1000).unwrap();
    assert_eq!(done.len(), 1);
    assert_eq!(done[0].network_id, "n1");
    assert!(done[0].change.as_ref().unwrap().rejoin.is_empty(), "nothing changed, nobody re-joins");
    assert!(net(&h).registry.by_name("c1").is_some());
    let lost = h.state.export();
    h.state.delete_network("n1").unwrap();
    h.state.import(lost, vec![None], LANES, &vec![], NOW, NOW * 1000).unwrap();
    assert!(net(&h).cfg.clients.contains_key("c1"));
}

#[test]
fn an_edit_makes_only_the_edited_member_rejoin() {
    let mut h = harness();
    join(&mut h, &req(10), "1.1.1.1").unwrap();
    join(&mut h, &req(2), "1.1.1.1").unwrap();
    let mut spec = spec_of(&h, "c1");
    spec.preferred_relay = Some("r1".to_string());
    let change = update(&mut h, "c1", &spec).unwrap();
    assert_eq!(change.rejoin, vec!["c1"]);
}

#[test]
fn a_bad_name_is_refused() {
    let mut h = harness();
    for name in ["", "a b", "../x"] {
        let r = h.state.create_member("n1", name, Role::Client, &blank(), LANES, &vec![]);
        assert_eq!(r.unwrap_err().code.as_str(), "bad_request", "{name:?}");
    }
    assert_eq!(
        h.state.create_member("nope", "x", Role::Client, &blank(), LANES, &vec![]).unwrap_err().status,
        404
    );
}

#[test]
fn the_status_lists_everyone() {
    let mut h = harness();
    join(&mut h, &req(1), "1.1.1.1").unwrap();
    let s = status_of(net(&h), "n1", 0, NOW);
    assert_eq!(s.network_id, "n1");
    assert_eq!(s.members.len(), 6);
    let r1 = s.members.iter().find(|m| m.name == "r1").unwrap();
    assert_eq!(r1.ip4, Some(ip4("10.99.0.1")));
    assert_eq!(r1.registered_cidrs, vec![ipnet("192.168.1.0/24")]);
    // The registered prefix, then the member's two addresses.
    assert_eq!(s.prefix_table.len(), 3);
    assert_eq!(s.prefix_table[0].cidr, ipnet("192.168.1.0/24"));
    assert_eq!(s.prefix_table[0].owner, "(withdrawn)", "nobody is online");
    assert_eq!(s.prefix_table[0].standby, vec!["r1"]);
    assert_eq!(s.prefix_table[1].cidr, ipnet("10.99.0.1/32"));
    let sum = summary_of(net(&h), "n1");
    assert_eq!((sum.members_total, sum.members_online), (6, 0));
}
