use nqvpn::client_config::{d_state, ClientConfig, TokenFacts, TokenSource};
use nqvpn::device::{address_changes, local_prefixes, packet_from_device, Interface, SwappableTun};
use nqvpn::engine::{
    Counters, Engine, FrameKind, HandshakeStep, Inbound, Outbound, PairState, RoutedHeader,
    Unsealed,
};
use nqvpn::follower::{on_push, Downstream, Step};
use nqvpn::guard::{lock_name, record_line, refusal_text};
use nqvpn::join::JoinResponse;
use nqvpn::member::{JoinBackoff, Membership, MtuReporter, SnapshotAssembly};
use nqvpn::net::{IpAddr, IpNet};
use nqvpn::peers::PeerTable;
use nqvpn::probe::{payload_of, request_text};
use nqvpn::proto::{NetworkMtu, PeerInfo, RelayEntry, Role, Snapshot};
use nqvpn::reconciler::ClientReconciler;
use nqvpn::routeset::{RecordingProgrammer, RouteSet};
use nqvpn::uplink::{
    choose_relay, reconsider, retry_delay, server_name, status_line, Attachment, RecordingSink,
    RelayUplink, Uplink, UplinkEvent, UplinkManager,
};

fn net(s: &str) -> IpNet {
    IpNet::parse(s).unwrap()
}

fn ip(s: &str) -> IpAddr {
    IpAddr::parse(s).unwrap()
}

// ---- configuration ----

fn tok() -> TokenFacts {
    TokenFacts {
        coordinator: "https://coord.example:8443".to_string(),
        secret: "s".to_string(),
        fp: None,
    }
}

#[test]
fn a_token_is_all_it_takes() {
    let c = ClientConfig { token: Some("nqv1.abc".to_string()), ..ClientConfig::default() };
    assert!(!c.trust_any_cert, "verification is the default now");
    match c.token(None).unwrap() {
        TokenSource::Text(t) => assert_eq!(t, "nqv1.abc"),
        TokenSource::File(f) => panic!("not a file: {f}"),
    }
    let m = c.member(&tok());
    assert_eq!(m.coordinator, "https://coord.example:8443");
    assert_eq!(m.secret, "s");
}

#[test]
fn the_command_line_wins_and_no_token_is_an_error() {
    let c = ClientConfig::default();
    assert!(c.token(None).is_err());
    match c.token(Some("nqv1.cli")).unwrap() {
        TokenSource::Text(t) => assert_eq!(t, "nqv1.cli"),
        TokenSource::File(f) => panic!("not a file: {f}"),
    }
    let m = c.member(&tok());
    assert_eq!(m.secret, "s");
    // Verification is the default; a real token from the UI carries the
    // coordinator's fingerprint (this bare test token has none).
    assert!(!m.tls.trust_any_cert);
    assert!(m.tls.pinned_fps.is_empty());
    assert_eq!(c.state_dir, d_state());
}

#[test]
fn full_config_parses() {
    let c = ClientConfig {
        token_file: Some("/etc/nqvpn/laptop.token".to_string()),
        trust_any_cert: false,
        ca: Some("/etc/nqvpn/ca.pem".to_string()),
        tun_name: Some("nqvpn0".to_string()),
        state_dir: "/tmp/x".to_string(),
        ..ClientConfig::default()
    };
    assert!(!c.trust_any_cert);
    assert_eq!(c.tls().ca_pem, Some("/etc/nqvpn/ca.pem".to_string()));
    match c.token(None).unwrap() {
        TokenSource::File(f) => assert_eq!(f, "/etc/nqvpn/laptop.token"),
        TokenSource::Text(t) => panic!("not a token: {t}"),
    }
}

#[test]
fn a_staged_fingerprint_follows_the_token_s_own() {
    let c = ClientConfig {
        coordinator_fp: vec!["sha256:next".to_string()],
        ..ClientConfig::default()
    };
    let t = TokenFacts { fp: Some("sha256:now".to_string()), ..tok() };
    assert_eq!(c.member(&t).tls.pinned_fps, vec!["sha256:now", "sha256:next"]);
}

// ---- one endpoint per network ----

#[test]
fn a_second_endpoint_on_the_same_network_is_refused() {
    let held = record_line(7, "relay aws");
    let msg = refusal_text("acme-prod", &held, "/run/nqvpn-acme-prod.lock");
    assert!(msg.contains("already running"), "{msg}");
    // Naming the holder is the difference between a useful error and a
    // puzzle.
    assert!(msg.contains("relay aws"), "message must name the holder: {msg}");
    // And it must say what to do, not merely that something is wrong.
    assert!(msg.contains("want_vpn_ip = false"), "{msg}");
    assert!(msg.ends_with("Lock: /run/nqvpn-acme-prod.lock"), "{msg}");
    assert!(refusal_text("n", " \n", "p").contains("(unknown)"));
}

#[test]
fn different_networks_do_not_conflict() {
    assert_ne!(lock_name("acme-prod"), lock_name("other-net"));
    assert_eq!(lock_name("acme-prod"), "nqvpn-acme-prod.lock");
}

#[test]
fn a_leftover_file_does_not_block_startup() {
    // What the new holder writes names it, and nobody before it.
    let contents = record_line(41, "client a");
    assert_eq!(contents, "pid 41 — client a\n");
    assert!(contents.contains("client a"), "{contents}");
    assert!(!contents.contains("ghost"), "{contents}");
}

#[test]
fn network_id_cannot_escape_the_lock_directory() {
    let name = lock_name("../../etc/evil");
    assert!(!name.contains('/'), "{name}");
    assert!(name.starts_with("nqvpn-"), "{name}");
    assert_eq!(name, "nqvpn-%00002e%00002e%00002f%00002e%00002e%00002fetc%00002fevil.lock");
    assert_eq!(lock_name("a_b"), "nqvpn-a_b.lock");
    assert_eq!(lock_name("a.b"), "nqvpn-a%00002eb.lock");
}

// ---- uplink ----

#[test]
fn send_without_a_connection_is_counted_not_panicked() {
    let mut up: RelayUplink<RecordingSink> = RelayUplink::new();
    assert!(!up.send(vec![1, 2, 3], 0));
    assert_eq!(up.drops, 1);
    assert!(!up.is_up());
}

#[test]
fn a_full_channel_counts_as_a_drop() {
    let mut up = RelayUplink::new();
    up.set(Some(RecordingSink::new(1)), Some((3, "home".to_string())));
    assert!(up.is_up());
    assert!(up.send(vec![1], 2));
    assert!(!up.send(vec![2], 0));
    assert_eq!(up.drops, 1);
    let sink = up.chan.as_ref().unwrap();
    assert_eq!(sink.packets, vec![(vec![1], 2, true), (vec![2], 0, false)]);
    up.set(None, None);
    assert!(!up.is_up() && up.attached_to.is_none());
}

#[test]
fn retries_are_tight_unless_refused() {
    let plain: Vec<u64> = (1..=6).map(|n| retry_delay(false, n)).collect();
    assert_eq!(plain, vec![1, 2, 4, 5, 5, 5]);
    let refused: Vec<u64> = (1..=8).map(|n| retry_delay(true, n)).collect();
    assert_eq!(refused, vec![1, 2, 4, 8, 16, 30, 30, 30]);
    assert_eq!(retry_delay(true, u32::MAX), 30);
}

fn relay(id: u32, name: &str) -> RelayEntry {
    RelayEntry {
        relay_id: id,
        name: name.to_string(),
        addr: format!("{name}.example:4444"),
        cert_fp: String::new(),
    }
}

#[test]
fn a_preferred_relay_is_a_preference() {
    let fleet = vec![relay(1, "a"), relay(2, "b"), relay(3, "c")];
    let all = vec![Some(30), Some(10), Some(10)];
    assert_eq!(choose_relay(&fleet, &all, Some("a")), Some(0), "preferred while it answers");
    assert_eq!(choose_relay(&fleet, &all, None), Some(1), "else the fastest, the first of equals");
    assert_eq!(choose_relay(&fleet, &all, Some("zz")), Some(1));
    assert_eq!(choose_relay(&fleet, &vec![None, None, Some(9)], Some("a")), Some(2));
    assert_eq!(choose_relay(&fleet, &vec![None, None, None], Some("a")), None);
    assert_eq!(choose_relay(&vec![], &vec![], None), None);
}

#[test]
fn a_client_leaves_a_zombie_and_returns_to_its_preference() {
    let entry = |id: u32, name: &str, addr: &str, fp: &str| RelayEntry {
        relay_id: id,
        name: name.to_string(),
        addr: addr.to_string(),
        cert_fp: fp.to_string(),
    };
    let home = entry(1, "home", "1.1.1.1:4", "sha256:a");
    let fleet = vec![entry(1, "home", "1.1.1.1:4", "sha256:a"), entry(2, "cloud", "2.2.2.2:4", "sha256:b")];
    assert_eq!(reconsider(&home, &fleet, None, false), Attachment::Keep, "no reason to move");
    assert_eq!(reconsider(&home, &fleet, Some("home"), true), Attachment::Keep);
    assert_eq!(reconsider(&home, &fleet, Some("cloud"), false), Attachment::Keep);
    assert_eq!(reconsider(&home, &fleet, Some("cloud"), true), Attachment::Preferred);
    assert_eq!(reconsider(&home, &fleet, Some("nope"), true), Attachment::Keep);
    let moved = vec![entry(1, "home", "3.3.3.3:4", "sha256:a")];
    assert_eq!(reconsider(&home, &moved, None, false), Attachment::Replaced);
    let taken = vec![entry(1, "home", "1.1.1.1:4", "sha256:c")];
    assert_eq!(reconsider(&home, &taken, Some("home"), true), Attachment::Replaced);
    // A relay that left the fleet ends the session itself.
    assert_eq!(reconsider(&home, &vec![], None, false), Attachment::Keep);
}

#[test]
fn a_long_session_clears_the_failures() {
    let mut m = UplinkManager::new();
    assert_eq!(m.on_event(UplinkEvent::NoCandidates), 2);
    assert_eq!(m.on_event(UplinkEvent::NoneReachable), 1);
    assert_eq!(m.on_event(UplinkEvent::AttachFailed), 2);
    assert_eq!(m.on_event(UplinkEvent::AttachFailed), 4);
    assert_eq!(m.on_event(UplinkEvent::Attached), 0);
    assert_eq!(m.on_event(UplinkEvent::Ended { after_secs: 30, closed: false }), 0);
    assert_eq!(m.failures, 0);
    assert_eq!(m.on_event(UplinkEvent::Ended { after_secs: 1, closed: true }), 1);
    assert_eq!(m.on_event(UplinkEvent::Ended { after_secs: 5, closed: true }), 0);
    assert_eq!(m.failures, 2);
    assert_eq!(
        (m.counters.attaches, m.counters.attach_failures, m.counters.uplink_ends),
        (1, 2, 3)
    );
    assert_eq!(m.on_event(UplinkEvent::NoClaims), 2);
}

#[test]
fn a_relay_is_dialed_by_its_bare_host() {
    assert_eq!(server_name("home.example:4444"), "home.example");
    assert_eq!(server_name("[2001:db8::1]:4444"), "2001:db8::1");
    assert_eq!(server_name("nothing"), "relay");
}

// ---- coordinator link ----

fn joined() -> JoinResponse {
    JoinResponse {
        network_id: "n1".to_string(),
        network_uuid: "u".to_string(),
        node_id: 9,
        name: "c1".to_string(),
        role: Role::Client,
        login_gen: 0,
        ip4: Some(0x0a63_0101),
        subnet4: Some(net("10.99.0.0/16")),
        ip6: None,
        subnet6: None,
        granted_cidrs: vec![],
        relays: vec![relay(1, "a")],
        relay_addr: None,
        preferred_relay: None,
        max_session_mbps: 0,
        mtu: 1350,
        heartbeat_secs: 5,
        transport: "datagram".to_string(),
        lanes: 0,
        control_port: 14433,
        coordinator_signing_keys: vec![],
    }
}

#[test]
fn a_join_becomes_a_membership() {
    let m = Membership::from(&joined(), "cred");
    assert_eq!((m.node_id, m.mtu, m.keepalive_secs, m.lanes), (9, 1350, 5, 1));
    assert_eq!(m.addresses, vec![net("10.99.1.1/32")]);
    assert_eq!(m.credential, "cred");
    assert_eq!(m.relays[0].name, "a");
    let both = JoinResponse { ip6: Some(1), lanes: 4, ..joined() };
    let m = Membership::from(&both, "cred");
    assert_eq!(m.addresses, vec![net("10.99.1.1/32"), net("::1/128")]);
    assert_eq!(m.lanes, 4);
}

#[test]
fn a_join_is_put_off_longer_each_time() {
    let mut b = JoinBackoff::new();
    let waits: Vec<u64> = (0..6).map(|_| b.failed(false)).collect();
    assert_eq!(waits, vec![1, 2, 4, 5, 5, 5]);
    let mut b = JoinBackoff::new();
    let waits: Vec<u64> = (0..8).map(|_| b.failed(true)).collect();
    assert_eq!(waits, vec![1, 2, 4, 8, 16, 30, 30, 30]);
    assert_eq!(b.failed(false), 5);
    assert_eq!(b.failures, 9);
}

fn peer(id: u32, prefix: &str, pubkey: &str) -> PeerInfo {
    PeerInfo {
        node_id: id,
        name: format!("n{id}"),
        role: Role::Client,
        prefixes: vec![net(prefix)],
        pubkey: pubkey.to_string(),
        online: true,
        login_gen: 0,
    }
}

#[test]
fn a_snapshot_is_complete_with_its_last_chunk() {
    let mut a = SnapshotAssembly::new();
    // One that breaks off is forgotten.
    assert!(a.on_chunk(0, 3, vec![peer(7, "10.0.0.7/32", "")]).is_none());
    assert!(a.on_chunk(0, 2, vec![peer(1, "10.0.0.1/32", "")]).is_none());
    let all = a.on_chunk(1, 2, vec![peer(2, "10.0.0.2/32", "")]).unwrap();
    assert_eq!(all.iter().map(|p| p.node_id).collect::<Vec<_>>(), vec![1, 2]);
    assert!(a.collected.is_empty());
}

#[test]
fn an_mtu_is_reported_when_it_changes() {
    let mut m = MtuReporter::new();
    assert!(!m.due(0));
    assert!(m.due(1300));
    assert!(!m.due(1300));
    assert!(m.due(1280));
    assert!(!m.due(0));
}

// ---- engine ----

fn packet(dst: [u8; 4]) -> Vec<u8> {
    let mut p = vec![0u8; 20];
    p[0] = 0x45;
    p[12..16].copy_from_slice(&[10, 99, 1, 1]);
    p[16..20].copy_from_slice(&dst);
    p
}

fn key(c: char) -> String {
    format!("{}=", c.to_string().repeat(43))
}

fn engine() -> Engine {
    let mut peers = PeerTable::new(1);
    peers.set_mine(vec![net("10.99.1.1/32")]);
    peers.upsert(peer(2, "10.99.1.2/32", &key('A')));
    Engine::new(1, "uuid".to_string(), peers, 1350, 1)
}

#[test]
fn a_packet_waits_for_its_handshake() {
    let mut e = engine();
    let p = packet([10, 99, 1, 2]);
    match e.outbound(&p) {
        Outbound::Handshake { peer, pubkey } => {
            assert_eq!(peer, 2);
            assert_eq!(pubkey, vec![0u8; 32]);
        }
        other => panic!("{other:?}"),
    }
    assert!(e.initiated(2, true));
    assert!(matches!(e.outbound(&p), Outbound::Wait));
    assert!(matches!(e.on_handshake(2), HandshakeStep::Finish));
    let waiting = e.finished(2, true);
    assert_eq!(waiting.len(), 2);
    assert!(matches!(e.outbound(&p), Outbound::Seal(2)));
    let frame = e.sealed(&Some((258, vec![9]))).unwrap();
    assert_eq!(frame, vec![0, 0, 0, 0, 0, 0, 1, 2, 9]);
    e.sent(true);
    assert_eq!(e.counters.sent, 1);
    assert_eq!((e.counters.handshakes_started, e.counters.handshakes_completed), (1, 1));
}

#[test]
fn every_drop_has_a_name() {
    let mut e = engine();
    assert!(matches!(e.outbound(&packet([8, 8, 8, 8])), Outbound::Dropped));
    assert_eq!(e.counters.drop_no_route, 1);
    assert!(matches!(e.outbound(&vec![0u8; 2000]), Outbound::Dropped));
    assert_eq!(e.counters.drop_oversize, 1);
    assert!(matches!(e.outbound(&packet([10, 99, 1, 1])), Outbound::LoopBack));
    assert_eq!(e.counters.looped_back, 1);
    assert!(matches!(e.inbound(None, &[]), Inbound::Dropped));
    let h = RoutedHeader { kind: FrameKind::Data, src_id: 2, dst_id: 1 };
    assert!(matches!(e.inbound(Some(h), &[1, 2]), Inbound::Dropped));
    assert!(e.counters.drop_malformed >= 1);
}

#[test]
fn what_is_unsealed_is_filtered() {
    let mut e = engine();
    e.sessions.insert(2, PairState { ready: true, initiator: true });
    let h = RoutedHeader { kind: FrameKind::Data, src_id: 2, dst_id: 1 };
    match e.inbound(Some(h), &[0, 0, 0, 0, 0, 0, 0, 7, 1, 2, 3]) {
        Inbound::Unseal { peer, ctr } => assert_eq!((peer, ctr), (2, 7)),
        other => panic!("{other:?}"),
    }
    let mut good = packet([10, 99, 1, 1]);
    good[12..16].copy_from_slice(&[10, 99, 1, 2]);
    assert_eq!(e.unsealed(2, Unsealed::Inner(good.clone())), Some(good));
    assert_eq!(e.counters.received, 1);
    assert_eq!(e.unsealed(2, Unsealed::Inner(packet([10, 99, 1, 1]))), None);
    assert_eq!(e.counters.drop_ingress, 1);
    assert_eq!(e.unsealed(2, Unsealed::Replay), None);
    assert_eq!(e.counters.drop_replay, 1);
}

#[test]
fn a_changed_key_ends_the_session() {
    let mut e = engine();
    e.sessions.insert(2, PairState { ready: true, initiator: true });
    e.apply_delta(vec![peer(2, "10.99.1.2/32", &key('A'))], &vec![]);
    assert!(e.sessions.is_ready(2), "the same key keeps it");
    e.apply_delta(vec![peer(2, "10.99.1.2/32", &key('B'))], &vec![]);
    assert!(!e.sessions.has(2));
    e.sessions.insert(2, PairState { ready: true, initiator: true });
    e.apply_delta(vec![], &vec![2]);
    assert!(!e.sessions.has(2) && e.peers.is_empty());
}

#[test]
fn a_view_replaces_everyone_and_ends_sessions_of_changed_keys() {
    let mut e = engine();
    e.sessions.insert(2, PairState { ready: true, initiator: true });
    let same = peer(2, "10.99.1.2/32", &key('A'));
    assert_eq!(e.apply_view(vec![same, peer(3, "10.99.1.3/32", &key('C'))]), vec![]);
    assert!(e.sessions.is_ready(2));
    assert_eq!(e.peers.len(), 2);
    assert_eq!(e.apply_view(vec![peer(2, "10.99.1.2/32", &key('B'))]), vec![2]);
    assert!(!e.sessions.has(2));
    assert_eq!(e.peers.len(), 1);
}

#[test]
fn a_client_follows_the_view() {
    let view = |members: Vec<PeerInfo>| Snapshot {
        gen: 1,
        members,
        attachments: vec![],
        relays: vec![],
        mtu: 1350,
        reserved_prefixes: vec![net("10.99.0.0/16")],
    };
    let mut c = ClientReconciler {
        engine: engine(),
        routes: RouteSet::new(RecordingProgrammer::new()),
        mine: vec![net("10.99.1.1/32")],
    };
    c.engine.sessions.insert(2, PairState { ready: true, initiator: true });
    let lan = || peer(3, "192.168.7.0/24", &key('C'));
    let first = view(vec![peer(2, "10.99.1.2/32", &key('A')), lan()]);
    let r = c.reconcile(first, &vec![], &vec![]);
    assert_eq!((r.rekeyed.len(), r.excluded.len(), r.failed), (0, 0, None));
    assert_eq!(c.routes.installed(), vec![net("10.99.0.0/16"), net("192.168.7.0/24")]);
    let asked = c.routes.programmer.calls.len();
    // The same view again changes nothing.
    c.reconcile(view(vec![peer(2, "10.99.1.2/32", &key('A')), lan()]), &vec![], &vec![]);
    assert_eq!(c.routes.programmer.calls.len(), asked);
    assert!(c.engine.sessions.is_ready(2));
    // Another key, and a LAN that is also the host's own.
    let next = view(vec![peer(2, "10.99.1.2/32", &key('B')), lan()]);
    let r = c.reconcile(next, &vec![net("192.168.7.0/24")], &vec![]);
    assert_eq!(r.rekeyed, vec![2]);
    assert_eq!(r.excluded[0].0, net("192.168.7.0/24"));
    assert_eq!(c.routes.installed(), vec![net("10.99.0.0/16")]);
    assert!(!c.engine.sessions.has(2));
}

#[test]
fn an_answer_is_sent_only_to_the_published_key() {
    let mut e = engine();
    let published = e.peers.pubkey_of(2);
    assert!(published.is_some());
    assert!(!e.responded(2, true, &Some(vec![7; 32]), true));
    assert_eq!(e.counters.drop_key_mismatch, 1);
    assert!(!e.responded(2, true, &None, true));
    assert!(!e.responded(2, false, &published, true));
    assert_eq!(e.counters.drop_seal_failed, 1);
    assert!(e.responded(2, true, &published, true));
    assert!(e.sessions.is_ready(2));
    assert_eq!(e.counters.handshakes_completed, 1);
}

#[test]
fn sessions_past_their_deadline_start_over() {
    let mut e = engine();
    e.sessions.insert(2, PairState { ready: true, initiator: true });
    e.sessions.insert(3, PairState { ready: false, initiator: true });
    e.expire_sessions(&vec![2, 3], &vec![]);
    assert!(!e.sessions.has(2));
    assert!(e.sessions.has(3), "a handshake in flight has no deadline of its own");
    e.expire_sessions(&vec![], &vec![3]);
    assert!(!e.sessions.has(3));
    assert_eq!(e.counters.handshake_timeouts, 1);
}

#[test]
fn counters_are_shown_by_name() {
    let e = engine();
    let line = e.status_line();
    assert!(line.starts_with("node=1 peers=1 "), "{line}");
    let line = status_line(&e, &Some("home".to_string()), 42, 1, 0);
    assert!(line.ends_with(" relay=Some(\"home\") gen=42 attaches=1 uplink_drops=0"), "{line}");
    let line = status_line(&e, &None, 0, 0, 3);
    assert!(line.ends_with(" relay=None gen=0 attaches=0 uplink_drops=3"), "{line}");
    assert_eq!(Counters::default().snapshot().len(), 15);
}

// ---- device ----

fn interface(name: &str, loopback: bool, addr: &str, mask: Option<&str>) -> Interface {
    Interface {
        name: name.to_string(),
        loopback,
        addr: Some(ip(addr)),
        netmask: mask.map(ip),
    }
}

#[test]
fn enumerates_without_loopback() {
    let v = local_prefixes(
        "no-such-device",
        &vec![
            interface("lo", true, "127.0.0.1", Some("255.0.0.0")),
            interface("eth0", false, "192.168.1.5", Some("255.255.255.0")),
            interface("odd", false, "127.0.0.2", None),
        ],
    );
    assert!(v.iter().all(|n| !n.addr.is_loopback()));
    assert_eq!(v, vec![net("192.168.1.0/24")]);
}

#[test]
fn our_own_device_and_link_local_addresses_are_left_out() {
    let v = local_prefixes(
        "tun0",
        &vec![
            interface("tun0", false, "10.99.1.1", Some("255.255.255.255")),
            interface("eth0", false, "fe80::1", Some("ffff:ffff:ffff:ffff::")),
            interface("eth0", false, "2001:db8::7", Some("ffff:ffff:ffff:ffff::")),
            interface("eth1", false, "172.16.5.9", None),
            interface("eth2", false, "172.16.5.9", None),
        ],
    );
    assert_eq!(v, vec![net("172.16.5.9/32"), net("2001:db8::/64")]);
}

#[test]
fn a_readdressed_device_changes_only_the_difference() {
    let (add, remove) = address_changes(
        &vec![net("10.99.1.1/32"), net("10.99.1.2/32")],
        &vec![net("10.99.1.2/32"), net("10.99.1.3/32")],
    );
    assert!(add.contains(&net("10.99.1.3/32")) || remove.contains(&net("10.99.1.3/32")));
    assert_eq!((add.len(), remove.len()), (1, 1));
    let (a, b) = address_changes(&vec![net("10.99.1.1/32")], &vec![net("10.99.1.1/32")]);
    assert!(a.is_empty() && b.is_empty());
}

#[test]
fn a_reader_is_handed_out_once_per_device() {
    let mut t = SwappableTun::new("tun0");
    assert_eq!(t.take_reader(), Some(&"tun0"));
    assert_eq!(t.take_reader(), None, "asking twice yields nothing");
    t.replace("tun1");
    assert_eq!(t.device(), &"tun1");
    assert_eq!(t.take_reader(), Some(&"tun1"));
    assert_eq!(packet_from_device(&[1, 2, 3, 4], 3), vec![1, 2, 3]);
}

// ---- probe ----

#[test]
fn a_request_counts_its_body_in_bytes() {
    assert_eq!(
        request_text("coord.example:18443", "/api/v1/join", "{\"é\":1}"),
        "POST /api/v1/join HTTP/1.1\r\nHost: coord.example\r\nContent-Type: application/json\r\n\
         Content-Length: 8\r\nConnection: close\r\n\r\n{\"é\":1}"
    );
}

#[test]
fn a_response_is_its_payload_or_an_error() {
    assert_eq!(payload_of("HTTP/1.1 200 OK\r\nA: b\r\n\r\n{}"), Ok("{}".to_string()));
    assert_eq!(
        payload_of("HTTP/1.1 401 Unauthorized\r\nA: 200 \r\n\r\nno"),
        Err("join failed: HTTP/1.1 401 Unauthorized\nno".to_string())
    );
    assert_eq!(payload_of("HTTP/1.1 200 OK"), Err("malformed HTTP response".to_string()));
}

// ---- the control session ----

fn routes(s: Step) -> Vec<String> {
    match s {
        Step::Routes(nets) => nets.iter().map(|n| n.to_text()).collect(),
        other => panic!("{other:?}"),
    }
}

#[test]
fn a_view_is_followed_once_its_last_part_is_there() {
    let mut e = engine();
    let mut a = SnapshotAssembly::new();
    let part = |i: u32, p: PeerInfo| Downstream::Chunk { chunk_i: i, chunk_n: 2, peers: vec![p] };
    // What a broken transfer left behind is dropped by the next first part.
    assert!(matches!(
        on_push(&mut e, &mut a, part(0, peer(9, "10.99.1.9/32", &key('A')))),
        Step::Nothing
    ));
    assert!(matches!(
        on_push(&mut e, &mut a, part(0, peer(3, "10.99.1.3/32", &key('A')))),
        Step::Nothing
    ));
    assert_eq!(e.peers.owner_of(&ip("10.99.1.2")), Some(2), "the old view still holds");
    let s = on_push(&mut e, &mut a, part(1, peer(4, "192.168.4.0/24", &key('A'))));
    assert_eq!(routes(s), vec!["10.99.1.3/32", "192.168.4.0/24"]);
    assert_eq!(e.peers.owner_of(&ip("10.99.1.2")), None);
    assert_eq!(e.peers.owner_of(&ip("192.168.4.7")), Some(4));
    assert!(a.collected.is_empty());
}

#[test]
fn every_other_push_has_its_own_step() {
    let mut e = engine();
    let mut a = SnapshotAssembly::new();
    let delta = Downstream::Delta {
        changed: vec![peer(5, "10.99.1.5/32", &key('A'))],
        removed: vec![2],
    };
    assert_eq!(routes(on_push(&mut e, &mut a, delta)), vec!["10.99.1.5/32"]);
    let mtu = Downstream::Mtu(NetworkMtu { mtu: 1280, limited_by: "r1".to_string() });
    match on_push(&mut e, &mut a, mtu) {
        Step::Mtu(m) => assert_eq!((m.mtu, m.limited_by.as_str()), (1280, "r1")),
        other => panic!("{other:?}"),
    }
    match on_push(&mut e, &mut a, Downstream::Relays(vec![relay(1, "home")])) {
        Step::Relays(v) => assert_eq!(v[0].name, "home"),
        other => panic!("{other:?}"),
    }
    assert!(matches!(on_push(&mut e, &mut a, Downstream::Unknown), Step::Nothing));
}
