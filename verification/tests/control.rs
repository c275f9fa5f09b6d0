use nqvpn::config::{MemberCfg, NetworkConfig, SettingsCfg};
use nqvpn::control::{
    close_session, liveness_sweep, on_message, open_session, opening, publish_relays_if_changed,
    recipients, relay_endpoints, verify_credential, Audience, Identity, Push, Upstream,
};
use nqvpn::directory::Directory;
use nqvpn::exits::{is_designated, ExitReadiness, ExitState};
use nqvpn::history::{in_grace, CatchUp, HeldView, History};
use nqvpn::join::{join_member, JoinRequest};
use nqvpn::namemap::NameMap;
use nqvpn::net::IpNet;
use nqvpn::proto::{
    AttachedClient, Heartbeat, LinkTraffic, MembershipDelta, PeerInfo, Role, Snapshot, TrafficReport,
};
use nqvpn::reach::{is_probed, verdict, DialOutcome, Reachability};
use nqvpn::registry::Registry;
use nqvpn::routes::exit_gateway;
use nqvpn::state::NetState;
use nqvpn::status::status_of;
use nqvpn::validate::validate_network;

const NOW: u64 = 1_700_000_000;
const EXP: u64 = NOW + 900;
const MS: u64 = NOW * 1000;

fn net(s: &str) -> IpNet {
    IpNet::parse(s).unwrap()
}

fn relay(addr: &str, lans: &[&str]) -> MemberCfg {
    let mut m = MemberCfg::default();
    m.relay_addr = Some(addr.to_string());
    m.local_cidrs = lans.iter().map(|s| net(s)).collect();
    m
}

fn network(lans: &[&str]) -> NetState {
    let mut cfg = NetworkConfig {
        network_id: "n1".to_string(),
        cidrs: vec![net("10.99.0.0/16")],
        pools: NameMap::new(),
        settings: SettingsCfg::default(),
        relays: NameMap::new(),
        clients: NameMap::new(),
    };
    cfg.relays.insert("r1".to_string(), relay("1.2.3.4:4444", lans));
    cfg.relays.insert("r2".to_string(), relay("5.6.7.8:4444", lans));
    cfg.clients.insert("c1".to_string(), MemberCfg::default());
    NetState::new(cfg, Registry::new(), MS)
}

fn fp(name: &str) -> String {
    format!("sha256:{name}")
}

fn join_at(ns: &mut NetState, name: &str, machine: &str, now: u64) -> u32 {
    let req = JoinRequest {
        secret: String::new(),
        pubkey: format!("key of {machine}"),
        cert_fingerprint: fp(machine),
    };
    let j = join_member(ns, name, &req, "1.1.1.1", true, now, 14433, vec![]).unwrap();
    j.response.node_id
}

fn join(ns: &mut NetState, name: &str) -> u32 {
    join_at(ns, name, name, NOW)
}

fn open(ns: &mut NetState, session: u64, name: &str, node: u32, role: Role) -> Option<MembershipDelta> {
    open_session(ns, session, name, node, role, EXP, 0, false, NOW, MS).delta
}

fn beat(ns: &mut NetState, name: &str, node: u32, role: Role, held: &[(u32, u64)]) -> Option<Vec<u32>> {
    let hb = Heartbeat {
        gen: 1,
        digest: 2,
        attached: held
            .iter()
            .map(|(n, s)| AttachedClient { node_id: *n, session_id: *s })
            .collect(),
        attached_to: None,
        mesh_up: vec![],
    };
    let msg = Upstream::Heartbeat { beat: hb, at_ms: MS, digest: 2, grace: false };
    let r = on_message(ns, "n1", name, node, role, &fp(name), msg, NOW).unwrap();
    r.attachments.map(|a| a.changed.iter().map(|e| e.relay_id).collect())
}

fn relay_of(ns: &NetState, client: u32) -> Option<u32> {
    ns.directory.attachments.get(client).copied()
}

#[test]
fn a_session_that_opens_is_sent_the_view() {
    let mut ns = network(&[]);
    let r1 = join(&mut ns, "r1");
    let c1 = join(&mut ns, "c1");
    let o = open_session(&mut ns, 1, "r1", r1, Role::Relay, EXP, 0, false, NOW, MS);
    assert_eq!(o.revision, ns.directory.revision);
    let sent: Vec<(u32, bool)> =
        o.snapshot.iter().flatten().map(|p| (p.node_id, p.online)).collect();
    assert_eq!(sent, vec![(r1, true), (c1, false)]);
    assert!(o.attachments.is_some(), "a relay is told who is attached where");
    assert_eq!(o.relays.len(), 1);
    assert_eq!((o.mtu.mtu, o.mtu.limited_by.as_str()), (1350, "config"));
    assert!(o.superseded.is_none());
    let o = open_session(&mut ns, 2, "c1", c1, Role::Client, EXP, 0, false, NOW, MS);
    assert!(o.attachments.is_none());
    assert!(ns.leases.is_online(c1));
    // A second session of the same member supersedes the first.
    let o = open_session(&mut ns, 3, "c1", c1, Role::Client, EXP, 0, false, NOW, MS);
    assert_eq!(o.superseded.unwrap().id, 2);
    assert!(close_session(&mut ns, 2, "c1", c1, NOW).is_none(), "the old one ends unnoticed");
    assert!(close_session(&mut ns, 3, "c1", c1, NOW).is_some());
    assert!(!ns.leases.is_online(c1));
}

#[test]
fn the_view_comes_whole_and_first() {
    let mut ns = network(&[]);
    let (r1, c1) = (join(&mut ns, "r1"), join(&mut ns, "c1"));
    let o = open_session(&mut ns, 1, "r1", r1, Role::Relay, EXP, 0, false, NOW, MS);
    let rev = o.revision;
    let sent = opening(o, vec![]);
    assert_eq!(sent.len(), 6);
    assert!(matches!(&sent[0], Push::HelloAck(r) if *r == rev));
    match &sent[1] {
        Push::Snapshot { snapshot_rev, chunk_i, chunk_n, peers } => {
            assert_eq!((*snapshot_rev, *chunk_i, *chunk_n), (rev, 0, 1));
            assert_eq!(peers.iter().map(|p| p.node_id).collect::<Vec<_>>(), vec![r1, c1]);
        }
        other => panic!("{other:?}"),
    }
    assert!(matches!(&sent[2], Push::Attachments { .. }));
    assert!(matches!(&sent[3], Push::Keys(k) if k.is_empty()));
    assert!(matches!(&sent[4], Push::Relays(r) if r.len() == 1));
    assert!(matches!(&sent[5], Push::Mtu(m) if m.mtu == 1350));
    // A client is not told who is attached where.
    let o = open_session(&mut ns, 2, "c1", c1, Role::Client, EXP, 0, false, NOW, MS);
    assert_eq!(opening(o, vec![]).len(), 5);
}

#[test]
fn a_relay_declares_a_set_and_the_newest_declaration_wins() {
    let mut ns = network(&[]);
    let (r1, r2, c) = (join(&mut ns, "r1"), join(&mut ns, "r2"), join(&mut ns, "c1"));
    assert_eq!(beat(&mut ns, "r1", r1, Role::Relay, &[(c, 1)]), Some(vec![r1]));
    assert_eq!(relay_of(&ns, c), Some(r1));
    // The client moves; the stale session still lists it.
    assert_eq!(beat(&mut ns, "r2", r2, Role::Relay, &[(c, 7)]), Some(vec![r2]));
    assert_eq!(beat(&mut ns, "r1", r1, Role::Relay, &[(c, 1)]), None);
    assert_eq!(relay_of(&ns, c), Some(r2), "a repeated stale declaration does not win");
    // The stale session ends: nothing to detach.
    assert_eq!(beat(&mut ns, "r1", r1, Role::Relay, &[]), None);
    assert_eq!(relay_of(&ns, c), Some(r2));
    assert_eq!(beat(&mut ns, "r2", r2, Role::Relay, &[]), Some(vec![]));
    assert_eq!(relay_of(&ns, c), None);
}

#[test]
fn only_relays_hold_clients() {
    let mut ns = network(&[]);
    let c = join(&mut ns, "c1");
    assert_eq!(beat(&mut ns, "c1", c, Role::Client, &[(c, 1)]), None);
    assert!(ns.directory.attachments.is_empty());
    let attach = Upstream::Attach { node_id: c, attached: true };
    let e = on_message(&mut ns, "n1", "c1", c, Role::Client, "", attach, NOW).unwrap_err();
    assert_eq!(e, "only relays may send Attach");
    let report = TrafficReport {
        links: vec![],
        local_bytes: 0,
        local_pkts: 0,
        terminated_bytes: 0,
        terminated_pkts: 0,
    };
    let e = on_message(&mut ns, "n1", "c1", c, Role::Client, "", Upstream::Traffic(report), NOW);
    assert_eq!(e.unwrap_err(), "only relays may send TrafficReport");
}

#[test]
fn one_client_can_be_attached_and_detached() {
    let mut ns = network(&[]);
    let (r1, c) = (join(&mut ns, "r1"), join(&mut ns, "c1"));
    let on = Upstream::Attach { node_id: c, attached: true };
    let a = on_message(&mut ns, "n1", "r1", r1, Role::Relay, "", on, NOW).unwrap();
    let a = a.attachments.unwrap();
    assert_eq!((a.base_rev + 1, a.new_rev, a.changed[0].relay_id), (a.new_rev, 1, r1));
    let again = Upstream::Attach { node_id: c, attached: true };
    let b = on_message(&mut ns, "n1", "r1", r1, Role::Relay, "", again, NOW).unwrap();
    assert!(b.attachments.is_none());
    let off = Upstream::Attach { node_id: c, attached: false };
    let d = on_message(&mut ns, "n1", "r1", r1, Role::Relay, "", off, NOW).unwrap();
    assert_eq!(d.attachments.unwrap().detached, vec![c]);
}

#[test]
fn a_relay_that_loses_its_link_keeps_its_clients() {
    let mut ns = network(&["192.168.1.0/24"]);
    let r1 = join_at(&mut ns, "r1", "r1", NOW);
    let r2 = join_at(&mut ns, "r2", "r2", NOW + 1);
    let c = join(&mut ns, "c1");
    open(&mut ns, 1, "r1", r1, Role::Relay);
    open(&mut ns, 2, "r2", r2, Role::Relay);
    beat(&mut ns, "r1", r1, Role::Relay, &[(c, 1)]);
    assert_eq!(ns.directory.owner(&net("192.168.1.0/24")).unwrap(), "r1", "the oldest registrant");
    let closed = close_session(&mut ns, 1, "r1", r1, NOW).unwrap();
    assert!(!ns.leases.is_online(r1), "the relay is offline to the coordinator");
    assert_eq!(relay_of(&ns, c), Some(r1), "but it still holds its clients");
    // Its routes fail over at once.
    assert_eq!(ns.directory.owner(&net("192.168.1.0/24")).unwrap(), "r2");
    let d = closed.delta.unwrap();
    let heir = d.changed.iter().find(|p| p.node_id == r2).unwrap();
    assert!(heir.prefixes.contains(&net("192.168.1.0/24")));
}

#[test]
fn the_mtu_recovers_when_the_limiter_leaves() {
    let mut ns = network(&[]);
    let c = join(&mut ns, "c1");
    open(&mut ns, 1, "c1", c, Role::Client);
    let r = on_message(&mut ns, "n1", "c1", c, Role::Client, "", Upstream::Mtu(1300), NOW).unwrap();
    let m = r.mtu.unwrap();
    assert_eq!((m.mtu, m.limited_by.as_str()), (1300, "c1"));
    let r = on_message(&mut ns, "n1", "c1", c, Role::Client, "", Upstream::Mtu(1300), NOW).unwrap();
    assert!(r.mtu.is_none(), "the same again is no news");
    let m = close_session(&mut ns, 1, "c1", c, NOW).unwrap().mtu.unwrap();
    assert_eq!((m.mtu, m.limited_by.as_str()), (1350, "config"));
}

#[test]
fn a_silent_session_is_swept() {
    let mut ns = network(&[]);
    let c = join(&mut ns, "c1");
    open(&mut ns, 1, "c1", c, Role::Client);
    on_message(&mut ns, "n1", "c1", c, Role::Client, "", Upstream::Ping, NOW).unwrap();
    assert!(liveness_sweep(&mut ns, NOW + 15).stale.is_empty());
    assert_eq!(liveness_sweep(&mut ns, NOW + 16).stale, vec!["c1"]);
    on_message(&mut ns, "n1", "c1", c, Role::Client, "", Upstream::Unknown, NOW + 16).unwrap();
    assert_eq!(liveness_sweep(&mut ns, NOW + 16).stale.len(), 1, "what is not understood is no life sign");
}

fn identity(name: &str, node_id: u32, role: Role) -> Identity {
    Identity {
        network_id: "n1".to_string(),
        sub: name.to_string(),
        node_id,
        role,
        cert_fp: fp(name),
        login_gen: 0,
        exp: EXP + 60,
    }
}

#[test]
fn a_refresh_extends_the_session_and_an_expired_one_ends() {
    let mut ns = network(&[]);
    let c = join(&mut ns, "c1");
    open(&mut ns, 1, "c1", c, Role::Client);
    assert_eq!(ns.sessions.get("c1").unwrap().exp, EXP);
    assert!(liveness_sweep(&mut ns, EXP - 1).expired.is_empty());
    assert_eq!(liveness_sweep(&mut ns, EXP).expired, vec!["c1"]);
    let fresh = Upstream::Refresh(identity("c1", c, Role::Client));
    on_message(&mut ns, "n1", "c1", c, Role::Client, &fp("c1"), fresh, NOW).unwrap();
    assert_eq!(ns.sessions.get("c1").unwrap().exp, EXP + 60);
    assert!(liveness_sweep(&mut ns, EXP + 59).expired.is_empty());
    assert_eq!(liveness_sweep(&mut ns, EXP + 60).expired, vec!["c1"]);
    // An older credential does not shorten it.
    let stale = Upstream::Refresh(Identity { exp: EXP, ..identity("c1", c, Role::Client) });
    on_message(&mut ns, "n1", "c1", c, Role::Client, &fp("c1"), stale, NOW).unwrap();
    assert_eq!(ns.sessions.get("c1").unwrap().exp, EXP + 60);
}

#[test]
fn another_machine_closes_the_session_of_the_first() {
    let mut ns = network(&[]);
    let c = join(&mut ns, "c1");
    let again = |ns: &mut NetState, machine: &str| {
        let req = JoinRequest {
            secret: String::new(),
            pubkey: format!("key of {machine}"),
            cert_fingerprint: fp(machine),
        };
        join_member(ns, "c1", &req, "2.2.2.2", true, NOW, 14433, vec![]).unwrap().closed
    };
    assert_eq!(again(&mut ns, "new"), None, "nobody is connected");
    open(&mut ns, 1, "c1", c, Role::Client);
    assert_eq!(again(&mut ns, "new"), None, "the same machine");
    assert_eq!(again(&mut ns, "newer"), Some("c1".to_string()));
}

fn generations(r: Option<CatchUp>) -> Vec<u64> {
    match r {
        Some(CatchUp::Deltas(d)) => d.iter().map(|d| d.base_rev).collect(),
        other => panic!("{other:?}"),
    }
}

#[test]
fn a_member_behind_is_sent_what_it_missed() {
    let mut ns = network(&[]);
    let c = join(&mut ns, "c1");
    open(&mut ns, 1, "c1", c, Role::Client);
    let g0 = ns.directory.revision;
    close_session(&mut ns, 1, "c1", c, NOW).unwrap();
    join(&mut ns, "r1");
    join(&mut ns, "r2");
    // It comes back and says what it holds.
    let o = open_session(&mut ns, 2, "c1", c, Role::Client, EXP, g0, false, NOW, MS);
    assert!(o.snapshot.is_empty());
    let rev = o.revision;
    let sent = opening(o, vec![]);
    assert!(matches!(&sent[0], Push::HelloAck(r) if *r == rev));
    let mut g = g0;
    for p in &sent[1..5] {
        match p {
            Push::Membership(d) => {
                assert_eq!(d.base_rev, g);
                g = d.new_rev;
            }
            other => panic!("{other:?}"),
        }
    }
    assert_eq!(g, rev);
    assert_eq!(sent.len(), 8);
    // A heartbeat says the same on a session that is open.
    let hb = |gen: u64, digest: u64, grace: bool| Upstream::Heartbeat {
        beat: Heartbeat { gen, digest, attached: vec![], attached_to: None, mesh_up: vec![] },
        at_ms: MS,
        digest: 7,
        grace,
    };
    let mut say = |m: Upstream| {
        on_message(&mut ns, "n1", "c1", c, Role::Client, &fp("c1"), m, NOW).unwrap().catch_up
    };
    assert_eq!(generations(say(hb(rev - 2, 7, false))), vec![rev - 2, rev - 1]);
    assert!(matches!(say(hb(rev, 7, false)), Some(CatchUp::Current)));
    assert!(matches!(say(hb(rev, 6, false)), Some(CatchUp::Snapshot { mismatch: true })));
    assert!(matches!(say(hb(12345, 7, false)), Some(CatchUp::Snapshot { mismatch: false })));
    assert!(matches!(say(hb(0, 7, true)), Some(CatchUp::Deferred)));
    let resync = Upstream::Resync { have: 0, grace: false };
    assert!(matches!(say(resync), Some(CatchUp::Snapshot { mismatch: false })));
    assert!(say(Upstream::Ping).is_none());
    // While the coordinator collects, the acknowledgement is all there is.
    let o = open_session(&mut ns, 3, "c1", c, Role::Client, EXP, 0, true, NOW, MS);
    assert_eq!(opening(o, vec![]).len(), 1);
}

#[test]
fn a_disabled_member_is_gone_from_the_view() {
    let mut ns = network(&[]);
    let (r1, c) = (join(&mut ns, "r1"), join(&mut ns, "c1"));
    open(&mut ns, 1, "r1", r1, Role::Relay);
    open(&mut ns, 2, "c1", c, Role::Client);
    let ids = |ns: &NetState| ns.directory.peers.iter().map(|p| p.node_id).collect::<Vec<_>>();
    assert_eq!(ids(&ns), vec![r1, c]);
    let change = ns.set_member_disabled("c1", true, NOW).unwrap();
    assert_eq!(change.closed.as_deref(), Some("c1"));
    assert_eq!(change.delta.unwrap().removed, vec![c]);
    assert_eq!(ids(&ns), vec![r1]);
    let change = ns.set_member_disabled("c1", false, NOW).unwrap();
    assert_eq!(change.delta.unwrap().changed[0].node_id, c);
    assert_eq!(ids(&ns), vec![r1, c]);
}

#[test]
fn a_refresh_never_rebinds_a_session() {
    let mut ns = network(&[]);
    let (r1, c) = (join(&mut ns, "r1"), join(&mut ns, "c1"));
    let same = Upstream::Refresh(identity("c1", c, Role::Client));
    assert!(on_message(&mut ns, "n1", "c1", c, Role::Client, &fp("c1"), same, NOW).is_ok());
    let other = Upstream::Refresh(identity("r1", r1, Role::Relay));
    let e = on_message(&mut ns, "n1", "c1", c, Role::Client, &fp("c1"), other, NOW).unwrap_err();
    assert_eq!(
        e,
        format!("Refresh identity mismatch: session is c1/{c}, credential is r1/{r1}")
    );
}

#[test]
fn a_credential_is_checked_against_its_network() {
    let mut ns = network(&[]);
    let c = join(&mut ns, "c1");
    let mut nets = NameMap::new();
    nets.insert("n1".to_string(), ns);
    let good: Result<Identity, String> = Ok(identity("c1", c, Role::Client));
    let check = |nets: &NameMap<NetState>, net: Option<&str>, who: &Result<Identity, String>, fp: &str| {
        verify_credential(nets, net, Some("c1"), who, fp)
    };
    assert_eq!(check(&nets, Some("n1"), &good, &fp("c1")), Ok(0));
    assert_eq!(check(&nets, None, &good, &fp("c1")), Err("malformed credential".to_string()));
    assert_eq!(check(&nets, Some("zz"), &good, &fp("c1")), Err("unknown network zz".to_string()));
    let bad: Result<Identity, String> = Err("expired".to_string());
    assert_eq!(
        check(&nets, Some("n1"), &bad, &fp("c1")),
        Err("credential rejected: expired".to_string())
    );
    let e = check(&nets, Some("n1"), &good, "sha256:thief").unwrap_err();
    assert_eq!(e, "cert_fp mismatch: credential says sha256:c1, TLS presented sha256:thief");
    // Another machine joins as the same member: the old one is refused.
    join_at(&mut nets.entries[0].1, "c1", "laptop-new", NOW);
    let e = check(&nets, Some("n1"), &good, &fp("c1")).unwrap_err();
    assert_eq!(e, "member c1 joined again from elsewhere");
    let i = nets.entries[0].1.registry.index_of_name("c1").unwrap();
    nets.entries[0].1.registry.members[i].disabled = true;
    let e = check(&nets, Some("n1"), &good, &fp("c1")).unwrap_err();
    assert_eq!(e, "member c1 is disabled or unknown");
}

#[test]
fn pushes_go_to_their_audience() {
    let mut ns = network(&[]);
    let (r1, c) = (join(&mut ns, "r1"), join(&mut ns, "c1"));
    open(&mut ns, 1, "r1", r1, Role::Relay);
    open(&mut ns, 2, "c1", c, Role::Client);
    assert_eq!(recipients(&ns, &Audience::Everyone), vec!["c1", "r1"]);
    assert_eq!(recipients(&ns, &Audience::Relays), vec!["r1"]);
    assert_eq!(recipients(&ns, &Audience::Except("r1".to_string())), vec!["c1"]);
    assert_eq!(relay_endpoints(&ns)[0].addr, "1.2.3.4:4444");
}

#[test]
fn traffic_is_kept_per_relay() {
    let mut ns = network(&[]);
    let r1 = join(&mut ns, "r1");
    let link = LinkTraffic { peer_id: 2, tx_bytes: 10, tx_pkts: 1, rx_bytes: 0, rx_pkts: 0, up: true };
    let report = TrafficReport {
        links: vec![link],
        local_bytes: 0,
        local_pkts: 0,
        terminated_bytes: 0,
        terminated_pkts: 0,
    };
    on_message(&mut ns, "n1", "r1", r1, Role::Relay, "", Upstream::Traffic(report), NOW).unwrap();
    assert!(ns.directory.traffic.contains_key("r1"));
}

// ---- generations ----

fn peer(id: u32) -> PeerInfo {
    PeerInfo {
        node_id: id,
        name: format!("n{id}"),
        role: Role::Client,
        prefixes: vec![],
        pubkey: String::new(),
        online: true,
        login_gen: 0,
    }
}

fn delta(base: u64, changed: &[u32], removed: &[u32]) -> MembershipDelta {
    MembershipDelta {
        base_rev: base,
        new_rev: base + 1,
        changed: changed.iter().map(|i| peer(*i)).collect(),
        removed: removed.to_vec(),
    }
}

#[test]
fn a_member_behind_is_caught_up_and_a_stranger_starts_over() {
    let mut h = History::new(3);
    for g in 10..14 {
        h.record(delta(g, &[g as u32], &[]));
    }
    assert_eq!(h.deltas.len(), 3, "only the newest are kept");
    match h.answer(14, 7, 12, None, false) {
        CatchUp::Deltas(d) => assert_eq!(d.iter().map(|d| d.base_rev).collect::<Vec<_>>(), vec![12, 13]),
        other => panic!("{other:?}"),
    }
    assert!(matches!(h.answer(14, 7, 10, None, false), CatchUp::Snapshot { mismatch: false }));
    assert!(matches!(h.answer(14, 7, 12345, None, false), CatchUp::Snapshot { mismatch: false }));
    assert!(matches!(h.answer(14, 7, 14, Some(7), false), CatchUp::Current));
    assert!(matches!(h.answer(14, 7, 14, Some(6), false), CatchUp::Snapshot { mismatch: true }));
    assert!(matches!(h.answer(14, 7, 0, None, true), CatchUp::Deferred));
    // A gap starts the history anew.
    h.record(delta(20, &[], &[]));
    assert_eq!(h.deltas.len(), 1);
}

#[test]
fn a_delta_applies_only_onto_its_base() {
    let mut v = HeldView::new();
    assert!(v.apply(delta(0, &[1, 2, 3], &[])));
    assert!(v.apply(delta(1, &[4], &[2])));
    assert_eq!(v.peers.keys(), vec![1, 3, 4]);
    assert!(!v.apply(delta(7, &[9], &[])), "another generation");
    assert_eq!((v.gen, v.peers.keys()), (2, vec![1, 3, 4]));
}

#[test]
fn deltas_reproduce_the_coordinator_s_view() {
    let mut ns = network(&[]);
    let mut h = History::new(8);
    let start = ns.directory.revision;
    for (i, (name, role)) in
        [("r1", Role::Relay), ("c1", Role::Client), ("r2", Role::Relay)].into_iter().enumerate()
    {
        let req = JoinRequest {
            secret: String::new(),
            pubkey: name.to_string(),
            cert_fingerprint: fp(name),
        };
        let j = join_member(&mut ns, name, &req, "1.1.1.1", true, NOW, 14433, vec![]).unwrap();
        h.record(j.delta.unwrap());
        if let Some(d) = open(&mut ns, i as u64, name, j.response.node_id, role) {
            h.record(d);
        }
    }
    let mut v = HeldView { gen: start, ..HeldView::new() };
    match h.answer(ns.directory.revision, 0, start, None, false) {
        CatchUp::Deltas(ds) => {
            for d in ds {
                assert!(v.apply(d));
            }
        }
        other => panic!("{other:?}"),
    }
    assert_eq!(v.gen, ns.directory.revision);
    let held: Vec<(u32, bool)> = v.peers.entries.iter().map(|(i, p)| (*i, p.online)).collect();
    let published: Vec<(u32, bool)> =
        ns.directory.peers.iter().map(|p| (p.node_id, p.online)).collect();
    assert_eq!(held, published);
}

#[test]
fn a_restarted_coordinator_waits_out_its_grace() {
    assert!(in_grace(100, 2, 101));
    assert!(!in_grace(100, 2, 102));
    assert!(!in_grace(0, 2, 100));
}

#[test]
fn only_a_relay_with_an_address_is_probed_and_not_where_probing_is_off() {
    let at = Some("198.51.100.7:4433".to_string());
    assert!(is_probed("warn", Role::Relay, &at));
    assert!(is_probed("deny", Role::Relay, &at));
    assert!(!is_probed("off", Role::Relay, &at));
    assert!(!is_probed("warn", Role::Client, &at));
    assert!(!is_probed("warn", Role::Relay, &None));
}

#[test]
fn a_dial_decides_reachability() {
    assert_eq!(verdict(DialOutcome::Connected).as_str(), "reachable");
    assert_eq!(verdict(DialOutcome::Unresolved), Reachability::Unreachable);
    assert_eq!(Reachability::Unknown.as_str(), "unknown");
    let d = Directory::with_hold_down(60);
    assert_eq!(d.hold_down_secs, 60);
}

// ---- ways out to the internet ----

fn with_exits(names: &[&str]) -> NetState {
    let mut ns = network(&[]);
    for n in names {
        let mut m = ns.cfg.relays.remove(n).unwrap();
        m.internet_gateway = Some(true);
        ns.cfg.relays.insert(n.to_string(), m);
    }
    ns
}

fn report(ns: &mut NetState, name: &str, node: u32, ip_forward: bool, masquerade: bool) -> bool {
    let msg = Upstream::Exit(ExitReadiness { ip_forward, masquerade });
    let r = on_message(ns, "n1", name, node, Role::Relay, &fp(name), msg, NOW).unwrap();
    r.delta.is_some()
}

fn exit_of(ns: &NetState, via: Option<&str>) -> Option<u32> {
    let view = Snapshot {
        gen: ns.directory.revision,
        members: ns.directory.peers.iter().map(|p| p.copy()).collect(),
        attachments: vec![],
        relays: vec![],
        mtu: 1350,
        reserved_prefixes: vec![],
    };
    assert_eq!(exit_gateway(&view, via, None, false), exit_gateway(&view, via, None, true));
    exit_gateway(&view, via, None, false)
}

#[test]
fn an_exit_is_published_only_while_it_is_ready() {
    let mut ns = with_exits(&["r2"]);
    let (r1, r2) = (join(&mut ns, "r1"), join(&mut ns, "r2"));
    open(&mut ns, 1, "r1", r1, Role::Relay);
    open(&mut ns, 2, "r2", r2, Role::Relay);
    assert!(is_designated(&ns.cfg, "r2") && !is_designated(&ns.cfg, "r1"));
    assert_eq!(exit_of(&ns, Some("r2")), None, "not heard of yet");
    assert!(!report(&mut ns, "r2", r2, true, false));
    assert_eq!(exit_of(&ns, Some("r2")), None, "an exit that is not ready is not an exit");
    assert!(report(&mut ns, "r2", r2, true, true));
    assert_eq!(exit_of(&ns, None), Some(r2));
    // A relay that the operator did not designate is none, whatever it says.
    assert!(!report(&mut ns, "r1", r1, true, true));
    assert_eq!(exit_of(&ns, Some("r1")), Some(r2));
    assert!(report(&mut ns, "r2", r2, false, true), "its host stopped forwarding");
    assert_eq!(exit_of(&ns, None), None);
}

#[test]
fn several_exits_coexist_and_a_preference_returns() {
    let mut ns = with_exits(&["r1", "r2"]);
    let (r1, r2) = (join(&mut ns, "r1"), join(&mut ns, "r2"));
    open(&mut ns, 1, "r1", r1, Role::Relay);
    open(&mut ns, 2, "r2", r2, Role::Relay);
    report(&mut ns, "r1", r1, true, true);
    report(&mut ns, "r2", r2, true, true);
    assert_eq!(exit_of(&ns, Some("r2")), Some(r2));
    report(&mut ns, "r2", r2, true, false);
    assert_eq!(exit_of(&ns, Some("r2")), Some(r1), "falls back");
    report(&mut ns, "r2", r2, true, true);
    assert_eq!(exit_of(&ns, Some("r2")), Some(r2), "and returns");
    // What was reported does not outlive the session.
    close_session(&mut ns, 2, "r2", r2, NOW);
    open(&mut ns, 3, "r2", r2, Role::Relay);
    assert_eq!(exit_of(&ns, Some("r2")), Some(r1));
}

#[test]
fn an_exit_is_a_capability_and_not_a_prefix() {
    let check = |ns: &NetState| validate_network(&ns.cfg, 8, &vec![]);
    check(&with_exits(&["r1", "r2"])).unwrap();
    let e = check(&network(&["0.0.0.0/0"])).unwrap_err();
    assert_eq!(e, "relay r1: 0.0.0.0/0 is a default route: set internet_gateway instead");
    assert!(check(&network(&["::/0"])).unwrap_err().contains("internet_gateway"));
    let mut ns = network(&[]);
    let mut c = ns.cfg.clients.remove("c1").unwrap();
    c.internet_gateway = Some(true);
    ns.cfg.clients.insert("c1".to_string(), c);
    assert_eq!(check(&ns).unwrap_err(), "client c1: internet_gateway is a relay-only field");
}

#[test]
fn an_exit_that_is_not_ready_says_what_is_missing() {
    let mut ns = with_exits(&["r1"]);
    let shown = |ns: &NetState, name: &str| {
        let s = status_of(ns, "n1", 0, NOW);
        s.members.iter().find(|m| m.name == name).unwrap().exit
    };
    assert_eq!((shown(&ns, "r1"), shown(&ns, "r2")), (ExitState::Unheard, ExitState::No));
    let r1 = join(&mut ns, "r1");
    report(&mut ns, "r1", r1, true, false);
    let half = ExitReadiness { ip_forward: true, masquerade: false };
    assert_eq!(shown(&ns, "r1"), ExitState::Reported(half));
    assert_eq!(shown(&ns, "r1").missing(), ["a masquerade rule for its uplink"]);
    let none = ExitReadiness { ip_forward: false, masquerade: false };
    assert_eq!(ExitState::Reported(none).missing().len(), 2);
    // Only relays report.
    let c1 = join(&mut ns, "c1");
    let msg = Upstream::Exit(half);
    assert!(on_message(&mut ns, "n1", "c1", c1, Role::Client, &fp("c1"), msg, NOW).is_err());
}

#[test]
fn an_exit_is_granted_the_defaults() {
    let mut ns = with_exits(&["r1"]);
    let grants = |ns: &mut NetState, name: &str| {
        let req = JoinRequest {
            secret: String::new(),
            pubkey: "k".to_string(),
            cert_fingerprint: fp(name),
        };
        let j = join_member(ns, name, &req, "1.1.1.1", true, NOW, 14433, vec![]).unwrap();
        j.response.granted_cidrs
    };
    assert_eq!(grants(&mut ns, "r1"), vec![net("0.0.0.0/0"), net("::/0")]);
    assert_eq!(grants(&mut ns, "r2"), vec![]);
}

#[test]
fn a_changed_fleet_is_published_once() {
    let mut ns = network(&[]);
    assert_eq!(publish_relays_if_changed(&mut ns).unwrap().len(), 0);
    assert!(publish_relays_if_changed(&mut ns).is_none());
    let r1 = join(&mut ns, "r1");
    let fleet = publish_relays_if_changed(&mut ns).unwrap();
    assert_eq!((fleet[0].relay_id, fleet[0].addr.as_str()), (r1, "1.2.3.4:4444"));
    assert!(publish_relays_if_changed(&mut ns).is_none());
    // Another machine joins as the relay: its certificate is news.
    join_at(&mut ns, "r1", "elsewhere", NOW + 1);
    assert_eq!(publish_relays_if_changed(&mut ns).unwrap()[0].cert_fp, fp("elsewhere"));
}
