use nqvpn::engine::{SessionTable, PENDING_LIMIT};
use nqvpn::net::{IpAddr, IpNet};
use nqvpn::peers::{decode_pubkey, parse_inner_addrs, IngressVerdict, LpmTable, PeerTable};
use nqvpn::proto::{PeerInfo, Role};

fn net(s: &str) -> IpNet {
    IpNet::parse(s).unwrap()
}

fn ip(s: &str) -> IpAddr {
    IpAddr::parse(s).unwrap()
}

fn peer(id: u32, prefixes: &[&str], pubkey: &str) -> PeerInfo {
    PeerInfo {
        node_id: id,
        name: format!("n{id}"),
        role: Role::Client,
        prefixes: prefixes.iter().map(|p| net(p)).collect(),
        pubkey: pubkey.to_string(),
        online: true,
        login_gen: 0,
    }
}

fn v4(src: [u8; 4], dst: [u8; 4]) -> Vec<u8> {
    let mut p = vec![0u8; 20];
    p[0] = 0x45;
    p[12..16].copy_from_slice(&src);
    p[16..20].copy_from_slice(&dst);
    p
}

fn table() -> PeerTable {
    let mut t = PeerTable::new(1);
    t.set_mine(vec![net("10.99.1.1/32")]);
    t.upsert(peer(2, &["10.99.1.2/32"], ""));
    t.upsert(peer(3, &["10.99.1.3/32", "192.168.7.0/24"], ""));
    t
}

#[test]
fn routes_by_longest_prefix() {
    let t = table();
    assert_eq!(t.owner_of(&ip("10.99.1.2")), Some(2));
    assert_eq!(t.owner_of(&ip("192.168.7.20")), Some(3));
    assert_eq!(t.owner_of(&ip("8.8.8.8")), None);
}

#[test]
fn accepts_a_well_formed_packet_from_its_owner() {
    let t = table();
    let pkt = v4([10, 99, 1, 2], [10, 99, 1, 1]);
    assert_eq!(t.check_ingress(2, &pkt), IngressVerdict::Accept);
}

#[test]
fn rejects_source_spoofing() {
    let t = table();
    // Node 3 sends a packet claiming to be node 2's address.
    let pkt = v4([10, 99, 1, 2], [10, 99, 1, 1]);
    assert_eq!(t.check_ingress(3, &pkt), IngressVerdict::Drop("inner_src_not_owned"));
}

#[test]
fn rejects_being_used_as_a_router() {
    let t = table();
    // Destination belongs to node 3, not to us.
    let pkt = v4([10, 99, 1, 2], [192, 168, 7, 20]);
    assert_eq!(t.check_ingress(2, &pkt), IngressVerdict::Drop("inner_dst_not_mine"));
}

#[test]
fn rejects_unroutable_and_malformed() {
    let t = table();
    assert_eq!(t.check_ingress(2, &[]), IngressVerdict::Drop("malformed_inner"));
    assert_eq!(t.check_ingress(2, &[0x45, 0, 0]), IngressVerdict::Drop("malformed_inner"));
    // Version nibble says v6 but the packet is v4-sized.
    let mut short6 = vec![0u8; 20];
    short6[0] = 0x60;
    assert_eq!(t.check_ingress(2, &short6), IngressVerdict::Drop("malformed_inner"));
}

#[test]
fn withdrawn_prefixes_stop_routing() {
    let mut t = table();
    // Node 3 loses its LAN: its gateway died.
    t.upsert(peer(3, &["10.99.1.3/32"], ""));
    assert_eq!(t.owner_of(&ip("192.168.7.20")), None);
    assert_eq!(t.owner_of(&ip("10.99.1.3")), Some(3));
}

#[test]
fn removing_a_peer_removes_its_routes() {
    let mut t = table();
    t.remove(3);
    assert_eq!(t.owner_of(&ip("192.168.7.20")), None);
    assert_eq!(t.len(), 1);
}

#[test]
fn pending_queue_is_bounded_and_drops_oldest() {
    let mut s = SessionTable::new();
    for i in 0..(PENDING_LIMIT + 10) {
        s.queue(7, vec![i as u8]);
    }
    let q = s.take_pending(7);
    assert_eq!(q.len(), PENDING_LIMIT);
    assert_eq!(q[0], vec![10u8], "oldest packets were dropped first");
}

#[test]
fn ipv6_addresses_parse() {
    let mut p = vec![0u8; 40];
    p[0] = 0x60;
    p[8..24].copy_from_slice(&[0xfd; 16]);
    p[24..40].copy_from_slice(&[0xfe; 16]);
    let (src, dst) = parse_inner_addrs(&p).unwrap();
    assert!(!src.is_ipv4() && !dst.is_ipv4());
    assert_eq!(src, ip("fdfd:fdfd:fdfd:fdfd:fdfd:fdfd:fdfd:fdfd"));
    assert_eq!(dst, ip("fefe:fefe:fefe:fefe:fefe:fefe:fefe:fefe"));
}

#[test]
fn a_longer_prefix_beats_a_shorter_one() {
    let mut t = LpmTable::new();
    t.insert(net("10.0.0.0/8"), 1);
    t.insert(net("10.1.0.0/16"), 2);
    assert_eq!(t.lookup(&ip("10.1.2.3")), Some(2));
    assert_eq!(t.lookup(&ip("10.2.2.3")), Some(1));
    assert_eq!(t.lookup(&ip("::1")), None);
    t.remove(&net("10.1.0.0/16"));
    assert_eq!(t.lookup(&ip("10.1.2.3")), Some(1));
}

#[test]
fn ipv4_addresses_are_read_from_the_header() {
    let p = v4([10, 99, 1, 2], [192, 168, 7, 20]);
    assert_eq!(parse_inner_addrs(&p), Some((ip("10.99.1.2"), ip("192.168.7.20"))));
    assert_eq!(parse_inner_addrs(&p[..19]), None);
}

#[test]
fn a_public_key_is_32_bytes_in_base64() {
    let text = format!("{}=", "A".repeat(43));
    assert_eq!(decode_pubkey(&text), Some(vec![0u8; 32]));
    assert_eq!(decode_pubkey("AAAA"), None);
    assert_eq!(decode_pubkey("not base64 at all"), None);
    let mut t = table();
    t.upsert(peer(2, &["10.99.1.2/32"], &text));
    assert_eq!(t.pubkey_of(2), Some(vec![0u8; 32]));
    assert_eq!(t.pubkey_of(3), None);
    assert_eq!(t.pubkey_of(9), None);
}

#[test]
fn a_snapshot_replaces_everyone() {
    let mut t = table();
    t.replace_all(vec![peer(8, &["10.99.1.8/32"], "")]);
    assert_eq!(t.len(), 1);
    assert!(!t.is_empty());
    assert_eq!(t.owner_of(&ip("10.99.1.2")), None);
    assert_eq!(t.owner_of(&ip("10.99.1.8")), Some(8));
    assert!(t.is_mine(&ip("10.99.1.1")), "our own addresses stay");
    assert_eq!(t.all_prefixes(), vec![net("10.99.1.8/32")]);
}

#[test]
fn a_queue_that_is_taken_is_empty() {
    let mut s = SessionTable::new();
    assert!(s.queue(7, vec![1]));
    assert_eq!(s.take_pending(7), vec![vec![1u8]]);
    assert!(s.take_pending(7).is_empty());
    assert!(!s.has(7));
}
