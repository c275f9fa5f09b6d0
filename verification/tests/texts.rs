use nqvpn::auth::{hash_password, login, login_hash, verify_password, Sessions};
use nqvpn::config::{read_bearer_token, AdminCfg, NetworkConfig, SettingsCfg};
use nqvpn::error::{ApiError, ErrorCode};
use nqvpn::namemap::NameMap;
use nqvpn::net::{overlaps, IpAddr, IpNet};
use nqvpn::netfiles::{load_networks, NetworkFile};
use nqvpn::netset::{gather, intersect, subtract};
use nqvpn::nettext::sorted_by_text;
use nqvpn::state::relay_dial_addr;
use nqvpn::text::{
    decimal_text, parse_number, rsplit_once, say, split_once, str_before, str_eq, strip_leading,
    strip_prefix, strip_trailing, trim,
};

const NOW: u64 = 1_700_000_000;

fn net(s: &str) -> IpNet {
    IpNet::parse(s).unwrap()
}

fn addr(s: &str) -> IpAddr {
    IpAddr::parse(s).unwrap()
}

// ---- addresses ----

#[test]
fn prefixes_are_read_and_shown() {
    for s in ["10.0.0.0/8", "10.1.2.3/16", "0.0.0.0/0", "255.255.255.255/32", "fd99::/64", "::/0"] {
        assert_eq!(net(s).to_text(), s);
    }
    assert_eq!(net("fd00:0:0:0::1/128").to_text(), "fd00::1/128");
    for s in ["", "10.0.0.0", "10.0.0.0/33", "10.0.0/8", "fd99::/129", "x/8", "10.0.0.0/8 "] {
        assert!(IpNet::parse(s).is_none(), "{s:?}");
    }
}

#[test]
fn addresses_are_read_and_shown() {
    assert_eq!(addr("10.1.2.3"), IpAddr::V4(0x0a01_0203));
    assert_eq!(addr("::1"), IpAddr::V6(1));
    assert_eq!(addr("fd99:0::7").to_text(), "fd99::7");
    assert_eq!(IpAddr::V4(0xc0a8_0101).to_text(), "192.168.1.1");
    assert!(IpAddr::parse("10.1.2").is_none());
    assert!(IpAddr::parse("10.1.2.256").is_none());
}

#[test]
fn a_prefix_holds_its_addresses_and_narrower_prefixes() {
    let n = net("10.1.2.0/23");
    assert!(n.contains_addr(&addr("10.1.2.0")) && n.contains_addr(&addr("10.1.3.255")));
    assert!(!n.contains_addr(&addr("10.1.4.0")) && !n.contains_addr(&addr("::1")));
    assert!(n.contains(&net("10.1.3.128/25")) && n.contains(&n));
    assert!(!n.contains(&net("10.1.0.0/16")) && !n.contains(&net("::/0")));
    assert_eq!(net("10.1.3.7/23").trunc(), n);
    assert_eq!(n.first_value(), 0x0a01_0200);
    assert_eq!(n.last_value(), 0x0a01_03ff);
    assert!(overlaps(&net("10.0.0.0/8"), &n) && overlaps(&n, &net("10.0.0.0/8")));
    assert!(!overlaps(&n, &net("10.1.4.0/24")) && !overlaps(&net("::/0"), &net("0.0.0.0/0")));
    assert_eq!(IpNet::host(addr("::1")).to_text(), "::1/128");
    assert!(IpNet::new(addr("1.2.3.4"), 33).is_none());
}

#[test]
fn a_set_of_prefixes_is_in_order_and_holds_each_once() {
    let v = vec![net("10.2.0.0/16"), net("fd00::/8"), net("10.1.0.0/16"), net("10.2.0.0/16")];
    let g = gather(&v);
    assert_eq!(g, vec![net("10.1.0.0/16"), net("10.2.0.0/16"), net("fd00::/8")]);
    assert_eq!(subtract(&g, &vec![net("10.1.0.0/16")]), vec![net("10.2.0.0/16"), net("fd00::/8")]);
    assert_eq!(intersect(&g, &vec![net("fd00::/8"), net("::/0")]), vec![net("fd00::/8")]);
}

#[test]
fn prefixes_sort_by_their_text() {
    let v = vec![net("9.0.0.0/8"), net("10.0.0.0/8"), net("100.0.0.0/8")];
    let want = vec![net("10.0.0.0/8"), net("100.0.0.0/8"), net("9.0.0.0/8")];
    assert_eq!(sorted_by_text(&v), want);
}

// ---- text ----

#[test]
fn text_is_compared_byte_by_byte() {
    assert!(str_eq("abc", "abc") && !str_eq("abc", "abd") && !str_eq("", "a"));
    assert!(str_before("a", "b") && str_before("a", "aa") && !str_before("a", "a"));
    assert!(str_before("Z", "a") && str_before("z", "\u{e9}"));
}

#[test]
fn text_is_cut_as_asked() {
    assert_eq!(trim(" \t x y \n"), "x y");
    assert_eq!(trim("\u{a0}x\u{2003}"), "x");
    assert_eq!(strip_leading("//a/", '/'), "a/");
    assert_eq!(strip_trailing("a//", '/'), "a");
    assert_eq!(split_once("a:b:c", ':'), Some(("a".to_string(), "b:c".to_string())));
    assert_eq!(rsplit_once("a:b:c", ':'), Some(("a:b".to_string(), "c".to_string())));
    assert_eq!(rsplit_once("abc", ':'), None);
    assert_eq!(strip_prefix("Bearer x", "Bearer "), Some("x".to_string()));
    assert_eq!(strip_prefix("Basic x", "Bearer "), None);
    assert_eq!(say(&vec!["a", "", "bc"]), "abc");
}

#[test]
fn numbers_are_read_within_their_bounds() {
    assert_eq!(parse_number("0", 10), Some(0));
    assert_eq!(parse_number("65535", 65535), Some(65535));
    assert_eq!(parse_number("65536", 65535), None);
    assert_eq!(parse_number("", 10), None);
    assert_eq!(parse_number("-1", 10), None);
    assert_eq!(parse_number("1x", 10), None);
    assert_eq!(decimal_text(0), "0");
    assert_eq!(decimal_text(u64::MAX), u64::MAX.to_string());
}

// ---- errors ----

#[test]
fn every_error_has_its_status_and_code() {
    let m = || "m".to_string();
    let all = [
        (ApiError::bad_credentials(), 401, "bad_credentials"),
        (ApiError::client_disabled(), 403, "client_disabled"),
        (ApiError::prefix_conflict(m()), 409, "prefix_conflict"),
        (ApiError::address_in_use(m()), 409, "address_in_use"),
        (ApiError::address_space_exhausted(m()), 409, "address_space_exhausted"),
        (ApiError::bad_request(m()), 400, "bad_request"),
        (ApiError::rate_limited(), 429, "rate_limited"),
        (ApiError::unauthorized_admin(), 401, "admin_auth_required"),
        (ApiError::not_found(m()), 404, "not_found"),
        (ApiError::internal(m()), 500, "internal"),
        (ApiError::new(503, ErrorCode::AdminDisabled, m()), 503, "admin_disabled"),
    ];
    for (e, status, code) in all {
        assert_eq!((e.status, e.code.as_str()), (status, code), "{}", e.message);
    }
    let e = ApiError::relay_unreachable("1.2.3.4:5");
    assert!(e.message.contains("1.2.3.4:5"), "{}", e.message);
}

// ---- logins ----

fn admin(user: &str, password: &str) -> AdminCfg {
    AdminCfg {
        bearer_token: None,
        bearer_token_file: None,
        user: Some(user.to_string()),
        password_hash: Some(hash_password(password).unwrap()),
        session_hours: 2,
    }
}

#[test]
fn a_login_opens_a_session_for_the_configured_hours() {
    let cfg = admin("admin", "s3cr3t-pw");
    let mut s = Sessions::new();
    let l = login(&mut s, &cfg, "1.2.3.4", "admin", "s3cr3t-pw", NOW).unwrap();
    assert_eq!((l.user.as_str(), l.ttl_secs, l.expires_unix), ("admin", 7200, NOW + 7200));
    assert_eq!(s.lookup(&l.token, NOW + 7199).unwrap().user, "admin");
    assert!(s.lookup(&l.token, NOW + 7200).is_none());
    s.close(&l.token);
    assert!(s.lookup(&l.token, NOW).is_none());
}

#[test]
fn a_password_can_stand_in_the_configuration_itself() {
    let plain = Some("change-me".to_string());
    let h = login_hash(&plain, &None).unwrap().unwrap();
    assert_ne!(h, "change-me");
    assert!(verify_password("change-me", &h) && !verify_password("other", &h));
    let set = Some("$argon2id$x".to_string());
    assert_eq!(login_hash(&plain, &set).unwrap(), set, "a hash goes first");
    assert_eq!(login_hash(&None, &None).unwrap(), None);
}

#[test]
fn a_wrong_login_is_refused_and_slowed_down() {
    let cfg = admin("admin", "s3cr3t-pw");
    let mut s = Sessions::new();
    let e = login(&mut s, &cfg, "1.2.3.4", "admin", "nope", NOW).unwrap_err();
    assert_eq!(e.status, 401);
    assert_eq!(login(&mut s, &cfg, "1.2.3.4", "root", "s3cr3t-pw", NOW).unwrap_err().status, 401);
    for _ in 0..20 {
        s.note_failure("1.2.3.4", NOW);
    }
    assert_eq!(login(&mut s, &cfg, "1.2.3.4", "admin", "s3cr3t-pw", NOW).unwrap_err().status, 429);
    assert!(login(&mut s, &cfg, "5.6.7.8", "admin", "s3cr3t-pw", NOW).is_ok(), "per address");
    assert!(login(&mut s, &cfg, "1.2.3.4", "admin", "s3cr3t-pw", NOW + 60).is_ok(), "per minute");
}

#[test]
fn the_admin_token_is_the_configured_one_or_the_file_s() {
    let mut cfg = admin("admin", "x");
    assert_eq!(read_bearer_token(&cfg, &None), None);
    assert_eq!(read_bearer_token(&cfg, &Some(" file \n".to_string())), Some("file".to_string()));
    cfg.bearer_token = Some(" own ".to_string());
    assert_eq!(read_bearer_token(&cfg, &Some("file".to_string())), Some("own".to_string()));
}

// ---- relays and network files ----

#[test]
fn an_auto_address_is_where_the_relay_joined_from() {
    let from = |s: &str| Some(s.to_string());
    assert_eq!(relay_dial_addr("1.2.3.4:5", &from("9.9.9.9")), from("1.2.3.4:5"));
    assert_eq!(relay_dial_addr("auto:4444", &from("9.9.9.9")), from("9.9.9.9:4444"));
    assert_eq!(relay_dial_addr("auto:4444", &from("fd00::1")), from("[fd00::1]:4444"));
    assert_eq!(relay_dial_addr("auto:4444", &None), None);
}

fn file(stem: &str, id: &str, cidr: &str) -> NetworkFile {
    NetworkFile {
        path: format!("networks.d/{stem}.toml"),
        stem: stem.to_string(),
        cfg: NetworkConfig {
            network_id: id.to_string(),
            cidrs: vec![net(cidr)],
            pools: NameMap::new(),
            settings: SettingsCfg::default(),
            relays: NameMap::new(),
            clients: NameMap::new(),
        },
    }
}

#[test]
fn networks_come_in_the_order_of_their_names() {
    let files = vec![
        file("b", "b", "10.1.0.0/16"),
        file("c", "c", "10.2.0.0/16"),
        file("a", "a", "10.3.0.0/16"),
    ];
    let cfgs = load_networks(files, 8, &vec![]).unwrap();
    let ids: Vec<&str> = cfgs.iter().map(|c| c.network_id.as_str()).collect();
    assert_eq!(ids, ["a", "b", "c"]);
    assert_eq!(cfgs[0].cidrs, vec![net("10.3.0.0/16")]);
}

#[test]
fn a_network_file_is_named_after_its_network() {
    let e = load_networks(vec![file("b", "x", "10.1.0.0/16")], 8, &vec![]).unwrap_err();
    assert_eq!(e, "networks.d/b.toml: file stem \"b\" must equal network_id \"x\"");
    // The first file that is wrong is reported.
    let files = vec![file("a", "a", "fd00::/64"), file("b", "x", "10.1.0.0/16")];
    let e = load_networks(files, 8, &vec![]).unwrap_err();
    assert!(e.starts_with("validating networks.d/a.toml: "), "{e}");
}
