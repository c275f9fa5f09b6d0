use nqvpn::device::{frame_for_device, AF_PREFIX};
use nqvpn::secrets::constant_time_eq;

#[test]
fn constant_time_eq_is_correct() {
    assert!(constant_time_eq("abc", "abc"));
    assert!(!constant_time_eq("abc", "abd"));
    assert!(!constant_time_eq("abc", "abcd"));
    assert!(!constant_time_eq("", "a"));
    assert!(constant_time_eq("", ""));
}

#[test]
fn the_device_sees_bare_ip_packets_on_every_platform() {
    assert_eq!(frame_for_device(&[0x45, 1, 2]), vec![0x45, 1, 2]);
    assert_eq!(AF_PREFIX, 0, "tun-rs owns the platform framing");
}
