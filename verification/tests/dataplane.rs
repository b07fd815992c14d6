//! Decoding logged events and the wire-level helpers.
use firewall::action_store::{ActionStore, ActionStoreError, MAX_RULES};
use firewall::cidr::Ip;
use firewall::dataplane::{be128_of, be32_of, le128_of, parse_packet_log, PacketLog};
use firewall::error::FirewallError;
use firewall::rule_store::Action;

fn sample_log() -> PacketLog {
    PacketLog {
        source: [1, 1, 1, 1, 0, 0, 0, 0, 0, 0, 0, 0, 0, 0, 0, 0],
        dest: [10, 0, 0, 5, 0, 0, 0, 0, 0, 0, 0, 0, 0, 0, 0, 0],
        action: 0,
        dest_port: 22,
        src_port: 4242,
        proto: 6,
        version: 4,
        class: None,
    }
}

#[test]
fn parse_accept_v4() {
    let rec = parse_packet_log(&sample_log()).unwrap();
    assert_eq!(rec.source, Ip::V4(0x01010101));
    assert_eq!(rec.dest, Ip::V4(0x0a000005));
    assert_eq!(rec.action, Action::Accept);
    assert_eq!(rec.dest_port, Some(22));
    assert_eq!(rec.src_port, Some(4242));
    assert_eq!(rec.proto, 6);
    assert_eq!(rec.class, None);
}

#[test]
fn parse_reject_v6_with_class() {
    let mut log = sample_log();
    log.version = 6;
    log.action = 2;
    log.dest_port = 0;
    log.source = [0xfa, 0xfa, 0, 0, 0, 0, 0, 0, 0, 0, 0, 0, 0, 0, 0, 3];
    log.class = Some([0x9d, 0, 0, 0, 0, 0, 0, 0, 0, 0, 0, 0, 0, 0, 0, 0x95]);
    let rec = parse_packet_log(&log).unwrap();
    assert_eq!(
        rec.source,
        Ip::V6(0xfafa_0000_0000_0000_0000_0000_0000_0003)
    );
    assert_eq!(rec.action, Action::Reject);
    assert_eq!(rec.dest_port, None);
    assert_eq!(rec.class, Some(0x95000000_0000_0000_0000_0000_0000_009d));
}

#[test]
fn parse_zero_class_means_unclassified() {
    let mut log = sample_log();
    log.class = Some([0; 16]);
    assert_eq!(parse_packet_log(&log).unwrap().class, None);
}

#[test]
fn parse_unknown_version_refused() {
    let mut log = sample_log();
    log.version = 9;
    assert_eq!(parse_packet_log(&log), Err(FirewallError::LogFormat));
}

#[test]
fn parse_unknown_action_refused() {
    let mut log = sample_log();
    log.action = 7;
    assert_eq!(parse_packet_log(&log), Err(FirewallError::LogFormat));
}

#[test]
fn byte_order_helpers() {
    let bytes: [u8; 16] = [1, 2, 3, 4, 5, 6, 7, 8, 9, 10, 11, 12, 13, 14, 15, 16];
    assert_eq!(be32_of(&bytes), 0x01020304);
    assert_eq!(be128_of(&bytes), 0x0102030405060708090a0b0c0d0e0f10);
    assert_eq!(le128_of(&bytes), 0x100f0e0d0c0b0a090807060504030201);
}

#[test]
fn action_store_lookup() {
    let mut store = ActionStore::default();
    store.add(10, 20, 6).unwrap();
    store.add(30, 40, 0xff).unwrap();
    assert!(store.lookup(15, 6));
    assert!(!store.lookup(15, 17));
    assert!(store.lookup(35, 6));
    assert!(store.lookup(35, 17));
    assert!(!store.lookup(25, 6));
}

#[test]
fn action_store_exhausts() {
    let mut store = ActionStore::default();
    for i in 0..MAX_RULES as u16 {
        store.add(i, i, 6).unwrap();
    }
    assert_eq!(store.add(9000, 9001, 6), Err(ActionStoreError::Exhausted));
}

#[test]
fn action_codes_round_trip() {
    assert_eq!(Action::from_i32(0), Some(Action::Accept));
    assert_eq!(Action::from_i32(2), Some(Action::Reject));
    assert_eq!(Action::from_i32(1), None);
    assert_eq!(Action::Accept.as_i32(), 0);
    assert_eq!(Action::Reject.as_i32(), 2);
    assert_eq!(Action::Accept.invert(), Action::Reject);
    assert_eq!(Action::Reject.invert(), Action::Accept);
    assert_eq!(Action::default(), Action::Reject);
}
