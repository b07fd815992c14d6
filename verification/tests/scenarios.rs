//! End-to-end behaviour of the whole firewall state: rules compiled,
//! sources classified, packets decided.
use firewall::cidr::{Cidr, CidrV4, Ip};
use firewall::firewall::Firewall;
use firewall::rule::{Protocol, Rule};
use firewall::rule_store::Action;

const TCP: u8 = 0x06;
const UDP: u8 = 0x11;

fn v4(addr: u32, prefix: u8) -> Cidr {
    Cidr::V4(CidrV4 { addr, prefix })
}

#[test]
fn universal_accept_on_one_host() {
    let mut fw = Firewall::new();
    fw.set_default_action(Action::Reject);
    fw.add_rule(&Rule::new(v4(0x0a000005, 32))).unwrap(); // 10.0.0.5/32
    let src = Ip::V4(0x01010101); // 1.1.1.1
    assert_eq!(
        fw.check_packet(&src, &Ip::V4(0x0a000005), TCP, 22),
        Action::Accept
    );
    assert_eq!(
        fw.check_packet(&src, &Ip::V4(0x0a000006), TCP, 22),
        Action::Reject
    );
}

#[test]
fn port_range_both_protocols() {
    let mut fw = Firewall::new();
    fw.set_default_action(Action::Reject);
    fw.add_rule(&Rule::new(v4(0, 0)).with_range(22, 22, Protocol::Generic))
        .unwrap();
    let src = Ip::V4(0x01010101);
    let dst = Ip::V4(0x08080808);
    assert_eq!(fw.check_packet(&src, &dst, TCP, 22), Action::Accept);
    assert_eq!(fw.check_packet(&src, &dst, UDP, 22), Action::Accept);
    assert_eq!(fw.check_packet(&src, &dst, TCP, 23), Action::Reject);
}

#[test]
fn group_scoped_rule() {
    let mut fw = Firewall::new();
    fw.set_default_action(Action::Reject);
    fw.add_id(Ip::V4(0x0a000003), 1).unwrap(); // 10.0.0.3
    fw.add_id(Ip::V4(0x0a000006), 1).unwrap(); // 10.0.0.6
    fw.add_rule(&Rule::new(v4(0x0a000009, 32)).with_id(1)).unwrap(); // 10.0.0.9/32
    let dst = Ip::V4(0x0a000009);
    assert_eq!(
        fw.check_packet(&Ip::V4(0x0a000003), &dst, TCP, 80),
        Action::Accept
    );
    assert_eq!(
        fw.check_packet(&Ip::V4(0x0a000004), &dst, TCP, 80),
        Action::Reject
    );
}

#[test]
fn cidr_inheritance() {
    let mut fw = Firewall::new();
    fw.set_default_action(Action::Reject);
    fw.add_rule(&Rule::new(v4(0x0a010000, 16)).with_range(200, 500, Protocol::TCP))
        .unwrap(); // 10.1.0.0/16
    fw.add_rule(&Rule::new(v4(0x0a010100, 24)).with_range(200, 800, Protocol::UDP))
        .unwrap(); // 10.1.1.0/24
    let src = Ip::V4(0x01010101);
    // the narrower block inherits the broader TCP range
    assert_eq!(
        fw.check_packet(&src, &Ip::V4(0x0a010107), TCP, 300),
        Action::Accept
    );
    // nothing propagates upward: outside the /24 no UDP rule applies
    assert_eq!(
        fw.check_packet(&src, &Ip::V4(0x0a010201), UDP, 300),
        Action::Reject
    );
    // the compiled stores say the same: the /16 TCP entry answers for
    // the whole block (no /24 TCP key exists, the longest match wins),
    // and the /16 has no UDP entry at all
    assert!(fw
        .compiled_store(0, TCP, &v4(0x0a010000, 16))
        .unwrap()
        .lookup(300));
    assert!(fw.compiled_store(0, TCP, &v4(0x0a010100, 24)).is_none());
    assert!(fw.compiled_store(0, UDP, &v4(0x0a010000, 16)).is_none());
    assert!(fw
        .compiled_store(0, UDP, &v4(0x0a010100, 24))
        .unwrap()
        .lookup(300));
}

#[test]
fn overlap_coalescing() {
    let mut fw = Firewall::new();
    let dest = v4(0x0a000001, 32);
    fw.add_rule(&Rule::new(dest).with_range(10, 20, Protocol::Generic))
        .unwrap();
    fw.add_rule(&Rule::new(dest).with_range(15, 20, Protocol::Generic))
        .unwrap();
    fw.add_rule(&Rule::new(dest).with_range(15, 25, Protocol::Generic))
        .unwrap();
    fw.add_rule(&Rule::new(dest).with_range(18, 40, Protocol::Generic))
        .unwrap();
    for proto in [TCP, UDP] {
        let st = fw.compiled_store(0, proto, &dest).unwrap();
        assert_eq!(st.len(), 1);
        assert!(st.lookup(10));
        assert!(st.lookup(40));
        assert!(st.lookup(27));
        assert!(!st.lookup(9));
        assert!(!st.lookup(41));
    }
}

#[test]
fn add_remove_round_trip() {
    let mut fw = Firewall::new();
    fw.set_default_action(Action::Reject);
    let kept = Rule::new(v4(0x0a010000, 16)).with_range(100, 200, Protocol::TCP);
    fw.add_rule(&kept).unwrap();
    let src = Ip::V4(0x01010101);
    let probe = Ip::V4(0x0a010107);
    assert_eq!(fw.check_packet(&src, &probe, TCP, 150), Action::Accept);
    assert_eq!(fw.check_packet(&src, &probe, TCP, 999), Action::Reject);

    // a rule whose key no broader key feeds: removal restores the table
    let transient = Rule::new(v4(0xac100000, 16)).with_range(900, 999, Protocol::Generic);
    let tprobe = Ip::V4(0xac100107);
    fw.add_rule(&transient).unwrap();
    assert_eq!(fw.check_packet(&src, &tprobe, TCP, 999), Action::Accept);
    assert_eq!(fw.check_packet(&src, &tprobe, UDP, 999), Action::Accept);
    fw.remove_rule(&transient).unwrap();

    // the transient rule's keys are gone and the kept rule is intact
    assert!(fw.compiled_store(0, TCP, &v4(0xac100000, 16)).is_none());
    assert!(fw.compiled_store(0, UDP, &v4(0xac100000, 16)).is_none());
    assert_eq!(fw.check_packet(&src, &tprobe, TCP, 999), Action::Reject);
    assert_eq!(fw.check_packet(&src, &probe, TCP, 150), Action::Accept);
    let st = fw.compiled_store(0, TCP, &v4(0x0a010000, 16)).unwrap();
    assert!(st.lookup(100) && st.lookup(200) && !st.lookup(99) && !st.lookup(201));
}

#[test]
fn removal_keeps_inherited_copies() {
    // a key created inside a broader block keeps what it inherited even
    // after its own rule is withdrawn
    let mut fw = Firewall::new();
    fw.set_default_action(Action::Reject);
    fw.add_rule(&Rule::new(v4(0x0a010000, 16)).with_range(100, 200, Protocol::TCP))
        .unwrap();
    let transient = Rule::new(v4(0x0a010100, 24)).with_range(900, 999, Protocol::TCP);
    fw.add_rule(&transient).unwrap();
    fw.remove_rule(&transient).unwrap();
    // the narrow key survives, holding the broader block's range
    let st = fw.compiled_store(0, TCP, &v4(0x0a010100, 24)).unwrap();
    assert!(st.lookup(150));
    assert!(!st.lookup(999));
}

#[test]
fn default_action_flips_verdicts() {
    let mut fw = Firewall::new();
    let src = Ip::V4(0x01010101);
    let dst = Ip::V4(0x0a000005);
    // unset configuration drops
    assert_eq!(fw.check_packet(&src, &dst, TCP, 22), Action::Reject);
    fw.set_default_action(Action::Accept);
    assert_eq!(fw.check_packet(&src, &dst, TCP, 22), Action::Accept);
    // a matching rule inverts the accepting default into a drop
    fw.add_rule(&Rule::new(v4(0x0a000005, 32))).unwrap();
    assert_eq!(fw.check_packet(&src, &dst, TCP, 22), Action::Reject);
}

#[test]
fn port_zero_matches_only_universal_rules() {
    let mut fw = Firewall::new();
    fw.set_default_action(Action::Reject);
    fw.add_rule(&Rule::new(v4(0x0a000005, 32)).with_range(22, 22, Protocol::TCP))
        .unwrap();
    let src = Ip::V4(0x01010101);
    // a packet that is not TCP/UDP carries port 0 and misses the ranged rule
    assert_eq!(fw.check_packet(&src, &Ip::V4(0x0a000005), 0x01, 0), Action::Reject);
    // a universal rule matches it
    fw.add_rule(&Rule::new(v4(0x0a000006, 32))).unwrap();
    assert_eq!(fw.check_packet(&src, &Ip::V4(0x0a000006), 0x01, 0), Action::Accept);
}
