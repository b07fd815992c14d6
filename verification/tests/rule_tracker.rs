//! The rule tracker: inheritance across CIDRs, the universal rule, and
//! removal with propagated copies, checked against the compiled table.
use firewall::cidr::{Cidr, CidrV4, CidrV6};
use firewall::lpm::LpmStore;
use firewall::error::FirewallError;
use firewall::rule::{Protocol, Rule};
use firewall::rule_store::{RuleStoreError, MAX_RANGES};
use firewall::tracker::RuleTracker;
use Protocol::{Generic, TCP, UDP};

fn v4(addr: u32, prefix: u8) -> Cidr {
    Cidr::V4(CidrV4 { addr, prefix })
}

fn v6(addr: u128, prefix: u8) -> Cidr {
    Cidr::V6(CidrV6 { addr, prefix })
}

fn add(
    tracker: &mut RuleTracker,
    store: &mut LpmStore,
    dest: Cidr,
    lo: u16,
    hi: u16,
    proto: Protocol,
) {
    tracker
        .add_rule(store, &Rule::new(dest).with_range(lo, hi, proto))
        .unwrap();
}

/// Expands `Generic` expectations into both concrete protocols, then
/// checks each against the compiled store under the ungrouped key.
fn expect(store: &LpmStore, dest: Cidr, cases: &[(Protocol, u16)], should_match: bool) {
    for &(proto, port) in cases {
        let protos: Vec<Protocol> = match proto {
            Protocol::Generic => vec![Protocol::TCP, Protocol::UDP],
            p => vec![p],
        };
        for p in protos {
            match store.get(0, p.byte(), &dest) {
                Some(st) => {
                    assert_eq!(
                        st.lookup(port),
                        should_match,
                        "port {port} under {dest:?} proto {p:?}"
                    );
                }
                None => {
                    assert!(!should_match, "no entry for {dest:?} proto {p:?}");
                }
            }
        }
    }
}

fn prepare_ipv4() -> (RuleTracker, LpmStore) {
    let mut tracker = RuleTracker::new();
    let mut store = LpmStore::new();
    let host = v4(0x0a010103, 32); // 10.1.1.3/32
    let net16 = v4(0x0a010000, 16); // 10.1.0.0/16
    let net24 = v4(0x0a010100, 24); // 10.1.1.0/24
    add(&mut tracker, &mut store, host, 10, 20, Protocol::Generic);
    add(&mut tracker, &mut store, host, 15, 20, Protocol::Generic);
    add(&mut tracker, &mut store, host, 15, 25, Protocol::Generic);
    add(&mut tracker, &mut store, net16, 200, 500, Protocol::UDP);
    add(&mut tracker, &mut store, net16, 12, 16, Protocol::TCP);
    add(&mut tracker, &mut store, host, 18, 40, Protocol::Generic);
    add(&mut tracker, &mut store, net24, 200, 800, Protocol::UDP);
    add(&mut tracker, &mut store, net24, 999, 999, Protocol::TCP);
    add(&mut tracker, &mut store, net16, 6000, 8000, Protocol::TCP);
    (tracker, store)
}

fn prepare_ipv6() -> (RuleTracker, LpmStore) {
    let mut tracker = RuleTracker::new();
    let mut store = LpmStore::new();
    let host = v6(0xfafa_0000_0000_0000_0001_0000_0000_0003, 128);
    let net64 = v6(0xfafa_0000_0000_0000_0000_0000_0000_0000, 64);
    let net96 = v6(0xfafa_0000_0000_0000_0001_0000_0000_0000, 96);
    add(&mut tracker, &mut store, host, 10, 20, Protocol::Generic);
    add(&mut tracker, &mut store, host, 15, 20, Protocol::Generic);
    add(&mut tracker, &mut store, host, 15, 25, Protocol::Generic);
    add(&mut tracker, &mut store, net64, 200, 500, Protocol::UDP);
    add(&mut tracker, &mut store, net64, 12, 16, Protocol::TCP);
    add(&mut tracker, &mut store, host, 18, 40, Protocol::Generic);
    add(&mut tracker, &mut store, net96, 200, 800, Protocol::UDP);
    add(&mut tracker, &mut store, net96, 999, 999, Protocol::TCP);
    add(&mut tracker, &mut store, net64, 6000, 8000, Protocol::TCP);
    (tracker, store)
}

fn prepared_expect_v4(store: &LpmStore) {
    let host = v4(0x0a010103, 32);
    let net16 = v4(0x0a010000, 16);
    let net24 = v4(0x0a010100, 24);
    let other_host = v4(0x0a000003, 32); // 10.0.0.3/32
    expect(
        store,
        host,
        &[
            (Generic, 10),
            (Generic, 20),
            (Generic, 25),
            (UDP, 200),
            (UDP, 800),
            (TCP, 999),
            (TCP, 7000),
        ],
        true,
    );
    expect(store, host, &[(TCP, 200), (TCP, 800), (UDP, 999)], false);
    expect(store, other_host, &[(TCP, 200), (TCP, 800), (UDP, 999)], false);
    expect(
        store,
        net24,
        &[(UDP, 200), (UDP, 800), (TCP, 999), (TCP, 7000)],
        true,
    );
    expect(
        store,
        net24,
        &[
            (Generic, 10),
            (Generic, 20),
            (Generic, 25),
            (TCP, 200),
            (TCP, 800),
            (UDP, 999),
            (UDP, 7000),
        ],
        false,
    );
    expect(store, net16, &[(UDP, 200), (TCP, 7000)], true);
    expect(
        store,
        net16,
        &[
            (Generic, 10),
            (Generic, 20),
            (Generic, 25),
            (TCP, 200),
            (Generic, 800),
            (UDP, 7000),
        ],
        false,
    );
}

fn prepared_expect_v6(store: &LpmStore) {
    let host = v6(0xfafa_0000_0000_0000_0001_0000_0000_0003, 128);
    let net64 = v6(0xfafa_0000_0000_0000_0000_0000_0000_0000, 64);
    let net96 = v6(0xfafa_0000_0000_0000_0001_0000_0000_0000, 96);
    let other_host = v6(0xfafa_0000_0000_0000_0000_0000_0000_0003, 128);
    expect(
        store,
        host,
        &[
            (Generic, 10),
            (Generic, 20),
            (Generic, 25),
            (UDP, 200),
            (UDP, 800),
            (TCP, 999),
            (TCP, 7000),
        ],
        true,
    );
    expect(store, host, &[(TCP, 200), (TCP, 800), (UDP, 999)], false);
    expect(store, other_host, &[(TCP, 200), (TCP, 800), (UDP, 999)], false);
    expect(
        store,
        net96,
        &[(UDP, 200), (UDP, 800), (TCP, 999), (TCP, 7000)],
        true,
    );
    expect(
        store,
        net96,
        &[
            (Generic, 10),
            (Generic, 20),
            (Generic, 25),
            (TCP, 200),
            (TCP, 800),
            (UDP, 999),
            (UDP, 7000),
        ],
        false,
    );
    expect(store, net64, &[(UDP, 200), (TCP, 7000)], true);
    expect(
        store,
        net64,
        &[
            (Generic, 10),
            (Generic, 20),
            (Generic, 25),
            (TCP, 200),
            (Generic, 800),
            (UDP, 7000),
        ],
        false,
    );
}

#[test]
fn add_ipv4_rule_works() {
    let (_tracker, store) = prepare_ipv4();
    prepared_expect_v4(&store);
}

#[test]
fn port_0_match_all_ip_v4() {
    let (mut tracker, mut store) = prepare_ipv4();
    add(
        &mut tracker,
        &mut store,
        v4(0x0a010100, 24),
        0,
        0,
        Protocol::Generic,
    );
    // the universal rule overrides every earlier miss on the /24 and on
    // the host it propagates to; everything else stays as prepared
    let all: Vec<(Protocol, u16)> = (0..65535u16).map(|p| (Protocol::Generic, p)).collect();
    expect(&store, v4(0x0a010100, 24), &all, true);
    expect(&store, v4(0x0a010103, 32), &all, true);
    expect(&store, v4(0x0a010000, 16), &[(UDP, 200), (TCP, 7000)], true);
    expect(
        &store,
        v4(0x0a010000, 16),
        &[
            (Generic, 10),
            (Generic, 20),
            (Generic, 25),
            (TCP, 200),
            (Generic, 800),
            (UDP, 7000),
        ],
        false,
    );
    expect(
        &store,
        v4(0x0a000003, 32),
        &[(TCP, 200), (TCP, 800), (UDP, 999)],
        false,
    );
}

#[test]
fn remove_ipv4_rule_works() {
    let (mut tracker, mut store) = prepare_ipv4();
    tracker
        .remove_rule(
            &mut store,
            &Rule::new(v4(0x0a010100, 24)).with_range(200, 800, Protocol::UDP),
        )
        .unwrap();
    expect(&store, v4(0x0a010103, 32), &[(Protocol::UDP, 800)], false);
    expect(&store, v4(0x0a010100, 24), &[(Protocol::UDP, 800)], false);
}

#[test]
fn add_ipv6_rule_works() {
    let (_tracker, store) = prepare_ipv6();
    prepared_expect_v6(&store);
}

#[test]
fn port_0_match_all_ip_v6() {
    let (mut tracker, mut store) = prepare_ipv6();
    add(
        &mut tracker,
        &mut store,
        v6(0xfafa_0000_0000_0000_0001_0000_0000_0000, 96),
        0,
        0,
        Protocol::Generic,
    );
    // the universal rule overrides every earlier miss on the /96 and on
    // the host it propagates to; everything else stays as prepared
    let all: Vec<(Protocol, u16)> = (0..65535u16).map(|p| (Protocol::Generic, p)).collect();
    expect(
        &store,
        v6(0xfafa_0000_0000_0000_0001_0000_0000_0000, 96),
        &all,
        true,
    );
    expect(
        &store,
        v6(0xfafa_0000_0000_0000_0001_0000_0000_0003, 128),
        &all,
        true,
    );
    expect(
        &store,
        v6(0xfafa_0000_0000_0000_0000_0000_0000_0000, 64),
        &[(UDP, 200), (TCP, 7000)],
        true,
    );
    expect(
        &store,
        v6(0xfafa_0000_0000_0000_0000_0000_0000_0000, 64),
        &[
            (Generic, 10),
            (Generic, 20),
            (Generic, 25),
            (TCP, 200),
            (Generic, 800),
            (UDP, 7000),
        ],
        false,
    );
    expect(
        &store,
        v6(0xfafa_0000_0000_0000_0000_0000_0000_0003, 128),
        &[(TCP, 200), (TCP, 800), (UDP, 999)],
        false,
    );
}

#[test]
fn remove_ipv6_rule_works() {
    let (mut tracker, mut store) = prepare_ipv6();
    tracker
        .remove_rule(
            &mut store,
            &Rule::new(v6(0xfafa_0000_0000_0000_0001_0000_0000_0000, 96)).with_range(
                200,
                800,
                Protocol::UDP,
            ),
        )
        .unwrap();
    expect(
        &store,
        v6(0xfafa_0000_0000_0000_0001_0000_0000_0003, 128),
        &[(Protocol::UDP, 800)],
        false,
    );
    expect(
        &store,
        v6(0xfafa_0000_0000_0000_0001_0000_0000_0000, 96),
        &[(Protocol::UDP, 800)],
        false,
    );
}

#[test]
fn invalid_port_range_rejected() {
    let mut tracker = RuleTracker::new();
    let mut store = LpmStore::new();
    // a range holding 0 together with other ports
    assert_eq!(
        tracker.add_rule(
            &mut store,
            &Rule::new(v4(0x0a000000, 8)).with_range(0, 5, Protocol::TCP)
        ),
        Err(FirewallError::InvalidPort)
    );
    // an inverted range
    assert_eq!(
        tracker.add_rule(
            &mut store,
            &Rule::new(v4(0x0a000000, 8)).with_range(9, 3, Protocol::TCP)
        ),
        Err(FirewallError::InvalidPort)
    );
    assert_eq!(store.len(), 0);
}

#[test]
fn capacity_exhausted_rejected_atomically() {
    let mut tracker = RuleTracker::new();
    let mut store = LpmStore::new();
    let dest = v4(0x0a000001, 32);
    // fill one key with the maximum number of disjoint ranges
    for i in 0..MAX_RANGES as u16 {
        add(
            &mut tracker,
            &mut store,
            dest,
            10 * i + 10,
            10 * i + 11,
            Protocol::TCP,
        );
    }
    let full = store.get(0, Protocol::TCP.byte(), &dest).unwrap();
    assert_eq!(full.len(), MAX_RANGES);
    // one more disjoint range cannot fit, and nothing changes
    assert_eq!(
        tracker.add_rule(
            &mut store,
            &Rule::new(dest).with_range(9000, 9001, Protocol::TCP)
        ),
        Err(FirewallError::RuleEntry(RuleStoreError::Exhausted))
    );
    let after = store.get(0, Protocol::TCP.byte(), &dest).unwrap();
    assert_eq!(after.len(), MAX_RANGES);
    assert!(!after.lookup(9000));
}
