//! The compact rule store: construction, the universal rule, capacity,
//! layout, the range word encoding, and order-insensitive compilation.
use firewall::resolve::resolve_overlap;
use firewall::rule_store::{end, new_rule, start, RuleStore, RuleStoreError, MAX_RANGES};

#[test]
fn add_rule() {
    let rule_store = RuleStore::new(&vec![(3, 6), (10, 50), (6000, 6000)]).unwrap();
    let cases: Vec<(u16, bool)> = vec![
        (4, true),
        (5, true),
        (3, true),
        (6, true),
        (7, false),
        (21, true),
        (28, true),
        (87, false),
        (50, true),
        (10, true),
        (6000, true),
        (8000, false),
        (0, false),
    ];
    for (port, is_contained) in cases {
        assert_eq!(rule_store.lookup(port), is_contained);
    }
}

#[test]
fn port_0_matches_all() {
    let rule_store = RuleStore::new(&vec![(0, 0)]).unwrap();
    let cases: Vec<u16> = vec![4, 5, 3, 6, 7, 21, 28, 87, 50, 10, 6000, 8000];
    for port in cases {
        assert_eq!(rule_store.lookup(port), true);
    }
}

#[test]
fn test_exhausted_error() {
    let ports: Vec<(u16, u16)> = (0..(MAX_RANGES + 1) as u16).map(|i| (i, i)).collect();
    let rule_store = RuleStore::new(&ports);
    assert!(rule_store.is_err());
    assert_eq!(rule_store.unwrap_err(), RuleStoreError::Exhausted);
}

#[test]
fn test_struct_alignment() {
    assert_eq!(std::mem::size_of::<RuleStore>(), (MAX_RANGES * 4) + 4);
}

#[test]
fn test_well_formed_rules() {
    let cases: Vec<(u16, u16)> = vec![(10, 20), (100, 240), (0, 65535), (1111, 11111), (90, 445)];
    for (port_start, port_end) in cases {
        let rule = new_rule(port_start, port_end);
        assert_eq!(start(rule), port_start);
        assert_eq!(end(rule), port_end);
    }
}

#[test]
fn malformed_rules_rejected() {
    assert_eq!(
        RuleStore::new(&vec![(10, 5)]).unwrap_err(),
        RuleStoreError::MalFormed
    );
    assert_eq!(
        RuleStore::new(&vec![(1, 10), (5, 20)]).unwrap_err(),
        RuleStoreError::MalFormed
    );
    assert_eq!(
        RuleStore::new(&vec![(30, 40), (1, 2)]).unwrap_err(),
        RuleStoreError::MalFormed
    );
}

#[test]
fn empty_store_matches_nothing() {
    let rule_store = RuleStore::new(&vec![]).unwrap();
    assert!(!rule_store.lookup(0));
    assert!(!rule_store.lookup(1));
    assert!(!rule_store.lookup(65535));
}

#[test]
fn resolution_ignores_addition_order() {
    // two different sequences of adds with the same union of intervals
    let a = resolve_overlap(&vec![(10, 20), (15, 25), (18, 40), (50, 60)]);
    let b = resolve_overlap(&vec![(50, 60), (18, 40), (10, 18), (15, 25), (10, 20)]);
    let sa = RuleStore::new(&a).unwrap();
    let sb = RuleStore::new(&b).unwrap();
    for port in 0..100u16 {
        assert_eq!(sa.lookup(port), sb.lookup(port), "port {port}");
    }
    assert_eq!(a, vec![(10, 40), (50, 60)]);
    assert_eq!(b, vec![(10, 40), (50, 60)]);
}
