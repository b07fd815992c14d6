//! The source classifier and its mirrored data-plane table.
use firewall::cidr::Ip;
use firewall::classifier::{Classifier, SourceStore};
use firewall::error::FirewallError;

#[test]
fn insert_v4() {
    let mut classifier = Classifier::new();
    let mut store = SourceStore::new();
    let ip = Ip::V4(0x0a000001);
    classifier
        .insert(&mut store, ip, 1u128)
        .expect("Couldn't insert into store");
    assert_eq!(classifier.ips_of(1u128), Some(vec![ip]));
}

#[test]
fn insert_v6() {
    let mut classifier = Classifier::new();
    let mut store = SourceStore::new();
    let ip = Ip::V6(0xfe80_0000_0000_0000_0000_0000_0000_0001);
    classifier
        .insert(&mut store, ip, 1u128)
        .expect("Couldn't insert into store");
    assert_eq!(classifier.ips_of(1u128), Some(vec![ip]));
}

#[test]
fn remove_v4() {
    let mut classifier = Classifier::new();
    let mut store = SourceStore::new();
    let ip = Ip::V4(0x0a000001);
    classifier
        .insert(&mut store, ip, 1u128)
        .expect("Couldn't insert into store");
    assert_eq!(classifier.ips_of(1u128), Some(vec![ip]));
    classifier
        .remove(&mut store, &ip)
        .expect("Couldn't remove from store");
    assert_eq!(classifier.ips_of(1u128), None);
}

#[test]
fn remove_v6() {
    let mut classifier = Classifier::new();
    let mut store = SourceStore::new();
    let ip = Ip::V6(0xfe80_0000_0000_0000_0000_0000_0000_0001);
    classifier
        .insert(&mut store, ip, 1u128)
        .expect("Couldn't insert into store");
    assert_eq!(classifier.ips_of(1u128), Some(vec![ip]));
    classifier
        .remove(&mut store, &ip)
        .expect("Couldn't remove from store");
    assert_eq!(classifier.ips_of(1u128), None);
}

#[test]
fn remove_v4_by_id() {
    let mut classifier = Classifier::new();
    let mut store = SourceStore::new();
    let ip = Ip::V4(0x0a000001);
    classifier
        .insert(&mut store, ip, 1u128)
        .expect("Couldn't insert into store");
    assert_eq!(classifier.ips_of(1u128), Some(vec![ip]));
    classifier
        .remove_by_id(&mut store, 1u128)
        .expect("Couldn't remove by id");
    assert_eq!(classifier.ips_of(1u128), None);
}

#[test]
fn remove_v6_by_id() {
    let mut classifier = Classifier::new();
    let mut store = SourceStore::new();
    let ip = Ip::V6(0xfe80_0000_0000_0000_0000_0000_0000_0001);
    classifier
        .insert(&mut store, ip, 1u128)
        .expect("Couldn't insert into store");
    assert_eq!(classifier.ips_of(1u128), Some(vec![ip]));
    classifier
        .remove_by_id(&mut store, 1u128)
        .expect("Couldn't remove by id");
    assert_eq!(classifier.ips_of(1u128), None);
}

#[test]
fn insert_id_zero_fails() {
    let mut classifier = Classifier::new();
    let mut store = SourceStore::new();
    let ip = Ip::V4(0x0a000001);
    assert_eq!(
        classifier.insert(&mut store, ip, 0u128),
        Err(FirewallError::InvalidId)
    );
    assert_eq!(store.get(&ip), None);
}

#[test]
fn remove_unknown_ip_fails() {
    let mut classifier = Classifier::new();
    let mut store = SourceStore::new();
    let ip = Ip::V4(0x0a000001);
    assert_eq!(
        classifier.remove(&mut store, &ip),
        Err(FirewallError::NotFound)
    );
}

#[test]
fn remove_by_unknown_id_fails() {
    let mut classifier = Classifier::new();
    let mut store = SourceStore::new();
    assert_eq!(
        classifier.remove_by_id(&mut store, 7u128),
        Err(FirewallError::NotExistingId)
    );
}

#[test]
fn data_plane_map_tracks_assignments() {
    let mut classifier = Classifier::new();
    let mut store = SourceStore::new();
    let a = Ip::V4(0x0a000001);
    let b = Ip::V4(0x0a000002);
    classifier.insert(&mut store, a, 1).unwrap();
    classifier.insert(&mut store, b, 2).unwrap();
    assert_eq!(store.get(&a), Some(1));
    assert_eq!(store.get(&b), Some(2));
    classifier.remove_by_id(&mut store, 1).unwrap();
    assert_eq!(store.get(&a), None);
    assert_eq!(store.get(&b), Some(2));
}
