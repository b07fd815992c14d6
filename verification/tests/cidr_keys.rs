//! The composite LPM key layout: group id little-endian, protocol byte,
//! then the normalised address in network order.
use firewall::cidr::{AsKey, Cidr, CidrV4, CidrV6, Contains, Normalize};
use firewall::rule::Protocol;

#[test]
fn as_key_works() {
    // 142.251.134.77/32
    let cidr = Cidr::V4(CidrV4 { addr: 0x8efb864d, prefix: 32 });
    let k = cidr.as_key(0, Protocol::TCP.byte());
    assert_eq!(
        k.data,
        vec![0u8, 0, 0, 0, 0, 0, 0, 0, 0, 0, 0, 0, 0, 0, 0, 0, 6, 142, 251, 134, 77]
    );
    assert_eq!(k.prefix_len, 168);
}

#[test]
fn as_key_works_24() {
    // 142.251.134.77/24: the key carries the normalised address
    let cidr = Cidr::V4(CidrV4 { addr: 0x8efb864d, prefix: 24 });
    let k = cidr.as_key(0, Protocol::TCP.byte());
    assert_eq!(
        k.data,
        vec![0u8, 0, 0, 0, 0, 0, 0, 0, 0, 0, 0, 0, 0, 0, 0, 0, 6, 142, 251, 134, 0]
    );
    assert_eq!(k.prefix_len, 160);
}

#[test]
fn as_key_works_ipv6() {
    // fafa::3/128
    let cidr = Cidr::V6(CidrV6 {
        addr: 0xfafa_0000_0000_0000_0000_0000_0000_0003,
        prefix: 128,
    });
    let k = cidr.as_key(0, Protocol::TCP.byte());
    assert_eq!(
        k.data,
        vec![
            0u8, 0, 0, 0, 0, 0, 0, 0, 0, 0, 0, 0, 0, 0, 0, 0, 6, 0xfa, 0xfa, 0x00, 0x00, 0x00,
            0x00, 0x00, 0x00, 0x00, 0x00, 0x00, 0x00, 0x00, 0x00, 0x00, 0x03,
        ]
    );
    assert_eq!(k.prefix_len, 264);
}

#[test]
fn as_key_works_with_id() {
    // 1.1.1.1/32 under id 95112de5-62df-4fbc-9688-47681b1fe89d
    let cidr = Cidr::V4(CidrV4 { addr: 0x01010101, prefix: 32 });
    let id: u128 = 0x95112de5_62df_4fbc_9688_47681b1fe89d;
    let k = cidr.as_key(id, Protocol::Generic.byte());
    assert_eq!(
        k.data,
        vec![
            0x9d, 0xe8, 0x1f, 0x1b, 0x68, 0x47, 0x88, 0x96, 0xbc, 0x4f, 0xdf, 0x62, 0xe5, 0x2d,
            0x11, 0x95, 255, 1, 1, 1, 1,
        ]
    );
    assert_eq!(k.prefix_len, 168);
}

#[test]
fn normalise_zeroes_host_bits() {
    let cidr = Cidr::V4(CidrV4 { addr: 0x0a0a0aff, prefix: 16 });
    assert_eq!(
        cidr.normalize(),
        Cidr::V4(CidrV4 { addr: 0x0a0a0000, prefix: 16 })
    );
    let v6 = Cidr::V6(CidrV6 {
        addr: 0xfafa_0000_0000_0000_0000_0000_0000_0003,
        prefix: 64,
    });
    assert_eq!(
        v6.normalize(),
        Cidr::V6(CidrV6 {
            addr: 0xfafa_0000_0000_0000_0000_0000_0000_0000,
            prefix: 64,
        })
    );
}

#[test]
fn containment_follows_prefixes() {
    let net8 = Cidr::V4(CidrV4 { addr: 0x0a000000, prefix: 8 });
    let net24 = Cidr::V4(CidrV4 { addr: 0x0a000100, prefix: 24 });
    let other = Cidr::V4(CidrV4 { addr: 0x0b000000, prefix: 8 });
    assert!(net8.contains(&net24));
    assert!(!net24.contains(&net8));
    assert!(!other.contains(&net24));
    assert!(net8.contains(&net8));
    // families never contain one another
    let v6 = Cidr::V6(CidrV6 { addr: 0, prefix: 0 });
    assert!(!net8.contains(&v6));
    assert!(!v6.contains(&net8));
}
