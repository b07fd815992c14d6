//! The per-packet decision: the algorithm the in-kernel classifier runs
//! for every ingress packet, plus the log record it emits.
//!
//! Given a packet's source, destination, protocol and destination port,
//! the source table resolves the group id, the rule table is queried
//! once under that group and once ungrouped, and a matching rule store
//! inverts the default verdict.
use vstd::prelude::*;
use crate::cidr::{Cidr, Contains, Ip};
use crate::classifier::SourceStore;
use crate::config::ConfigHandler;
use crate::error::FirewallError;
use crate::lpm::{LpmStore, query_matches};
use crate::rule_store::{Action, spec_lookup};

verus! {

/// Some entry under this group and protocol contains the destination,
/// has the longest prefix among those that do, and its store matches
/// the port.
pub open spec fn spec_hit(lpm: &LpmStore, id: u128, proto: u8, ip: Ip, port: u16) -> bool {
    exists|i: int|
        0 <= i < lpm.entries().len() && query_matches(#[trigger] lpm.entries()[i], id, proto, ip)
            && (forall|j: int|
            0 <= j < lpm.entries().len() && query_matches(#[trigger] lpm.entries()[j], id, proto, ip)
                ==> lpm.entries()[j].cidr.prefix_spec() <= lpm.entries()[i].cidr.prefix_spec())
            && spec_lookup(lpm.entries()[i].store.ranges(), port)
}

/// The protocol byte a lookup uses: packets that carry no port are
/// probed under the canonical TCP byte so only universal rules can
/// match them.
pub open spec fn spec_lookup_proto(proto: u8, port: u16) -> u8 {
    if port == 0 {
        0x06u8
    } else {
        proto
    }
}

/// The verdict for one packet, as the data plane computes it.
pub open spec fn spec_decide(
    lpm: &LpmStore,
    sources: &SourceStore,
    config: &ConfigHandler,
    src: Ip,
    dst: Ip,
    proto: u8,
    port: u16,
) -> Action {
    let lp = spec_lookup_proto(proto, port);
    let gid = sources.spec_get(src);
    let g1: u128 = match gid {
        Some(g) => g,
        None => 0,
    };
    if spec_hit(lpm, g1, lp, dst, port) {
        config.spec_default_action().spec_invert()
    } else if gid is Some && spec_hit(lpm, 0, lp, dst, port) {
        config.spec_default_action().spec_invert()
    } else {
        config.spec_default_action()
    }
}

/// Two longest-prefix matches for one query are the same row.
proof fn lemma_best_unique(lpm: &LpmStore, id: u128, proto: u8, ip: Ip, i: int, j: int)
    requires
        lpm.wf(),
        0 <= i < lpm.entries().len(),
        0 <= j < lpm.entries().len(),
        query_matches(lpm.entries()[i], id, proto, ip),
        query_matches(lpm.entries()[j], id, proto, ip),
        lpm.entries()[i].cidr.prefix_spec() == lpm.entries()[j].cidr.prefix_spec(),
    ensures
        i == j,
{
    if i != j {
        let a = lpm.entries()[i].cidr;
        let b = lpm.entries()[j].cidr;
        let q = Cidr::spec_of_ip(ip);
        crate::cidr::Cidr::lemma_contains_antisym(&a, &b);
        assert(a.contains_spec(&b)) by {
            match (a, b, q) {
                (Cidr::V4(x), Cidr::V4(y), Cidr::V4(z)) => {
                    crate::cidr::lemma_mask4_compose(z.addr, x.prefix, 32);
                    assert(crate::cidr::spec_mask4(z.addr, 32) == z.addr);
                    assert(crate::cidr::spec_mask4(y.addr, x.prefix) == crate::cidr::spec_mask4(
                        z.addr,
                        x.prefix,
                    )) by {
                        crate::cidr::lemma_mask4_compose(z.addr, y.prefix, 32);
                        crate::cidr::lemma_mask4_compose(y.addr, x.prefix, y.prefix);
                        crate::cidr::lemma_mask4_compose(z.addr, x.prefix, y.prefix);
                    }
                },
                (Cidr::V6(x), Cidr::V6(y), Cidr::V6(z)) => {
                    crate::cidr::lemma_mask6_compose(z.addr, x.prefix, 128);
                    assert(crate::cidr::spec_mask6(z.addr, 128) == z.addr);
                    assert(crate::cidr::spec_mask6(y.addr, x.prefix) == crate::cidr::spec_mask6(
                        z.addr,
                        x.prefix,
                    )) by {
                        crate::cidr::lemma_mask6_compose(z.addr, y.prefix, 128);
                        crate::cidr::lemma_mask6_compose(y.addr, x.prefix, y.prefix);
                        crate::cidr::lemma_mask6_compose(z.addr, x.prefix, y.prefix);
                    }
                },
                _ => {},
            }
        }
    }
}

/// Decides one packet: resolve the source's group, probe the rule table
/// under it, fall back to the ungrouped entry, and invert the default
/// on a match.
/// Probes the rule table once: is there a longest-prefix entry whose
/// store matches the port?
fn probe(lpm: &LpmStore, id: u128, lp: u8, dst: &Ip, port: u16) -> (r: bool)
    requires
        lpm.wf(),
    ensures
        r == spec_hit(lpm, id, lp, *dst, port),
{
    match lpm.lookup(id, lp, dst) {
        Some(st) => {
            let h = st.lookup(port);
            proof {
                lemma_hit_agrees(lpm, id, lp, *dst, port, st, h);
            }
            h
        },
        None => {
            proof {
                assert(!spec_hit(lpm, id, lp, *dst, port));
            }
            false
        },
    }
}

/// Decides one packet: resolve the source's group, probe the rule table
/// under it, fall back to the ungrouped entry, and invert the default
/// on a match.
pub fn decide(
    lpm: &LpmStore,
    sources: &SourceStore,
    config: &ConfigHandler,
    src: &Ip,
    dst: &Ip,
    proto: u8,
    port: u16,
) -> (r: Action)
    requires
        lpm.wf(),
    ensures
        r == spec_decide(lpm, sources, config, *src, *dst, proto, port),
{
    let lp: u8 = if port == 0 {
        0x06
    } else {
        proto
    };
    let default = config.default_action();
    let gid = sources.get(src);
    let g1: u128 = match gid {
        Some(g) => g,
        None => 0,
    };
    if probe(lpm, g1, lp, dst, port) {
        return default.invert();
    }
    match gid {
        Some(_) => {
            if probe(lpm, 0, lp, dst, port) {
                default.invert()
            } else {
                default
            }
        },
        None => default,
    }
}

/// The store the lookup returned answers for every longest-prefix
/// match: they are all the same row.
proof fn lemma_hit_agrees(
    lpm: &LpmStore,
    id: u128,
    proto: u8,
    ip: Ip,
    port: u16,
    st: crate::rule_store::RuleStore,
    h: bool,
)
    requires
        lpm.wf(),
        h == spec_lookup(st.ranges(), port),
        exists|i: int|
            0 <= i < lpm.entries().len() && query_matches(#[trigger] lpm.entries()[i], id, proto, ip)
                && lpm.entries()[i].store == st && (forall|j: int|
                0 <= j < lpm.entries().len() && query_matches(
                    #[trigger] lpm.entries()[j],
                    id,
                    proto,
                    ip,
                ) ==> lpm.entries()[j].cidr.prefix_spec() <= lpm.entries()[i].cidr.prefix_spec()),
    ensures
        h == spec_hit(lpm, id, proto, ip, port),
{
    let i = choose|i: int|
        0 <= i < lpm.entries().len() && query_matches(#[trigger] lpm.entries()[i], id, proto, ip)
            && lpm.entries()[i].store == st && (forall|j: int|
            0 <= j < lpm.entries().len() && query_matches(#[trigger] lpm.entries()[j], id, proto, ip)
                ==> lpm.entries()[j].cidr.prefix_spec() <= lpm.entries()[i].cidr.prefix_spec());
    if h {
        assert(spec_hit(lpm, id, proto, ip, port)) by {
            assert(query_matches(lpm.entries()[i], id, proto, ip) && spec_lookup(
                lpm.entries()[i].store.ranges(),
                port,
            ));
        }
    } else {
        if spec_hit(lpm, id, proto, ip, port) {
            let k = choose|k: int|
                0 <= k < lpm.entries().len() && query_matches(
                    #[trigger] lpm.entries()[k],
                    id,
                    proto,
                    ip,
                ) && (forall|j: int|
                    0 <= j < lpm.entries().len() && query_matches(
                        #[trigger] lpm.entries()[j],
                        id,
                        proto,
                        ip,
                    ) ==> lpm.entries()[j].cidr.prefix_spec() <= lpm.entries()[k].cidr.prefix_spec())
                    && spec_lookup(lpm.entries()[k].store.ranges(), port);
            assert(lpm.entries()[k].cidr.prefix_spec() <= lpm.entries()[i].cidr.prefix_spec());
            assert(lpm.entries()[i].cidr.prefix_spec() <= lpm.entries()[k].cidr.prefix_spec());
            lemma_best_unique(lpm, id, proto, ip, i, k);
        }
    }
}

/// The record the data plane emits for every decision, as laid out in
/// the per-CPU ring: addresses padded to sixteen bytes, v4 in the low
/// four.
#[derive(Clone, Copy, Debug)]
pub struct PacketLog {
    pub source: [u8; 16],
    pub dest: [u8; 16],
    pub action: i32,
    pub dest_port: u16,
    pub src_port: u16,
    pub proto: u8,
    pub version: u8,
    pub class: Option<[u8; 16]>,
}

/// A decoded, validated log event.
#[derive(Clone, Copy, Debug, PartialEq, Eq, Structural)]
pub struct LogRecord {
    pub source: Ip,
    pub dest: Ip,
    pub action: Action,
    pub dest_port: Option<u16>,
    pub src_port: Option<u16>,
    pub proto: u8,
    pub class: Option<u128>,
}

/// The value of little-endian bytes: the first byte is least
/// significant.
pub open spec fn spec_le(s: Seq<u8>) -> nat
    decreases s.len(),
{
    if s.len() == 0 {
        0
    } else {
        (s[0] + 256 * spec_le(s.drop_first())) as nat
    }
}

/// The value of big-endian bytes: the last byte is least significant.
pub open spec fn spec_be(s: Seq<u8>) -> nat
    decreases s.len(),
{
    if s.len() == 0 {
        0
    } else {
        (s.last() + 256 * spec_be(s.drop_last())) as nat
    }
}

/// The value of big-endian bytes stays below the width they can hold.
proof fn lemma_be_bound(s: Seq<u8>)
    ensures
        spec_be(s) < vstd::arithmetic::power2::pow2((8 * s.len()) as nat),
    decreases s.len(),
{
    vstd::arithmetic::power2::lemma_pow2_pos((8 * s.len()) as nat);
    if s.len() == 0 {
        vstd::arithmetic::power2::lemma2_to64();
    } else {
        lemma_be_bound(s.drop_last());
        vstd::arithmetic::power2::lemma_pow2_adds((8 * (s.len() - 1)) as nat, 8);
        vstd::arithmetic::power2::lemma2_to64();
        let p = vstd::arithmetic::power2::pow2((8 * (s.len() - 1)) as nat) as int;
        assert(spec_be(s.drop_last()) <= p - 1);
        assert(256 * spec_be(s.drop_last()) <= 256 * (p - 1)) by {
            vstd::arithmetic::mul::lemma_mul_inequality(
                spec_be(s.drop_last()) as int,
                p - 1,
                256,
            );
            vstd::arithmetic::mul::lemma_mul_is_commutative(spec_be(s.drop_last()) as int, 256);
            vstd::arithmetic::mul::lemma_mul_is_commutative(p - 1, 256);
        }
    }
}

/// Reads the first four bytes as a big-endian 32-bit address.
pub fn be32_of(s: &[u8; 16]) -> (r: u32)
    ensures
        r == spec_be(s@.take(4)),
{
    let r: u32 = (s[0] as u32) * 0x100_0000 + (s[1] as u32) * 0x1_0000 + (s[2] as u32) * 0x100 + (
    s[3] as u32);
    proof {
        let t4 = s@.take(4);
        let t3 = s@.take(3);
        let t2 = s@.take(2);
        let t1 = s@.take(1);
        let t0 = s@.take(0);
        assert(t4.drop_last() =~= t3 && t3.drop_last() =~= t2 && t2.drop_last() =~= t1
            && t1.drop_last() =~= t0);
        assert(t0 =~= Seq::<u8>::empty());
        assert(spec_be(t0) == 0);
        assert(spec_be(t1) == s@[0] + 256 * spec_be(t0));
        assert(spec_be(t2) == s@[1] + 256 * spec_be(t1));
        assert(spec_be(t3) == s@[2] + 256 * spec_be(t2));
        assert(spec_be(t4) == s@[3] + 256 * spec_be(t3));
    }
    r
}

/// Reads all sixteen bytes as a big-endian 128-bit address.
pub fn be128_of(s: &[u8; 16]) -> (r: u128)
    ensures
        r == spec_be(s@),
{
    let mut acc: u128 = 0;
    let mut i: usize = 0;
    proof {
        assert(s@.take(0) =~= Seq::<u8>::empty());
    }
    while i < 16
        invariant
            i <= 16,
            acc == spec_be(s@.take(i as int)),
        decreases 16 - i,
    {
        proof {
            lemma_be_bound(s@.take(i as int));
            vstd::arithmetic::power2::lemma_pow2_adds((8 * i) as nat, 8);
            crate::cidr::lemma_pow2_128();
            if i < 15 {
                vstd::arithmetic::power2::lemma_pow2_strictly_increases(
                    (8 * (i + 1)) as nat,
                    128,
                );
            }
            vstd::arithmetic::power2::lemma2_to64();
            let p = vstd::arithmetic::power2::pow2((8 * i) as nat) as int;
            assert(acc <= p - 1);
            assert(256 * (acc as int) <= 256 * (p - 1)) by {
                vstd::arithmetic::mul::lemma_mul_inequality(acc as int, p - 1, 256);
                vstd::arithmetic::mul::lemma_mul_is_commutative(acc as int, 256);
                vstd::arithmetic::mul::lemma_mul_is_commutative(p - 1, 256);
            }
            assert(s@.take(i as int + 1).drop_last() =~= s@.take(i as int));
            assert(s@.take(i as int + 1).last() == s@[i as int]);
        }
        acc = acc * 256 + (s[i] as u128);
        i = i + 1;
    }
    proof {
        assert(s@.take(16) =~= s@);
    }
    acc
}

/// Reads all sixteen bytes as a little-endian 128-bit value.
pub fn le128_of(s: &[u8; 16]) -> (r: u128)
    ensures
        r == spec_le(s@),
{
    let mut acc: u128 = 0;
    let mut i: usize = 16;
    proof {
        assert(s@.skip(16) =~= Seq::<u8>::empty());
        vstd::arithmetic::power2::lemma2_to64();
    }
    while i > 0
        invariant
            i <= 16,
            acc == spec_le(s@.skip(i as int)),
            acc < vstd::arithmetic::power2::pow2((8 * (16 - i)) as nat),
        decreases i,
    {
        proof {
            vstd::arithmetic::power2::lemma_pow2_adds((8 * (16 - i)) as nat, 8);
            crate::cidr::lemma_pow2_128();
            if i > 1 {
                vstd::arithmetic::power2::lemma_pow2_strictly_increases(
                    (8 * (16 - i + 1)) as nat,
                    128,
                );
            }
            vstd::arithmetic::power2::lemma2_to64();
            let p = vstd::arithmetic::power2::pow2((8 * (16 - i)) as nat) as int;
            assert(acc <= p - 1);
            assert(256 * (acc as int) <= 256 * (p - 1)) by {
                vstd::arithmetic::mul::lemma_mul_inequality(acc as int, p - 1, 256);
                vstd::arithmetic::mul::lemma_mul_is_commutative(acc as int, 256);
                vstd::arithmetic::mul::lemma_mul_is_commutative(p - 1, 256);
            }
            assert(s@.skip(i as int - 1).drop_first() =~= s@.skip(i as int));
            assert(s@.skip(i as int - 1)[0] == s@[i as int - 1]);
        }
        i = i - 1;
        acc = acc * 256 + (s[i] as u128);
        proof {
            assert(acc == s@[i as int] + 256 * spec_le(s@.skip(i as int + 1)));
            assert(acc == spec_le(s@.skip(i as int)));
        }
    }
    proof {
        assert(s@.skip(0) =~= s@);
    }
    acc
}

/// The source or destination of a logged event, as the decision saw it.
pub open spec fn spec_log_ip(bytes: Seq<u8>, version: u8) -> Ip {
    if version == 4 {
        Ip::V4(spec_be(bytes.take(4)) as u32)
    } else {
        Ip::V6(spec_be(bytes) as u128)
    }
}

/// Validates and decodes one logged event.
///
/// An unknown version or action number refuses the event with
/// `LogFormat`; everything else decodes: port 0 means no port was
/// parsed, an all-zero class means the source was unclassified.
pub fn parse_packet_log(p: &PacketLog) -> (r: Result<LogRecord, FirewallError>)
    ensures
        r is Ok <==> (p.version == 4 || p.version == 6) && (p.action == 0 || p.action == 2),
        r is Err ==> r == Err::<LogRecord, FirewallError>(FirewallError::LogFormat),
        r matches Ok(rec) ==> {
            &&& rec.action == (if p.action == 0 {
                Action::Accept
            } else {
                Action::Reject
            })
            &&& rec.source == spec_log_ip(p.source@, p.version)
            &&& rec.dest == spec_log_ip(p.dest@, p.version)
            &&& rec.dest_port == (if p.dest_port == 0 {
                None::<u16>
            } else {
                Some(p.dest_port)
            })
            &&& rec.src_port == (if p.src_port == 0 {
                None::<u16>
            } else {
                Some(p.src_port)
            })
            &&& rec.proto == p.proto
            &&& rec.class == (match p.class {
                Some(c) => if spec_le(c@) == 0 {
                    None::<u128>
                } else {
                    Some(spec_le(c@) as u128)
                },
                None => None::<u128>,
            })
        },
{
    let action = match Action::from_i32(p.action) {
        Some(a) => a,
        None => {
            return Err(FirewallError::LogFormat);
        },
    };
    if p.version != 4 && p.version != 6 {
        return Err(FirewallError::LogFormat);
    }
    let source = if p.version == 4 {
        Ip::V4(be32_of(&p.source))
    } else {
        Ip::V6(be128_of(&p.source))
    };
    let dest = if p.version == 4 {
        Ip::V4(be32_of(&p.dest))
    } else {
        Ip::V6(be128_of(&p.dest))
    };
    let class = match &p.class {
        Some(c) => {
            let v = le128_of(c);
            if v == 0 {
                None
            } else {
                Some(v)
            }
        },
        None => None,
    };
    Ok(
        LogRecord {
            source,
            dest,
            action,
            dest_port: if p.dest_port == 0 {
                None
            } else {
                Some(p.dest_port)
            },
            src_port: if p.src_port == 0 {
                None
            } else {
                Some(p.src_port)
            },
            proto: p.proto,
            class,
        },
    )
}

} // verus!
