//! CIDR algebra and composite LPM keys.
//!
//! A CIDR is an address (32 bits for v4, 128 for v6) plus a prefix
//! length.  CIDRs are normalised by zeroing the bits beyond the prefix;
//! containment compares the masked forms.  The composite key lays a CIDR
//! out as the data plane's LPM key: sixteen little-endian group-id bytes,
//! one protocol byte, and the address bytes, with a prefix length that
//! fully fixes the leading fields and leaves only the address bits
//! subject to longest-prefix matching.
use vstd::prelude::*;
use vstd::arithmetic::power2::{pow2, lemma_pow2_adds, lemma_pow2_pos, lemma_pow2_unfold,
    lemma_pow2_strictly_increases, lemma2_to64};
use vstd::arithmetic::div_mod::{lemma_fundamental_div_mod, lemma_fundamental_div_mod_converse,
    lemma_mod_multiples_vanish, lemma_mod_bound};

verus! {

/// An IPv4 block: a 32-bit address and a prefix length in `[0, 32]`.
#[derive(Clone, Copy, Debug, PartialEq, Eq, Structural, Hash)]
pub struct CidrV4 {
    pub addr: u32,
    pub prefix: u8,
}

/// An IPv6 block: a 128-bit address and a prefix length in `[0, 128]`.
#[derive(Clone, Copy, Debug, PartialEq, Eq, Structural, Hash)]
pub struct CidrV6 {
    pub addr: u128,
    pub prefix: u8,
}

/// A destination block of either family.
#[derive(Clone, Copy, Debug, PartialEq, Eq, Structural, Hash)]
pub enum Cidr {
    V4(CidrV4),
    V6(CidrV6),
}

/// A source address of either family.
#[derive(Clone, Copy, Debug, PartialEq, Eq, Structural, Hash)]
pub enum Ip {
    V4(u32),
    V6(u128),
}

/// The top `prefix` bits of a 32-bit address, the rest zeroed; a
/// prefix at or beyond the width keeps the whole address.
pub open spec fn spec_mask4(addr: u32, prefix: u8) -> u32 {
    if prefix == 0 {
        0u32
    } else if prefix >= 32 {
        addr
    } else {
        ((addr >> ((32 - prefix) as u32)) << ((32 - prefix) as u32))
    }
}

/// The top `prefix` bits of a 128-bit address, the rest zeroed; a
/// prefix at or beyond the width keeps the whole address.  Stated as the
/// address rounded down to a multiple of the block size: the solver's
/// bit-vector arithmetic does not scale to 128 bits.
pub open spec fn spec_mask6(addr: u128, prefix: u8) -> u128 {
    if prefix == 0 {
        0u128
    } else if prefix >= 128 {
        addr
    } else {
        ((addr as nat / pow2((128 - prefix) as nat)) * pow2((128 - prefix) as nat)) as u128
    }
}

fn mask4(addr: u32, prefix: u8) -> (r: u32)
    ensures
        r == spec_mask4(addr, prefix),
{
    if prefix == 0 {
        0
    } else if prefix >= 32 {
        addr
    } else {
        let s: u32 = 32 - (prefix as u32);
        (addr >> s) << s
    }
}

/// `2^(128 - prefix)`: the number of addresses in a v6 block.
fn block_size6(prefix: u8) -> (d: u128)
    requires
        0 < prefix < 128,
    ensures
        d == pow2((128 - prefix) as nat),
        d >= 1,
{
    let s: u32 = 128 - (prefix as u32);
    let mut d: u128 = 1;
    let mut k: u32 = 0;
    proof {
        lemma2_to64();
    }
    while k < s
        invariant
            k <= s <= 127,
            d == pow2(k as nat),
        decreases s - k,
    {
        proof {
            lemma_pow2_unfold((k + 1) as nat);
            lemma_pow2_strictly_increases((k + 1) as nat, 128);
            lemma_pow2_128();
        }
        d = 2 * d;
        k = k + 1;
    }
    proof {
        lemma_pow2_pos((128 - prefix) as nat);
    }
    d
}

fn mask6(addr: u128, prefix: u8) -> (r: u128)
    ensures
        r == spec_mask6(addr, prefix),
{
    if prefix == 0 {
        0
    } else if prefix >= 128 {
        addr
    } else {
        let d = block_size6(prefix);
        let q = addr / d;
        proof {
            lemma_fundamental_div_mod(addr as int, d as int);
            lemma_mod_bound(addr as int, d as int);
            vstd::arithmetic::mul::lemma_mul_is_commutative(q as int, d as int);
            assert(d * q == addr - addr as int % d as int);
            assert(q * d <= addr);
        }
        q * d
    }
}

pub proof fn lemma_pow2_128()
    ensures
        pow2(128) == 0x1_0000_0000_0000_0000_0000_0000_0000_0000,
{
    lemma2_to64();
    lemma_pow2_adds(64, 64);
}

/// Masking to a shorter prefix after a longer one is masking to the
/// shorter one: the mask operators compose.
pub proof fn lemma_mask4_compose(addr: u32, p1: u8, p2: u8)
    requires
        p1 <= p2 <= 32,
    ensures
        spec_mask4(spec_mask4(addr, p2), p1) == spec_mask4(addr, p1),
{
    if p1 != 0 && p2 != 32 {
        let s1 = (32 - p1) as u32;
        let s2 = (32 - p2) as u32;
        assert(s2 <= s1 < 32 ==> ((((addr >> s2) << s2) >> s1) << s1) == ((addr >> s1) << s1))
            by (bit_vector);
    }
}

/// Masking is idempotent.
pub proof fn lemma_mask4_idem(addr: u32, p: u8)
    requires
        p <= 32,
    ensures
        spec_mask4(spec_mask4(addr, p), p) == spec_mask4(addr, p),
{
    lemma_mask4_compose(addr, p, p);
}

pub proof fn lemma_mask6_compose(addr: u128, p1: u8, p2: u8)
    requires
        p1 <= p2 <= 128,
    ensures
        spec_mask6(spec_mask6(addr, p2), p1) == spec_mask6(addr, p1),
{
    if p1 != 0 && p2 < 128 {
        let s1 = (128 - p1) as nat;
        let s2 = (128 - p2) as nat;
        let d1 = pow2(s1) as int;
        let d2 = pow2(s2) as int;
        lemma_pow2_pos(s1);
        lemma_pow2_pos(s2);
        lemma_pow2_adds(s2, (s1 - s2) as nat);
        let k = pow2((s1 - s2) as nat) as int;
        assert(d1 == d2 * k);
        let x = addr as int;
        lemma_fundamental_div_mod(x, d1);
        lemma_mod_bound(x, d1);
        let q1 = x / d1;
        let r1 = x % d1;
        lemma_fundamental_div_mod(x, d2);
        lemma_mod_bound(x, d2);
        // x is r1 away from a multiple of d1, hence of d2, so the
        // remainders agree.
        assert(x == d2 * (k * q1) + r1) by {
            vstd::arithmetic::mul::lemma_mul_is_associative(d2, k, q1);
        }
        lemma_mod_multiples_vanish(k * q1, r1, d2);
        assert(x % d2 == r1 % d2);
        lemma_fundamental_div_mod(r1, d2);
        lemma_mod_bound(r1, d2);
        let y = x - x % d2;
        let r2 = r1 - r1 % d2;
        assert(d2 * (r1 / d2) >= 0) by {
            vstd::arithmetic::mul::lemma_mul_nonnegative(d2, r1 / d2);
        }
        assert(0 <= r2 < d1);
        assert(y == q1 * d1 + r2) by {
            assert(x == d1 * q1 + r1);
            vstd::arithmetic::mul::lemma_mul_is_commutative(q1, d1);
        }
        lemma_fundamental_div_mod_converse(y, d1, q1, r2);
        assert(y / d1 == q1);
        assert(spec_mask6(addr, p2) == y) by {
            assert(x == d2 * (x / d2) + x % d2);
            vstd::arithmetic::mul::lemma_mul_is_commutative(x / d2, d2);
            assert((x / d2) * d2 == y);
            vstd::arithmetic::mul::lemma_mul_nonnegative(x / d2, d2);
            assert(0 <= y <= x);
        }
        assert(spec_mask6(spec_mask6(addr, p2), p1) == (y / d1) * d1) by {
            assert(spec_mask6(addr, p2) as int == y);
        }
        assert(spec_mask6(addr, p1) == q1 * d1) by {
            vstd::arithmetic::mul::lemma_mul_nonnegative(q1, d1);
            assert(q1 * d1 == x - r1);
        }
    }
}

pub proof fn lemma_mask6_idem(addr: u128, p: u8)
    requires
        p <= 128,
    ensures
        spec_mask6(spec_mask6(addr, p), p) == spec_mask6(addr, p),
{
    lemma_mask6_compose(addr, p, p);
}

/// Normalisation: zero every bit beyond the prefix.
pub trait Normalize: Sized {
    spec fn norm_spec(&self) -> Self;

    fn normalize(&self) -> (r: Self)
        ensures
            r == self.norm_spec(),
    ;
}

/// CIDR containment: the broader block holds every address of the
/// narrower one.
pub trait Contains {
    spec fn contains_spec(&self, other: &Self) -> bool;

    fn contains(&self, other: &Self) -> (r: bool)
        ensures
            r == self.contains_spec(other),
    ;
}

/// The address bytes in network order.
pub trait AsOctets {
    spec fn octets_spec(&self) -> Seq<u8>;

    fn as_octets(&self) -> (r: Vec<u8>)
        ensures
            r@ == self.octets_spec(),
    ;
}

impl Cidr {
    /// The address width of the family.
    pub open spec fn bits(&self) -> u8 {
        match self {
            Cidr::V4(_) => 32u8,
            Cidr::V6(_) => 128u8,
        }
    }

    pub open spec fn prefix_spec(&self) -> u8 {
        match self {
            Cidr::V4(c) => c.prefix,
            Cidr::V6(c) => c.prefix,
        }
    }

    /// Structurally valid: the prefix fits the family.
    pub open spec fn wf(&self) -> bool {
        self.prefix_spec() <= self.bits()
    }

    pub fn prefix(&self) -> (r: u8)
        ensures
            r == self.prefix_spec(),
    {
        match self {
            Cidr::V4(c) => c.prefix,
            Cidr::V6(c) => c.prefix,
        }
    }

    /// Already in normalised form.
    pub open spec fn is_norm(&self) -> bool {
        *self == self.norm_spec()
    }

    /// The block consisting of one address: the query key of a lookup.
    pub open spec fn spec_of_ip(ip: Ip) -> Cidr {
        match ip {
            Ip::V4(a) => Cidr::V4(CidrV4 { addr: a, prefix: 32 }),
            Ip::V6(a) => Cidr::V6(CidrV6 { addr: a, prefix: 128 }),
        }
    }

    pub fn of_ip(ip: &Ip) -> (r: Cidr)
        ensures
            r == Cidr::spec_of_ip(*ip),
            r.wf(),
            r.is_norm(),
    {
        match ip {
            Ip::V4(a) => Cidr::V4(CidrV4 { addr: *a, prefix: 32 }),
            Ip::V6(a) => Cidr::V6(CidrV6 { addr: *a, prefix: 128 }),
        }
    }

    /// A normalised CIDR contains itself.
    pub proof fn lemma_contains_self(&self)
        requires
            self.wf(),
            self.is_norm(),
        ensures
            self.contains_spec(self),
    {
    }

    /// Mutual containment of normalised blocks is equality.
    pub proof fn lemma_contains_antisym(a: &Cidr, b: &Cidr)
        requires
            a.wf() && b.wf(),
            a.is_norm() && b.is_norm(),
            a.contains_spec(b),
            b.contains_spec(a),
        ensures
            *a == *b,
    {
        match (a, b) {
            (Cidr::V4(x), Cidr::V4(y)) => {
                assert(x.prefix == y.prefix);
                assert(spec_mask4(y.addr, x.prefix) == spec_mask4(x.addr, x.prefix));
                assert(x.addr == spec_mask4(x.addr, x.prefix));
                assert(y.addr == spec_mask4(y.addr, y.prefix));
            },
            (Cidr::V6(x), Cidr::V6(y)) => {
                assert(x.prefix == y.prefix);
                assert(spec_mask6(y.addr, x.prefix) == spec_mask6(x.addr, x.prefix));
                assert(x.addr == spec_mask6(x.addr, x.prefix));
                assert(y.addr == spec_mask6(y.addr, y.prefix));
            },
            _ => {},
        }
    }

    /// Containment of normalised blocks is transitive.
    pub proof fn lemma_contains_trans(a: &Cidr, b: &Cidr, c: &Cidr)
        requires
            a.wf() && b.wf() && c.wf(),
            a.is_norm() && b.is_norm(),
            a.contains_spec(b),
            b.contains_spec(c),
        ensures
            a.contains_spec(c),
    {
        match (a, b, c) {
            (Cidr::V4(x), Cidr::V4(y), Cidr::V4(z)) => {
                lemma_mask4_compose(z.addr, x.prefix, y.prefix);
                assert(spec_mask4(z.addr, y.prefix) == y.addr);
                assert(spec_mask4(y.addr, x.prefix) == x.addr);
            },
            (Cidr::V6(x), Cidr::V6(y), Cidr::V6(z)) => {
                lemma_mask6_compose(z.addr, x.prefix, y.prefix);
                assert(spec_mask6(z.addr, y.prefix) == y.addr);
                assert(spec_mask6(y.addr, x.prefix) == x.addr);
            },
            _ => {},
        }
    }
}

impl Normalize for Cidr {
    open spec fn norm_spec(&self) -> Cidr {
        match self {
            Cidr::V4(c) => Cidr::V4(CidrV4 { addr: spec_mask4(c.addr, c.prefix), prefix: c.prefix }),
            Cidr::V6(c) => Cidr::V6(CidrV6 { addr: spec_mask6(c.addr, c.prefix), prefix: c.prefix }),
        }
    }

    fn normalize(&self) -> (r: Cidr) {
        match self {
            Cidr::V4(c) => Cidr::V4(CidrV4 { addr: mask4(c.addr, c.prefix), prefix: c.prefix }),
            Cidr::V6(c) => Cidr::V6(CidrV6 { addr: mask6(c.addr, c.prefix), prefix: c.prefix }),
        }
    }
}

impl Contains for Cidr {
    /// `A` contains `B` iff they are one family, `B`'s prefix is at
    /// least `A`'s, and the addresses agree on `A`'s prefix.
    open spec fn contains_spec(&self, other: &Cidr) -> bool {
        match (self, other) {
            (Cidr::V4(a), Cidr::V4(b)) => b.prefix >= a.prefix && spec_mask4(b.addr, a.prefix)
                == spec_mask4(a.addr, a.prefix),
            (Cidr::V6(a), Cidr::V6(b)) => b.prefix >= a.prefix && spec_mask6(b.addr, a.prefix)
                == spec_mask6(a.addr, a.prefix),
            _ => false,
        }
    }

    fn contains(&self, other: &Cidr) -> (r: bool) {
        match (self, other) {
            (Cidr::V4(a), Cidr::V4(b)) => b.prefix >= a.prefix && mask4(b.addr, a.prefix)
                == mask4(a.addr, a.prefix),
            (Cidr::V6(a), Cidr::V6(b)) => b.prefix >= a.prefix && mask6(b.addr, a.prefix)
                == mask6(a.addr, a.prefix),
            _ => false,
        }
    }
}

impl Normalize for CidrV4 {
    open spec fn norm_spec(&self) -> CidrV4 {
        CidrV4 { addr: spec_mask4(self.addr, self.prefix), prefix: self.prefix }
    }

    fn normalize(&self) -> (r: CidrV4) {
        CidrV4 { addr: mask4(self.addr, self.prefix), prefix: self.prefix }
    }
}

impl Normalize for CidrV6 {
    open spec fn norm_spec(&self) -> CidrV6 {
        CidrV6 { addr: spec_mask6(self.addr, self.prefix), prefix: self.prefix }
    }

    fn normalize(&self) -> (r: CidrV6) {
        CidrV6 { addr: mask6(self.addr, self.prefix), prefix: self.prefix }
    }
}

/// The four network-order bytes of a 32-bit address.
pub open spec fn spec_octets4(a: u32) -> Seq<u8> {
    seq![
        ((a >> 24u32) & 0xff) as u8,
        ((a >> 16u32) & 0xff) as u8,
        ((a >> 8u32) & 0xff) as u8,
        (a & 0xff) as u8,
    ]
}

/// The sixteen network-order bytes of a 128-bit address.
pub open spec fn spec_octets6(a: u128) -> Seq<u8> {
    Seq::new(16, |i: int| ((a >> ((8 * (15 - i)) as u128)) & 0xff) as u8)
}

/// The sixteen little-endian bytes of a group id.
pub open spec fn spec_id_bytes(id: u128) -> Seq<u8> {
    Seq::new(16, |i: int| ((id >> ((8 * i) as u128)) & 0xff) as u8)
}

impl AsOctets for Cidr {
    open spec fn octets_spec(&self) -> Seq<u8> {
        match self {
            Cidr::V4(c) => spec_octets4(c.addr),
            Cidr::V6(c) => spec_octets6(c.addr),
        }
    }

    fn as_octets(&self) -> (r: Vec<u8>) {
        match self {
            Cidr::V4(c) => {
                let a = c.addr;
                let mut v: Vec<u8> = Vec::new();
                v.push(((a >> 24u32) & 0xff) as u8);
                v.push(((a >> 16u32) & 0xff) as u8);
                v.push(((a >> 8u32) & 0xff) as u8);
                v.push((a & 0xff) as u8);
                proof {
                    assert(v@ =~= spec_octets4(a));
                }
                v
            },
            Cidr::V6(c) => {
                let a = c.addr;
                let mut v: Vec<u8> = Vec::new();
                let mut k: usize = 0;
                while k < 16
                    invariant
                        k <= 16,
                        v@.len() == k,
                        forall|i: int|
                            0 <= i < k ==> v@[i] == ((a >> ((8 * (15 - i)) as u128)) & 0xff) as u8,
                    decreases 16 - k,
                {
                    let s: u32 = 8 * (15 - (k as u32));
                    v.push(((a >> s) & 0xff) as u8);
                    k = k + 1;
                }
                proof {
                    assert(v@ =~= spec_octets6(a));
                }
                v
            },
        }
    }
}

impl AsOctets for Ip {
    open spec fn octets_spec(&self) -> Seq<u8> {
        match self {
            Ip::V4(a) => spec_octets4(*a),
            Ip::V6(a) => spec_octets6(*a),
        }
    }

    fn as_octets(&self) -> (r: Vec<u8>) {
        let c = Cidr::of_ip(self);
        let r = c.as_octets();
        proof {
            assert(c.octets_spec() == self.octets_spec());
        }
        r
    }
}

/// A composite LPM key as laid out on the wire: the byte string and the
/// number of leading bits that must match.
#[derive(Clone, Debug, PartialEq, Eq)]
pub struct LpmKey {
    pub data: Vec<u8>,
    pub prefix_len: u32,
}

/// Key bytes: `group_id (16, little endian) ‖ protocol (1) ‖ address`,
/// the address normalised.
pub open spec fn spec_key_data(c: Cidr, id: u128, proto: u8) -> Seq<u8> {
    spec_id_bytes(id) + seq![proto] + c.norm_spec().octets_spec()
}

/// Key prefix: the 17 leading bytes are fully significant; only the
/// address bits beyond them are subject to longest-prefix matching.
pub open spec fn spec_key_prefix(c: Cidr) -> u32 {
    (c.prefix_spec() + 136) as u32
}

/// Builds the data plane's LPM key for a CIDR under a group and
/// protocol.
pub trait AsKey {
    spec fn key_data_spec(&self, id: u128, proto: u8) -> Seq<u8>;

    spec fn key_prefix_spec(&self) -> u32;

    fn as_key(&self, id: u128, proto: u8) -> (k: LpmKey)
        ensures
            k.data@ == self.key_data_spec(id, proto),
            k.prefix_len == self.key_prefix_spec(),
    ;
}

impl AsKey for Cidr {
    open spec fn key_data_spec(&self, id: u128, proto: u8) -> Seq<u8> {
        spec_key_data(*self, id, proto)
    }

    open spec fn key_prefix_spec(&self) -> u32 {
        spec_key_prefix(*self)
    }

    fn as_key(&self, id: u128, proto: u8) -> (k: LpmKey) {
        let mut data: Vec<u8> = Vec::new();
        let mut i: usize = 0;
        while i < 16
            invariant
                i <= 16,
                data@.len() == i,
                forall|j: int|
                    0 <= j < i ==> data@[j] == ((id >> ((8 * j) as u128)) & 0xff) as u8,
            decreases 16 - i,
        {
            let s: u32 = 8 * (i as u32);
            data.push(((id >> s) & 0xff) as u8);
            i = i + 1;
        }
        data.push(proto);
        let norm = self.normalize();
        let mut octs = norm.as_octets();
        let ghost before = data@;
        let mut k: usize = 0;
        while k < octs.len()
            invariant
                k <= octs@.len(),
                data@ =~= before + octs@.take(k as int),
            decreases octs@.len() - k,
        {
            data.push(octs[k]);
            k = k + 1;
        }
        proof {
            assert(before =~= spec_id_bytes(id) + seq![proto]);
            assert(octs@.take(octs@.len() as int) =~= octs@);
            assert(data@ =~= spec_key_data(*self, id, proto));
        }
        let prefix_len: u32 = (self.prefix() as u32) + 136;
        LpmKey { data, prefix_len }
    }
}

} // verus!
