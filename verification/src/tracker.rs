//! The rule tracker: the authoritative user-land rule set, keyed by
//! `(group id, protocol, destination CIDR)`, compiled into the data
//! plane's LPM table.
//!
//! Rules on broader CIDRs are inherited by narrower CIDRs under the same
//! group and protocol: the kernel-side lookup follows a single longest
//! prefix, so the tracker materialises the union of applicable records
//! into every affected narrower key at ingestion time.  All multi-key
//! updates validate every affected key against the store capacity first
//! and only touch state once nothing can fail.
use vstd::prelude::*;
use vstd::multiset::Multiset;
use crate::cidr::{Cidr, Contains, Normalize};
use crate::error::FirewallError;
use crate::lpm::LpmStore;
use crate::resolve::{resolve_overlap, spec_compile, valid_ranges, lemma_compile};
use crate::rule::{Protocol, Rule};
use crate::rule_store::{MAX_RANGES, RuleStore, RuleStoreError, wf_ranges};

verus! {

/// One port range attached to a key, remembering the CIDR the rule was
/// added under so removal can find every propagated copy.
#[derive(Clone, Copy, Debug, PartialEq, Eq, Structural, Hash)]
pub struct PortRangeRecord {
    pub start: u16,
    pub end: u16,
    pub origin: Cidr,
}

/// A record is sound when its interval is valid (0 only stands alone)
/// and its origin is a normalised, valid CIDR.
pub open spec fn valid_rec(r: PortRangeRecord) -> bool {
    &&& r.start <= r.end
    &&& (r.start == 0 ==> r.end == 0)
    &&& r.origin.wf()
    &&& r.origin.is_norm()
}

/// The bare intervals of a record sequence.
pub open spec fn rec_ranges(rs: Seq<PortRangeRecord>) -> Seq<(u16, u16)> {
    rs.map_values(|r: PortRangeRecord| (r.start, r.end))
}

/// No record listed twice.
pub open spec fn recs_nodup(rs: Seq<PortRangeRecord>) -> bool {
    forall|a: int, b: int| 0 <= a < b < rs.len() ==> (#[trigger] rs[a]) != (#[trigger] rs[b])
}

pub open spec fn recs_valid(rs: Seq<PortRangeRecord>) -> bool {
    forall|a: int| 0 <= a < rs.len() ==> valid_rec(#[trigger] rs[a])
}

/// The record set for one key.
#[derive(Debug)]
pub struct RuleEntry {
    pub id: u128,
    pub proto: u8,
    pub cidr: Cidr,
    pub records: Vec<PortRangeRecord>,
}

/// The index of the first entry with the given key, or -1.
pub open spec fn tr_index_of(s: Seq<RuleEntry>, id: u128, proto: u8, cidr: Cidr) -> int
    decreases s.len(),
{
    if s.len() == 0 {
        -1
    } else if s[0].id == id && s[0].proto == proto && s[0].cidr == cidr {
        0
    } else {
        let r = tr_index_of(s.drop_first(), id, proto, cidr);
        if r < 0 {
            -1
        } else {
            r + 1
        }
    }
}

pub open spec fn tr_matches(e: &RuleEntry, id: u128, proto: u8, cidr: Cidr) -> bool {
    e.id == id && e.proto == proto && e.cidr == cidr
}

pub proof fn lemma_tr_index_of(s: Seq<RuleEntry>, id: u128, proto: u8, cidr: Cidr)
    ensures
        -1 <= tr_index_of(s, id, proto, cidr) < s.len(),
        tr_index_of(s, id, proto, cidr) >= 0 ==> tr_matches(&s[tr_index_of(s, id, proto, cidr)], id, proto, cidr)
            && (forall|j: int| 0 <= j < tr_index_of(s, id, proto, cidr) ==> !tr_matches(&(#[trigger] s[j]), id, proto, cidr)),
        tr_index_of(s, id, proto, cidr) == -1 ==> (forall|j: int| 0 <= j < s.len() ==> !tr_matches(&(#[trigger] s[j]), id, proto, cidr)),
    decreases s.len(),
{
    if s.len() > 0 {
        let rest = s.drop_first();
        lemma_tr_index_of(rest, id, proto, cidr);
        assert(forall|j: int| 0 <= j < rest.len() ==> rest[j] == s[j + 1]);
        if !tr_matches(&s[0], id, proto, cidr) {
            let r = tr_index_of(rest, id, proto, cidr);
            if r >= 0 {
                assert(s[r + 1] == rest[r]);
                assert forall|j: int| 0 <= j < r + 1 implies !tr_matches(
                    &(#[trigger] s[j]), id, proto, cidr) by {
                    if j > 0 {
                        assert(s[j] == rest[j - 1]);
                    }
                }
            } else {
                assert forall|j: int| 0 <= j < s.len() implies !tr_matches(
                    &(#[trigger] s[j]), id, proto, cidr) by {
                    if j > 0 {
                        assert(s[j] == rest[j - 1]);
                    }
                }
            }
        }
    }
}

/// The tracker's authoritative rule map.
#[derive(Debug)]
pub struct RuleTracker {
    rule_map: Vec<RuleEntry>,
}

/// A concrete protocol byte the tracker stores: TCP or UDP.
pub open spec fn concrete_proto(p: u8) -> bool {
    p == 0x06 || p == 0x11
}

/// Keys unique: no `(id, proto, cidr)` triple occurs twice.
pub open spec fn keys_unique(s: Seq<RuleEntry>) -> bool {
    forall|i: int, j: int|
        0 <= i < j < s.len() ==> !((#[trigger] s[i]).id == (#[trigger] s[j]).id && s[i].proto
            == s[j].proto && s[i].cidr == s[j].cidr)
}

/// Keys unique and every entry well formed.
pub open spec fn entries_wf(s: Seq<RuleEntry>) -> bool {
    &&& keys_unique(s)
    &&& forall|i: int| 0 <= i < s.len() ==> entry_wf(&(#[trigger] s[i]))
}

/// A broader key's records are materialised at every narrower key
/// under the same group and protocol.
pub open spec fn entries_monotone(s: Seq<RuleEntry>) -> bool {
    forall|i: int, j: int, r: PortRangeRecord|
        0 <= i < s.len() && 0 <= j < s.len() && i != j && s[i].id == s[j].id && s[i].proto
            == s[j].proto && s[i].cidr.contains_spec(&s[j].cidr) && #[trigger] s[i].records@.contains(
            r,
        ) ==> #[trigger] s[j].records@.contains(r)
}

/// One entry's own well-formedness.
pub open spec fn entry_wf(e: &RuleEntry) -> bool {
    &&& e.cidr.wf()
    &&& e.cidr.is_norm()
    &&& concrete_proto(e.proto)
    &&& e.records@.len() > 0
    &&& recs_nodup(e.records@)
    &&& recs_valid(e.records@)
    &&& forall|a: int|
        0 <= a < e.records@.len() ==> (#[trigger] e.records@[a]).origin.contains_spec(&e.cidr)
    &&& spec_compile(rec_ranges(e.records@)).len() <= MAX_RANGES
}

impl RuleTracker {
    pub closed spec fn entries(&self) -> Seq<RuleEntry> {
        self.rule_map@
    }

    pub open spec fn spec_has_key(&self, id: u128, proto: u8, cidr: Cidr) -> bool {
        tr_index_of(self.entries(), id, proto, cidr) >= 0
    }

    /// The records materialised at one key (empty when absent).
    pub open spec fn records_at(&self, id: u128, proto: u8, cidr: Cidr) -> Seq<PortRangeRecord> {
        if tr_index_of(self.entries(), id, proto, cidr) >= 0 {
            self.entries()[tr_index_of(self.entries(), id, proto, cidr)].records@
        } else {
            Seq::empty()
        }
    }

    /// Is this record materialised at this key?
    pub open spec fn spec_member(&self, id: u128, proto: u8, cidr: Cidr, r: PortRangeRecord) -> bool {
        self.records_at(id, proto, cidr).contains(r)
    }

    /// Keys unique and every entry well formed.
    pub open spec fn wf(&self) -> bool {
        entries_wf(self.entries())
    }

    /// Inheritance discipline: a broader key's records are materialised
    /// at every narrower key under the same group and protocol.
    pub open spec fn monotone(&self) -> bool {
        entries_monotone(self.entries())
    }

    /// The LPM table mirrors the tracker row for row: same keys in the
    /// same order, each store the compiled form of its key's records.
    pub open spec fn paired(&self, s: &LpmStore) -> bool {
        &&& s.entries().len() == self.entries().len()
        &&& forall|i: int|
            0 <= i < self.entries().len() ==> (#[trigger] s.entries()[i]).id
                == self.entries()[i].id && s.entries()[i].proto == self.entries()[i].proto
                && s.entries()[i].cidr == self.entries()[i].cidr && s.entries()[i].store.ranges()
                == spec_compile(rec_ranges(self.entries()[i].records@))
    }

    /// The tracker/table pair's full invariant.
    pub open spec fn inv(&self, s: &LpmStore) -> bool {
        self.wf() && self.monotone() && s.wf() && self.paired(s)
    }

    pub fn new() -> (r: RuleTracker)
        ensures
            r.entries() =~= Seq::<RuleEntry>::empty(),
            r.wf(),
            r.monotone(),
    {
        RuleTracker { rule_map: Vec::new() }
    }
}

/// Is the record in the list?
fn rec_in(v: &Vec<PortRangeRecord>, r: &PortRangeRecord) -> (b: bool)
    ensures
        b == v@.contains(*r),
{
    let mut i: usize = 0;
    while i < v.len()
        invariant
            i <= v@.len(),
            forall|j: int| 0 <= j < i ==> v@[j] != *r,
        decreases v@.len() - i,
    {
        if v[i] == *r {
            return true;
        }
        i = i + 1;
    }
    proof {
        if v@.contains(*r) {
            let j = choose|j: int| 0 <= j < v@.len() && v@[j] == *r;
        }
    }
    false
}

/// The bare intervals of a record list.
fn ranges_of(v: &Vec<PortRangeRecord>) -> (out: Vec<(u16, u16)>)
    ensures
        out@ == rec_ranges(v@),
{
    let mut out: Vec<(u16, u16)> = Vec::new();
    let mut i: usize = 0;
    while i < v.len()
        invariant
            i <= v@.len(),
            out@.len() == i,
            forall|j: int| 0 <= j < i ==> out@[j] == (v@[j].start, v@[j].end),
        decreases v@.len() - i,
    {
        let r = v[i];
        out.push((r.start, r.end));
        i = i + 1;
    }
    proof {
        assert(out@ =~= rec_ranges(v@));
    }
    out
}

/// Compiles one key's records into its store value: overlap resolution,
/// capacity check, fixed-layout packing.
fn compile_records(v: &Vec<PortRangeRecord>) -> (r: Result<RuleStore, FirewallError>)
    requires
        recs_valid(v@),
    ensures
        match r {
            Ok(st) => spec_compile(rec_ranges(v@)).len() <= MAX_RANGES && st.wf() && st.ranges()
                == spec_compile(rec_ranges(v@)),
            Err(e) => e == FirewallError::RuleEntry(RuleStoreError::Exhausted) && spec_compile(
                rec_ranges(v@),
            ).len() > MAX_RANGES,
        },
{
    let rs = ranges_of(v);
    proof {
        assert(valid_ranges(rs@)) by {
            assert(forall|j: int| 0 <= j < rs@.len() ==> (#[trigger] rs@[j]) == (v@[j].start, v@[j].end));
        }
        lemma_compile(rs@);
    }
    let resolved = resolve_overlap(&rs);
    match RuleStore::new(&resolved) {
        Ok(st) => {
            proof {
                assert(st.ranges() =~= spec_compile(rec_ranges(v@)));
            }
            Ok(st)
        },
        Err(RuleStoreError::Exhausted) => Err(FirewallError::RuleEntry(RuleStoreError::Exhausted)),
        Err(RuleStoreError::MalFormed) => {
            // unreachable: resolution always yields well-formed contents
            proof {
                assert(wf_ranges(resolved@));
            }
            Err(FirewallError::RuleEntry(RuleStoreError::MalFormed))
        },
    }
}

/// Appends, in order, every record of `rs` not already present.
pub open spec fn add_missing(acc: Seq<PortRangeRecord>, rs: Seq<PortRangeRecord>) -> Seq<
    PortRangeRecord,
>
    decreases rs.len(),
{
    if rs.len() == 0 {
        acc
    } else {
        add_missing(
            if acc.contains(rs[0]) {
                acc
            } else {
                acc.push(rs[0])
            },
            rs.drop_first(),
        )
    }
}

/// What `add_missing` holds: the union, without duplicates, keeping the
/// accumulator's prefix.
pub proof fn lemma_add_missing(acc: Seq<PortRangeRecord>, rs: Seq<PortRangeRecord>)
    ensures
        forall|r: PortRangeRecord|
            #[trigger] add_missing(acc, rs).contains(r) == (acc.contains(r) || rs.contains(r)),
        recs_nodup(acc) ==> recs_nodup(add_missing(acc, rs)),
        recs_valid(acc) && recs_valid(rs) ==> recs_valid(add_missing(acc, rs)),
        add_missing(acc, rs).len() >= acc.len(),
        forall|j: int| 0 <= j < acc.len() ==> #[trigger] add_missing(acc, rs)[j] == acc[j],
    decreases rs.len(),
{
    if rs.len() == 0 {
        assert(forall|r: PortRangeRecord| !rs.contains(r));
    } else {
        let x = rs[0];
        let rest = rs.drop_first();
        let acc2 = if acc.contains(x) {
            acc
        } else {
            acc.push(x)
        };
        assert(recs_valid(rs) ==> valid_rec(x) && recs_valid(rest)) by {
            assert(forall|j: int| 0 <= j < rest.len() ==> rest[j] == rs[j + 1]);
        }
        assert(recs_valid(rs) ==> recs_valid(rest)) by {
            assert(forall|j: int| 0 <= j < rest.len() ==> rest[j] == rs[j + 1]);
        }
        assert(recs_nodup(acc) ==> recs_nodup(acc2)) by {
            if !acc.contains(x) && recs_nodup(acc) {
                assert forall|a: int, b: int| 0 <= a < b < acc2.len() implies (
                #[trigger] acc2[a]) != (#[trigger] acc2[b]) by {
                    if b == acc2.len() - 1 {
                        assert(acc2[b] == x);
                        assert(acc2[a] == acc[a]);
                        assert(acc.contains(acc[a]));
                    }
                }
            }
        }
        lemma_add_missing(acc2, rest);
        assert(add_missing(acc, rs) == add_missing(acc2, rest));
        assert forall|r: PortRangeRecord|
            #[trigger] add_missing(acc, rs).contains(r) == (acc.contains(r) || rs.contains(r)) by {
            assert(add_missing(acc2, rest).contains(r) == (acc2.contains(r) || rest.contains(r)));
            assert(acc2.contains(r) == (acc.contains(r) || r == x)) by {
                if acc.contains(x) {
                    if r == x {
                        assert(acc2.contains(r));
                    }
                } else {
                    if acc2.contains(r) {
                        let j = choose|j: int| 0 <= j < acc2.len() && acc2[j] == r;
                        if j < acc.len() {
                            assert(acc[j] == r);
                        }
                    }
                    if acc.contains(r) {
                        let j = choose|j: int| 0 <= j < acc.len() && acc[j] == r;
                        assert(acc2[j] == r);
                    }
                    if r == x {
                        assert(acc2[acc.len() as int] == r);
                    }
                }
            }
            assert(rs.contains(r) == (r == x || rest.contains(r))) by {
                if rs.contains(r) {
                    let j = choose|j: int| 0 <= j < rs.len() && rs[j] == r;
                    if j > 0 {
                        assert(rest[j - 1] == r);
                    }
                }
                if rest.contains(r) {
                    let j = choose|j: int| 0 <= j < rest.len() && rest[j] == r;
                    assert(rs[j + 1] == r);
                }
            }
        }
        assert(recs_valid(acc) && recs_valid(rs) ==> recs_valid(acc2));
    }
}

/// A record inherited at `dest`: attached to some key of the same group
/// and protocol whose CIDR contains `dest`.
pub open spec fn inherited(
    s: Seq<RuleEntry>,
    id: u128,
    proto: u8,
    dest: Cidr,
    r: PortRangeRecord,
) -> bool {
    exists|j: int|
        0 <= j < s.len() && (#[trigger] s[j]).id == id && s[j].proto == proto
            && s[j].cidr.contains_spec(&dest) && s[j].records@.contains(r)
}

/// The records inherited at `dest`, gathered in table order.
pub open spec fn spec_parents_from(
    s: Seq<RuleEntry>,
    id: u128,
    proto: u8,
    dest: Cidr,
    i: int,
    acc: Seq<PortRangeRecord>,
) -> Seq<PortRangeRecord>
    decreases s.len() - i,
{
    if i < 0 || i >= s.len() {
        acc
    } else {
        spec_parents_from(
            s,
            id,
            proto,
            dest,
            i + 1,
            if s[i].id == id && s[i].proto == proto && s[i].cidr.contains_spec(&dest) {
                add_missing(acc, s[i].records@)
            } else {
                acc
            },
        )
    }
}

pub open spec fn spec_parents(s: Seq<RuleEntry>, id: u128, proto: u8, dest: Cidr) -> Seq<
    PortRangeRecord,
> {
    spec_parents_from(s, id, proto, dest, 0, Seq::empty())
}

proof fn lemma_spec_parents_from(
    s: Seq<RuleEntry>,
    id: u128,
    proto: u8,
    dest: Cidr,
    i: int,
    acc: Seq<PortRangeRecord>,
)
    requires
        0 <= i <= s.len(),
    ensures
        forall|r: PortRangeRecord|
            #[trigger] spec_parents_from(s, id, proto, dest, i, acc).contains(r) == (acc.contains(
                r,
            ) || exists|j: int|
                i <= j < s.len() && (#[trigger] s[j]).id == id && s[j].proto == proto
                    && s[j].cidr.contains_spec(&dest) && s[j].records@.contains(r)),
        recs_nodup(acc) ==> recs_nodup(spec_parents_from(s, id, proto, dest, i, acc)),
        recs_valid(acc) && (forall|j: int| 0 <= j < s.len() ==> recs_valid(
            (#[trigger] s[j]).records@,
        )) ==> recs_valid(spec_parents_from(s, id, proto, dest, i, acc)),
    decreases s.len() - i,
{
    if i < s.len() {
        let acc2 = if s[i].id == id && s[i].proto == proto && s[i].cidr.contains_spec(&dest) {
            add_missing(acc, s[i].records@)
        } else {
            acc
        };
        lemma_add_missing(acc, s[i].records@);
        lemma_spec_parents_from(s, id, proto, dest, i + 1, acc2);
        assert forall|r: PortRangeRecord|
            #[trigger] spec_parents_from(s, id, proto, dest, i, acc).contains(r) == (acc.contains(
                r,
            ) || exists|j: int|
                i <= j < s.len() && (#[trigger] s[j]).id == id && s[j].proto == proto
                    && s[j].cidr.contains_spec(&dest) && s[j].records@.contains(r)) by {
            assert(spec_parents_from(s, id, proto, dest, i, acc) == spec_parents_from(
                s,
                id,
                proto,
                dest,
                i + 1,
                acc2,
            ));
            if spec_parents_from(s, id, proto, dest, i, acc).contains(r) {
                if !acc.contains(r) {
                    if acc2.contains(r) {
                        assert(s[i].id == id && s[i].proto == proto && s[i].cidr.contains_spec(
                            &dest,
                        ) && s[i].records@.contains(r));
                    }
                }
            }
            if acc.contains(r) {
                assert(acc2.contains(r));
            }
            if exists|j: int|
                i <= j < s.len() && (#[trigger] s[j]).id == id && s[j].proto == proto
                    && s[j].cidr.contains_spec(&dest) && s[j].records@.contains(r) {
                let j = choose|j: int|
                    i <= j < s.len() && (#[trigger] s[j]).id == id && s[j].proto == proto
                        && s[j].cidr.contains_spec(&dest) && s[j].records@.contains(r);
                if j == i {
                    assert(acc2.contains(r));
                } else {
                    assert(j >= i + 1);
                }
            }
        }
    } else {
    }
}

/// What the inherited list holds: exactly the inherited records.
pub proof fn lemma_spec_parents(s: Seq<RuleEntry>, id: u128, proto: u8, dest: Cidr)
    ensures
        forall|r: PortRangeRecord|
            #[trigger] spec_parents(s, id, proto, dest).contains(r) == inherited(
                s,
                id,
                proto,
                dest,
                r,
            ),
        recs_nodup(spec_parents(s, id, proto, dest)),
        (forall|j: int| 0 <= j < s.len() ==> recs_valid((#[trigger] s[j]).records@))
            ==> recs_valid(spec_parents(s, id, proto, dest)),
{
    lemma_spec_parents_from(s, id, proto, dest, 0, Seq::empty());
}

/// Copies a record list.
fn copy_recs(v: &Vec<PortRangeRecord>) -> (out: Vec<PortRangeRecord>)
    ensures
        out@ == v@,
{
    let mut out: Vec<PortRangeRecord> = Vec::new();
    let mut i: usize = 0;
    while i < v.len()
        invariant
            i <= v@.len(),
            out@ =~= v@.take(i as int),
        decreases v@.len() - i,
    {
        out.push(v[i]);
        i = i + 1;
    }
    proof {
        assert(v@.take(v@.len() as int) =~= v@);
    }
    out
}

/// Appends to `out`, in order, every record of `extra` not already
/// present.
fn push_missing(out: &mut Vec<PortRangeRecord>, extra: &Vec<PortRangeRecord>)
    ensures
        final(out)@ == add_missing(old(out)@, extra@),
{
    let ghost acc0 = out@;
    proof {
        assert(extra@.skip(0) =~= extra@);
    }
    let mut k: usize = 0;
    while k < extra.len()
        invariant
            k <= extra@.len(),
            add_missing(out@, extra@.skip(k as int)) == add_missing(acc0, extra@),
        decreases extra@.len() - k,
    {
        let ghost pre = out@;
        proof {
            assert(extra@.skip(k as int).len() > 0);
            assert(extra@.skip(k as int)[0] == extra@[k as int]);
            assert(extra@.skip(k as int).drop_first() =~= extra@.skip(k as int + 1));
        }
        if !rec_in(out, &extra[k]) {
            out.push(extra[k]);
            proof {
                assert(out@ == pre.push(extra@[k as int]));
                assert(add_missing(pre, extra@.skip(k as int)) == add_missing(
                    out@,
                    extra@.skip(k as int + 1),
                ));
            }
        } else {
            proof {
                assert(add_missing(pre, extra@.skip(k as int)) == add_missing(
                    out@,
                    extra@.skip(k as int + 1),
                ));
            }
        }
        k = k + 1;
    }
    proof {
        assert(extra@.skip(extra@.len() as int) =~= Seq::<PortRangeRecord>::empty());
        assert(add_missing(out@, Seq::<PortRangeRecord>::empty()) == out@);
    }
}

/// The inheritance discipline applied at one pair of rows.
proof fn lemma_monotone_at(s: Seq<RuleEntry>, i: int, j: int, r: PortRangeRecord)
    requires
        entries_monotone(s),
        0 <= i < s.len(),
        0 <= j < s.len(),
        i != j,
        s[i].id == s[j].id,
        s[i].proto == s[j].proto,
        s[i].cidr.contains_spec(&s[j].cidr),
        s[i].records@.contains(r),
    ensures
        s[j].records@.contains(r),
{
}

/// Membership in a narrower affected key's rebuilt record set.
proof fn lemma_other_candidate(base: Seq<PortRangeRecord>, rec: PortRangeRecord)
    ensures
        other_candidate(base, rec).contains(rec),
        forall|x: PortRangeRecord|
            #[trigger] other_candidate(base, rec).contains(x) == (base.contains(x) || x == rec),
{
    lemma_add_missing(base, seq![rec]);
    assert forall|x: PortRangeRecord|
        #[trigger] other_candidate(base, rec).contains(x) == (base.contains(x) || x == rec) by {
        assert(seq![rec].contains(x) == (x == rec)) by {
            if seq![rec].contains(x) {
                let j = choose|j: int| 0 <= j < 1 && seq![rec][j] == x;
            }
            if x == rec {
                assert(seq![rec][0] == x);
            }
        }
    }
    assert(seq![rec].contains(rec)) by {
        assert(seq![rec][0] == rec);
    }
    assert(other_candidate(base, rec).contains(rec));
}

/// No two distinct rows share a key.
proof fn lemma_keys_unique_at(s: Seq<RuleEntry>, a: int, b: int)
    requires
        keys_unique(s),
        0 <= a < s.len(),
        0 <= b < s.len(),
        a != b,
    ensures
        !(s[a].id == s[b].id && s[a].proto == s[b].proto && s[a].cidr == s[b].cidr),
{
    if a < b {
        assert(!((s[a]).id == (s[b]).id && s[a].proto == s[b].proto && s[a].cidr == s[b].cidr));
    } else {
        assert(!((s[b]).id == (s[a]).id && s[b].proto == s[a].proto && s[b].cidr == s[a].cidr));
    }
}

/// One step of `add_missing` on a single record.
proof fn lemma_add_one_missing(base: Seq<PortRangeRecord>, rec: PortRangeRecord)
    ensures
        add_missing(base, seq![rec]) == (if base.contains(rec) {
            base
        } else {
            base.push(rec)
        }),
{
    let x: Seq<PortRangeRecord> = if base.contains(rec) {
        base
    } else {
        base.push(rec)
    };
    assert(seq![rec].drop_first() =~= Seq::<PortRangeRecord>::empty());
    assert(add_missing(x, Seq::<PortRangeRecord>::empty()) == x);
    assert(add_missing(base, seq![rec]) == add_missing(x, seq![rec].drop_first()));
}

/// An entry an add at `(id, proto, dest)` must update: same group and
/// protocol, CIDR within `dest`.
pub open spec fn affected(e: &RuleEntry, id: u128, proto: u8, dest: Cidr) -> bool {
    e.id == id && e.proto == proto && dest.contains_spec(&e.cidr)
}

/// The record set a narrower affected key ends up with: its own plus
/// the new record.
pub open spec fn other_candidate(recs: Seq<PortRangeRecord>, rec: PortRangeRecord) -> Seq<
    PortRangeRecord,
> {
    add_missing(recs, seq![rec])
}

/// The record set the rule's own key ends up with: its own, the new
/// record, and everything inherited from broader keys.
pub open spec fn k0_candidate(
    s: Seq<RuleEntry>,
    id: u128,
    proto: u8,
    dest: Cidr,
    rec: PortRangeRecord,
) -> Seq<PortRangeRecord> {
    let i = tr_index_of(s, id, proto, dest);
    let base: Seq<PortRangeRecord> = if i >= 0 {
        s[i].records@
    } else {
        Seq::empty()
    };
    add_missing(add_missing(base, seq![rec]), spec_parents(s, id, proto, dest))
}

/// Every key an add would touch still compiles within capacity.
pub open spec fn add_fits(
    s: Seq<RuleEntry>,
    id: u128,
    proto: u8,
    dest: Cidr,
    rec: PortRangeRecord,
) -> bool {
    &&& spec_compile(rec_ranges(k0_candidate(s, id, proto, dest, rec))).len() <= MAX_RANGES
    &&& forall|i: int|
        0 <= i < s.len() && affected(&(#[trigger] s[i]), id, proto, dest) && s[i].cidr != dest
            ==> spec_compile(rec_ranges(other_candidate(s[i].records@, rec))).len() <= MAX_RANGES
}

impl RuleTracker {
    /// Collects, in table order, every record attached to a key of the
    /// same group and protocol whose CIDR contains `dest`.
    fn gather_parents(&self, id: u128, proto: u8, dest: &Cidr) -> (out: Vec<PortRangeRecord>)
        requires
            self.wf(),
            dest.wf(),
        ensures
            out@ == spec_parents(self.entries(), id, proto, *dest),
            recs_nodup(out@),
            recs_valid(out@),
            forall|a: int| 0 <= a < out@.len() ==> (#[trigger] out@[a]).origin.contains_spec(dest),
    {
        let ghost s = self.entries();
        let mut out: Vec<PortRangeRecord> = Vec::new();
        let mut i: usize = 0;
        while i < self.rule_map.len()
            invariant
                s == self.entries(),
                self.wf(),
                i <= s.len(),
                spec_parents_from(s, id, proto, *dest, i as int, out@) == spec_parents(
                    s,
                    id,
                    proto,
                    *dest,
                ),
            decreases s.len() - i,
        {
            let e = &self.rule_map[i];
            let ghost pre = out@;
            if e.id == id && e.proto == proto && e.cidr.contains(dest) {
                push_missing(&mut out, &e.records);
                proof {
                    assert(out@ == add_missing(pre, s[i as int].records@));
                }
            }
            proof {
                assert(spec_parents_from(s, id, proto, *dest, i as int, pre)
                    == spec_parents_from(s, id, proto, *dest, i as int + 1, out@));
            }
            i = i + 1;
        }
        proof {
            assert(spec_parents_from(s, id, proto, *dest, s.len() as int, out@) == out@);
            lemma_spec_parents(s, id, proto, *dest);
            assert(forall|j: int| 0 <= j < s.len() ==> recs_valid((#[trigger] s[j]).records@)) by {
                assert(forall|j: int|
                    0 <= j < s.len() ==> entry_wf(&(#[trigger] s[j])));
            }
            assert forall|a: int| 0 <= a < out@.len() implies (
            #[trigger] out@[a]).origin.contains_spec(dest) by {
                assert(out@.contains(out@[a]));
                assert(inherited(s, id, proto, *dest, out@[a]));
                let j = choose|j: int|
                    0 <= j < s.len() && (#[trigger] s[j]).id == id && s[j].proto == proto
                        && s[j].cidr.contains_spec(dest) && s[j].records@.contains(out@[a]);
                assert(entry_wf(&s[j]));
                let r = out@[a];
                let b = choose|b: int| 0 <= b < s[j].records@.len() && s[j].records@[b] == r;
                assert(s[j].records@[b].origin.contains_spec(&s[j].cidr));
                Cidr::lemma_contains_trans(&r.origin, &s[j].cidr, dest);
            }
        }
        out
    }
}

impl RuleTracker {
    /// Ingests one concrete record under one protocol: validates every
    /// key the update would touch, and only on success rebuilds the
    /// affected keys and their compiled stores.  On failure neither the
    /// tracker nor the table changes.
    fn add_one(
        &mut self,
        store: &mut LpmStore,
        id: u128,
        proto: u8,
        dest: Cidr,
        rec: PortRangeRecord,
    ) -> (r: Result<(), FirewallError>)
        requires
            old(self).inv(old(store)),
            concrete_proto(proto),
            dest.wf(),
            dest.is_norm(),
            valid_rec(rec),
            rec.origin == dest,
        ensures
            final(self).inv(final(store)),
            r is Err ==> final(self).entries() == old(self).entries() && final(store).entries()
                == old(store).entries() && r == Err::<(), FirewallError>(
                FirewallError::RuleEntry(RuleStoreError::Exhausted),
            ) && !add_fits(old(self).entries(), id, proto, dest, rec),
            r is Ok ==> add_fits(old(self).entries(), id, proto, dest, rec),
            r is Ok ==> ({
                let olds = old(self).entries();
                let news = final(self).entries();
                let k0 = tr_index_of(olds, id, proto, dest);
                &&& news.len() == olds.len() + (if k0 >= 0 {
                    0int
                } else {
                    1int
                })
                &&& forall|i: int|
                    0 <= i < olds.len() ==> (#[trigger] news[i]).id == olds[i].id && news[i].proto
                        == olds[i].proto && news[i].cidr == olds[i].cidr
                &&& forall|i: int|
                    0 <= i < olds.len() ==> (#[trigger] news[i]).records@ == (if affected(
                        &olds[i],
                        id,
                        proto,
                        dest,
                    ) {
                        if olds[i].cidr == dest {
                            k0_candidate(olds, id, proto, dest, rec)
                        } else {
                            other_candidate(olds[i].records@, rec)
                        }
                    } else {
                        olds[i].records@
                    })
                &&& k0 < 0 ==> news[olds.len() as int].id == id && news[olds.len() as int].proto
                    == proto && news[olds.len() as int].cidr == dest && news[olds.len() as int].records@
                    == k0_candidate(olds, id, proto, dest, rec)
            }),
    {
        let ghost olds = self.entries();
        let ghost oldlpm = store.entries();
        let parents = self.gather_parents(id, proto, &dest);
        let ghost k0cand = k0_candidate(olds, id, proto, dest, rec);
        proof {
            lemma_tr_index_of(olds, id, proto, dest);
            lemma_add_missing(Seq::<PortRangeRecord>::empty(), seq![rec]);
            lemma_spec_parents(olds, id, proto, dest);
        }
        let mut new_map: Vec<RuleEntry> = Vec::new();
        let mut new_lpm: LpmStore = LpmStore::new();
        let mut found: bool = false;
        let mut i: usize = 0;
        while i < self.rule_map.len()
            invariant
                olds == self.entries(),
                oldlpm == store.entries(),
                self.inv(store),
                concrete_proto(proto),
                dest.wf(),
                dest.is_norm(),
                valid_rec(rec),
                rec.origin == dest,
                parents@ == spec_parents(olds, id, proto, dest),
                recs_nodup(parents@),
                recs_valid(parents@),
                forall|a: int|
                    0 <= a < parents@.len() ==> (#[trigger] parents@[a]).origin.contains_spec(
                        &dest,
                    ),
                k0cand == k0_candidate(olds, id, proto, dest, rec),
                i <= olds.len(),
                new_map@.len() == i,
                new_lpm.wf(),
                new_lpm.entries().len() == i,
                found == (tr_index_of(olds, id, proto, dest) >= 0 && tr_index_of(
                    olds,
                    id,
                    proto,
                    dest,
                ) < i),
                forall|j: int|
                    0 <= j < i ==> (#[trigger] new_map@[j]).id == olds[j].id && new_map@[j].proto
                        == olds[j].proto && new_map@[j].cidr == olds[j].cidr,
                forall|j: int|
                    0 <= j < i ==> (#[trigger] new_map@[j]).records@ == (if affected(
                        &olds[j],
                        id,
                        proto,
                        dest,
                    ) {
                        if olds[j].cidr == dest {
                            k0cand
                        } else {
                            other_candidate(olds[j].records@, rec)
                        }
                    } else {
                        olds[j].records@
                    }),
                forall|j: int|
                    0 <= j < i ==> spec_compile(
                        rec_ranges((#[trigger] new_map@[j]).records@),
                    ).len() <= MAX_RANGES,
                forall|j: int|
                    0 <= j < i ==> (#[trigger] new_lpm.entries()[j]).id == new_map@[j].id
                        && new_lpm.entries()[j].proto == new_map@[j].proto
                        && new_lpm.entries()[j].cidr == new_map@[j].cidr
                        && new_lpm.entries()[j].store.ranges() == spec_compile(
                        rec_ranges(new_map@[j].records@),
                    ),
            decreases olds.len() - i,
        {
            let e = &self.rule_map[i];
            proof {
                assert(entry_wf(&olds[i as int]));
            }
            let ghost pre_lpm = new_lpm.entries();
            if e.id == id && e.proto == proto && dest.contains(&e.cidr) {
                let mut recs = copy_recs(&e.records);
                if !rec_in(&recs, &rec) {
                    recs.push(rec);
                }
                proof {
                    lemma_add_one_missing(olds[i as int].records@, rec);
                    assert(recs@ == add_missing(olds[i as int].records@, seq![rec]));
                }
                if e.cidr == dest {
                    found = true;
                    push_missing(&mut recs, &parents);
                    proof {
                        lemma_tr_index_of(olds, id, proto, dest);
                        assert(tr_index_of(olds, id, proto, dest) == i) by {
                            assert(tr_matches(&olds[i as int], id, proto, dest));
                            let k = tr_index_of(olds, id, proto, dest);
                            if k < i {
                                assert(!tr_matches(&olds[k], id, proto, dest));
                            }
                            if k > i {
                                assert(!tr_matches(&olds[i as int], id, proto, dest));
                            }
                        }
                        assert(recs@ == k0cand);
                    }
                } else {
                    proof {
                        assert(recs@ == other_candidate(olds[i as int].records@, rec));
                        assert(!tr_matches(&olds[i as int], id, proto, dest));
                        lemma_tr_index_of(olds, id, proto, dest);
                        assert(tr_index_of(olds, id, proto, dest) != i);
                    }
                }
                proof {
                    lemma_add_missing(olds[i as int].records@, seq![rec]);
                    lemma_add_missing(
                        add_missing(olds[i as int].records@, seq![rec]),
                        parents@,
                    );
                    assert(recs_valid(recs@)) by {
                        assert(recs_valid(seq![rec])) by {
                            assert(seq![rec][0] == rec);
                        }
                    }
                }
                match compile_records(&recs) {
                    Ok(st) => {
                        new_lpm.insert(e.id, e.proto, e.cidr, st);
                        proof {
                            crate::lpm::lemma_index_of(pre_lpm, olds[i as int].id, olds[i as int].proto, olds[i as int].cidr);
                            if crate::lpm::index_of(pre_lpm, olds[i as int].id, olds[i as int].proto, olds[i as int].cidr) >= 0 {
                                let jj = crate::lpm::index_of(pre_lpm, olds[i as int].id, olds[i as int].proto, olds[i as int].cidr);
                                assert(crate::lpm::entry_matches(pre_lpm[jj], olds[i as int].id, olds[i as int].proto, olds[i as int].cidr));
                                assert(new_map@[jj].cidr == olds[jj].cidr);
                                assert(!(olds[jj].id == olds[i as int].id && olds[jj].proto == olds[i as int].proto
                                    && olds[jj].cidr == olds[i as int].cidr));
                            }
                        }
                        let er = RuleEntry { id: e.id, proto: e.proto, cidr: e.cidr, records: recs };
                        new_map.push(er);
                    },
                    Err(er) => {
                        proof {
                            if olds[i as int].cidr == dest {
                                assert(!add_fits(olds, id, proto, dest, rec));
                            } else {
                                assert(affected(&olds[i as int], id, proto, dest));
                                assert(!add_fits(olds, id, proto, dest, rec));
                            }
                        }
                        return Err(er);
                    },
                }
            } else {
                proof {
                    assert(!tr_matches(&olds[i as int], id, proto, dest)) by {
                        if tr_matches(&olds[i as int], id, proto, dest) {
                            dest.lemma_contains_self();
                        }
                    }
                    lemma_tr_index_of(olds, id, proto, dest);
                    assert(tr_index_of(olds, id, proto, dest) != i);
                }
                let recs = copy_recs(&e.records);
                let st = match store.get(e.id, e.proto, &e.cidr) {
                    Some(st) => st,
                    None => {
                        proof {
                            crate::lpm::lemma_index_of(oldlpm, olds[i as int].id, olds[i as int].proto, olds[i as int].cidr);
                            assert(crate::lpm::entry_matches(oldlpm[i as int], olds[i as int].id, olds[i as int].proto, olds[i as int].cidr));
                            assert(false);
                        }
                        RuleStore::empty()
                    },
                };
                proof {
                    let jj = crate::lpm::index_of(oldlpm, olds[i as int].id, olds[i as int].proto, olds[i as int].cidr);
                    crate::lpm::lemma_index_of(oldlpm, olds[i as int].id, olds[i as int].proto, olds[i as int].cidr);
                    assert(crate::lpm::entry_matches(oldlpm[i as int], olds[i as int].id, olds[i as int].proto, olds[i as int].cidr));
                    assert(jj >= 0);
                    assert(crate::lpm::entry_matches(oldlpm[jj], olds[i as int].id, olds[i as int].proto, olds[i as int].cidr));
                    assert(olds[jj].id == oldlpm[jj].id && olds[jj].proto == oldlpm[jj].proto && olds[jj].cidr == oldlpm[jj].cidr);
                    if jj != i {
                        lemma_keys_unique_at(olds, jj, i as int);
                    }
                    assert(jj == i);
                    assert(store.entries()[jj].store.ranges() == spec_compile(
                        rec_ranges(self.entries()[jj].records@),
                    ));
                    assert(st == store.entries()[jj].store);
                    assert(st.ranges() == spec_compile(rec_ranges(olds[i as int].records@)));
                    assert(store.entries()[jj].store.wf());
                    assert(st.wf());
                }
                new_lpm.insert(e.id, e.proto, e.cidr, st);
                proof {
                    crate::lpm::lemma_index_of(pre_lpm, olds[i as int].id, olds[i as int].proto, olds[i as int].cidr);
                    if crate::lpm::index_of(pre_lpm, olds[i as int].id, olds[i as int].proto, olds[i as int].cidr) >= 0 {
                        let jj = crate::lpm::index_of(pre_lpm, olds[i as int].id, olds[i as int].proto, olds[i as int].cidr);
                        assert(crate::lpm::entry_matches(pre_lpm[jj], olds[i as int].id, olds[i as int].proto, olds[i as int].cidr));
                        assert(!(olds[jj].id == olds[i as int].id && olds[jj].proto == olds[i as int].proto
                            && olds[jj].cidr == olds[i as int].cidr));
                    }
                }
                let er = RuleEntry { id: e.id, proto: e.proto, cidr: e.cidr, records: recs };
                new_map.push(er);
            }
            i = i + 1;
        }
        if !found {
            let mut recs: Vec<PortRangeRecord> = Vec::new();
            recs.push(rec);
            push_missing(&mut recs, &parents);
            proof {
                assert(tr_index_of(olds, id, proto, dest) < 0) by {
                    lemma_tr_index_of(olds, id, proto, dest);
                }
                lemma_add_one_missing(Seq::<PortRangeRecord>::empty(), rec);
                assert(add_missing(Seq::<PortRangeRecord>::empty(), seq![rec]) =~= seq![rec]);
                assert(Seq::<PortRangeRecord>::empty().push(rec) =~= seq![rec]);
                assert(recs@ == k0cand);
                lemma_add_missing(seq![rec], parents@);
                assert(recs_valid(recs@)) by {
                    assert(recs_valid(seq![rec])) by {
                        assert(seq![rec][0] == rec);
                    }
                }
            }
            match compile_records(&recs) {
                Ok(st) => {
                    proof {
                        crate::lpm::lemma_index_of(new_lpm.entries(), id, proto, dest);
                        if crate::lpm::index_of(new_lpm.entries(), id, proto, dest) >= 0 {
                            let jj = crate::lpm::index_of(new_lpm.entries(), id, proto, dest);
                            assert(crate::lpm::entry_matches(new_lpm.entries()[jj], id, proto, dest));
                            assert(tr_matches(&olds[jj], id, proto, dest));
                            lemma_tr_index_of(olds, id, proto, dest);
                        }
                    }
                    new_lpm.insert(id, proto, dest, st);
                    let er = RuleEntry { id, proto, cidr: dest, records: recs };
                    new_map.push(er);
                },
                Err(er) => {
                    proof {
                        assert(!add_fits(olds, id, proto, dest, rec));
                    }
                    return Err(er);
                },
            }
        }
        self.rule_map = new_map;
        *store = new_lpm;
        proof {
            let news = self.entries();
            let k0 = tr_index_of(olds, id, proto, dest);
            lemma_tr_index_of(olds, id, proto, dest);
            assert(k0 >= 0 ==> news.len() == olds.len());
            assert(k0 < 0 ==> news.len() == olds.len() + 1);
            assert(forall|j: int|
                0 <= j < news.len() ==> spec_compile(
                    rec_ranges((#[trigger] news[j]).records@),
                ).len() <= MAX_RANGES);
            lemma_add_one_inv(olds, news, id, proto, dest, rec);
            assert(self.wf());
            assert(self.monotone());
            assert(self.paired(store));
            assert(add_fits(olds, id, proto, dest, rec)) by {
                if k0 >= 0 {
                    assert(news[k0].records@ == k0_candidate(olds, id, proto, dest, rec)) by {
                        assert(tr_matches(&olds[k0], id, proto, dest));
                        assert(affected(&olds[k0], id, proto, dest)) by {
                            dest.lemma_contains_self();
                        }
                    }
                } else {
                    assert(news[olds.len() as int].records@ == k0_candidate(
                        olds,
                        id,
                        proto,
                        dest,
                        rec,
                    ));
                }
                assert forall|x: int|
                    0 <= x < olds.len() && affected(&(#[trigger] olds[x]), id, proto, dest)
                        && olds[x].cidr != dest implies spec_compile(
                    rec_ranges(other_candidate(olds[x].records@, rec)),
                ).len() <= MAX_RANGES by {
                    assert(news[x].records@ == other_candidate(olds[x].records@, rec));
                }
            }
        }
        Ok(())
    }
}

/// What one ingested record leaves behind: membership at an updated key.
proof fn lemma_candidate_membership(
    olds: Seq<RuleEntry>,
    id: u128,
    proto: u8,
    dest: Cidr,
    rec: PortRangeRecord,
)
    ensures
        forall|r: PortRangeRecord|
            #[trigger] k0_candidate(olds, id, proto, dest, rec).contains(r) == ({
                let k0 = tr_index_of(olds, id, proto, dest);
                (k0 >= 0 && olds[k0].records@.contains(r)) || r == rec || inherited(
                    olds,
                    id,
                    proto,
                    dest,
                    r,
                )
            }),
{
    lemma_spec_parents(olds, id, proto, dest);
    let k0 = tr_index_of(olds, id, proto, dest);
    let base: Seq<PortRangeRecord> = if k0 >= 0 {
        olds[k0].records@
    } else {
        Seq::empty()
    };
    lemma_add_missing(base, seq![rec]);
    lemma_add_missing(add_missing(base, seq![rec]), spec_parents(olds, id, proto, dest));
    assert forall|r: PortRangeRecord|
        #[trigger] k0_candidate(olds, id, proto, dest, rec).contains(r) == ((k0 >= 0
            && olds[k0].records@.contains(r)) || r == rec || inherited(olds, id, proto, dest, r)) by {
        assert(seq![rec].contains(r) == (r == rec)) by {
            if seq![rec].contains(r) {
                let j = choose|j: int| 0 <= j < 1 && seq![rec][j] == r;
            }
            if r == rec {
                assert(seq![rec][0] == r);
            }
        }
        if k0 < 0 {
            assert(!base.contains(r));
        }
    }
}

/// After one ingested record the rebuilt table is well formed and keeps
/// the inheritance discipline.
proof fn lemma_add_one_inv(
    olds: Seq<RuleEntry>,
    news: Seq<RuleEntry>,
    id: u128,
    proto: u8,
    dest: Cidr,
    rec: PortRangeRecord,
)
    requires
        entries_wf(olds),
        entries_monotone(olds),
        concrete_proto(proto),
        dest.wf(),
        dest.is_norm(),
        valid_rec(rec),
        rec.origin == dest,
        news.len() == olds.len() + (if tr_index_of(olds, id, proto, dest) >= 0 {
            0int
        } else {
            1int
        }),
        forall|i: int|
            0 <= i < olds.len() ==> (#[trigger] news[i]).id == olds[i].id && news[i].proto
                == olds[i].proto && news[i].cidr == olds[i].cidr,
        forall|i: int|
            0 <= i < olds.len() ==> (#[trigger] news[i]).records@ == (if affected(
                &olds[i],
                id,
                proto,
                dest,
            ) {
                if olds[i].cidr == dest {
                    k0_candidate(olds, id, proto, dest, rec)
                } else {
                    other_candidate(olds[i].records@, rec)
                }
            } else {
                olds[i].records@
            }),
        tr_index_of(olds, id, proto, dest) < 0 ==> news[olds.len() as int].id == id
            && news[olds.len() as int].proto == proto && news[olds.len() as int].cidr == dest
            && news[olds.len() as int].records@ == k0_candidate(olds, id, proto, dest, rec),
        forall|j: int|
            0 <= j < news.len() ==> spec_compile(rec_ranges((#[trigger] news[j]).records@)).len()
                <= MAX_RANGES,
    ensures
        entries_wf(news),
        entries_monotone(news),
{
    let k0 = tr_index_of(olds, id, proto, dest);
    let n = olds.len() as int;
    lemma_tr_index_of(olds, id, proto, dest);
    lemma_candidate_membership(olds, id, proto, dest, rec);
    lemma_spec_parents(olds, id, proto, dest);
    let k0cand = k0_candidate(olds, id, proto, dest, rec);

    // the new key set repeats the old keys, plus possibly the rule's own
    assert(keys_unique(news)) by {
        assert forall|i: int, j: int| 0 <= i < j < news.len() implies !((#[trigger] news[i]).id == (
        #[trigger] news[j]).id && news[i].proto == news[j].proto && news[i].cidr == news[j].cidr)
            by {
            if j < n {
            } else {
                assert(k0 < 0);
                assert(!tr_matches(&olds[i], id, proto, dest));
            }
        }
    }

    // each entry on its own
    assert forall|i: int| 0 <= i < news.len() implies entry_wf(&(#[trigger] news[i])) by {
        if i < n {
            assert(entry_wf(&olds[i]));
            if affected(&olds[i], id, proto, dest) {
                let base = olds[i].records@;
                if olds[i].cidr == dest {
                    assert(k0 == i) by {
                        assert(tr_matches(&olds[i], id, proto, dest));
                        if k0 < i {
                            assert(!tr_matches(&olds[k0], id, proto, dest));
                        }
                        if k0 > i || k0 < 0 {
                            assert(!tr_matches(&olds[i], id, proto, dest));
                        }
                    }
                    lemma_add_missing(base, seq![rec]);
                    lemma_add_missing(
                        add_missing(base, seq![rec]),
                        spec_parents(olds, id, proto, dest),
                    );
                    assert(recs_valid(seq![rec])) by {
                        assert(seq![rec][0] == rec);
                    }
                    assert(news[i].records@.len() > 0);
                    assert(recs_nodup(news[i].records@));
                    assert(recs_valid(news[i].records@)) by {
                        assert(forall|x: int|
                            0 <= x < olds.len() ==> recs_valid(
                                (#[trigger] olds[x]).records@,
                            ));
                    }
                    assert forall|a: int| 0 <= a < news[i].records@.len() implies (
                    #[trigger] news[i].records@[a]).origin.contains_spec(&news[i].cidr) by {
                        let r = news[i].records@[a];
                        assert(news[i].records@.contains(r));
                        assert(k0cand.contains(r));
                        if k0 >= 0 && olds[k0].records@.contains(r) {
                            let b = choose|b: int|
                                0 <= b < olds[k0].records@.len() && olds[k0].records@[b] == r;
                        } else if r == rec {
                            assert(r.origin == dest);
                            dest.lemma_contains_self();
                        } else {
                            assert(inherited(olds, id, proto, dest, r));
                            let x = choose|x: int|
                                0 <= x < olds.len() && (#[trigger] olds[x]).id == id
                                    && olds[x].proto == proto && olds[x].cidr.contains_spec(&dest)
                                    && olds[x].records@.contains(r);
                            assert(entry_wf(&olds[x]));
                            let b = choose|b: int|
                                0 <= b < olds[x].records@.len() && olds[x].records@[b] == r;
                            assert(olds[x].records@[b].origin.contains_spec(&olds[x].cidr));
                            Cidr::lemma_contains_trans(&r.origin, &olds[x].cidr, &dest);
                        }
                    }
                } else {
                    lemma_add_missing(base, seq![rec]);
                    assert(recs_valid(seq![rec])) by {
                        assert(seq![rec][0] == rec);
                    }
                    assert(news[i].records@.len() > 0);
                    assert(recs_nodup(news[i].records@));
                    assert(recs_valid(news[i].records@));
                    assert forall|a: int| 0 <= a < news[i].records@.len() implies (
                    #[trigger] news[i].records@[a]).origin.contains_spec(&news[i].cidr) by {
                        let r = news[i].records@[a];
                        assert(news[i].records@.contains(r));
                        assert(other_candidate(base, rec).contains(r));
                        if base.contains(r) {
                            let b = choose|b: int| 0 <= b < base.len() && base[b] == r;
                        } else {
                            assert(r == rec);
                            assert(dest.contains_spec(&olds[i].cidr));
                        }
                    }
                }
            }
        } else {
            assert(k0 < 0);
            assert(news[i].records@ == k0cand);
            lemma_add_missing(Seq::<PortRangeRecord>::empty(), seq![rec]);
            lemma_add_missing(
                add_missing(Seq::<PortRangeRecord>::empty(), seq![rec]),
                spec_parents(olds, id, proto, dest),
            );
            assert(recs_valid(seq![rec])) by {
                assert(seq![rec][0] == rec);
            }
            assert(k0cand.contains(rec));
            assert(news[i].records@.len() > 0) by {
                assert(k0cand.contains(rec));
                let a = choose|a: int| 0 <= a < k0cand.len() && k0cand[a] == rec;
            }
            assert(recs_nodup(news[i].records@));
            assert(recs_valid(news[i].records@)) by {
                assert(forall|x: int|
                    0 <= x < olds.len() ==> recs_valid((#[trigger] olds[x]).records@));
            }
            assert forall|a: int| 0 <= a < news[i].records@.len() implies (
            #[trigger] news[i].records@[a]).origin.contains_spec(&news[i].cidr) by {
                let r = news[i].records@[a];
                assert(news[i].records@.contains(r));
                assert(k0cand.contains(r));
                if r == rec {
                    dest.lemma_contains_self();
                } else {
                    assert(inherited(olds, id, proto, dest, r));
                    let x = choose|x: int|
                        0 <= x < olds.len() && (#[trigger] olds[x]).id == id && olds[x].proto
                            == proto && olds[x].cidr.contains_spec(&dest) && olds[x].records@.contains(
                            r,
                        );
                    assert(entry_wf(&olds[x]));
                    let b = choose|b: int|
                        0 <= b < olds[x].records@.len() && olds[x].records@[b] == r;
                    assert(olds[x].records@[b].origin.contains_spec(&olds[x].cidr));
                    Cidr::lemma_contains_trans(&r.origin, &olds[x].cidr, &dest);
                }
            }
        }
    }

    // inheritance: every broader row's records sit in every narrower row
    assert forall|i: int, j: int, r: PortRangeRecord|
        0 <= i < news.len() && 0 <= j < news.len() && i != j && news[i].id == news[j].id
            && news[i].proto == news[j].proto && news[i].cidr.contains_spec(&news[j].cidr) && (
        #[trigger] news[i].records@.contains(r)) implies #[trigger] news[j].records@.contains(
        r,
    ) by {
        lemma_membership_after_add(olds, news, id, proto, dest, rec, i, j, r);
    }
}

/// The inheritance step for one record and one pair of rows.
proof fn lemma_membership_after_add(
    olds: Seq<RuleEntry>,
    news: Seq<RuleEntry>,
    id: u128,
    proto: u8,
    dest: Cidr,
    rec: PortRangeRecord,
    i: int,
    j: int,
    r: PortRangeRecord,
)
    requires
        entries_wf(olds),
        entries_monotone(olds),
        dest.wf(),
        dest.is_norm(),
        rec.origin == dest,
        news.len() == olds.len() + (if tr_index_of(olds, id, proto, dest) >= 0 {
            0int
        } else {
            1int
        }),
        forall|x: int|
            0 <= x < olds.len() ==> (#[trigger] news[x]).id == olds[x].id && news[x].proto
                == olds[x].proto && news[x].cidr == olds[x].cidr,
        forall|x: int|
            0 <= x < olds.len() ==> (#[trigger] news[x]).records@ == (if affected(
                &olds[x],
                id,
                proto,
                dest,
            ) {
                if olds[x].cidr == dest {
                    k0_candidate(olds, id, proto, dest, rec)
                } else {
                    other_candidate(olds[x].records@, rec)
                }
            } else {
                olds[x].records@
            }),
        tr_index_of(olds, id, proto, dest) < 0 ==> news[olds.len() as int].id == id
            && news[olds.len() as int].proto == proto && news[olds.len() as int].cidr == dest
            && news[olds.len() as int].records@ == k0_candidate(olds, id, proto, dest, rec),
        0 <= i < news.len(),
        0 <= j < news.len(),
        i != j,
        news[i].id == news[j].id,
        news[i].proto == news[j].proto,
        news[i].cidr.contains_spec(&news[j].cidr),
        news[i].records@.contains(r),
    ensures
        news[j].records@.contains(r),
{
    let k0 = tr_index_of(olds, id, proto, dest);
    let n = olds.len() as int;
    lemma_tr_index_of(olds, id, proto, dest);
    lemma_candidate_membership(olds, id, proto, dest, rec);
    let k0cand = k0_candidate(olds, id, proto, dest, rec);
    // membership in the source row, case by case
    if i < n && j < n {
        assert(olds[i].id == olds[j].id);
        assert(olds[i].proto == olds[j].proto);
        assert(olds[i].cidr.contains_spec(&olds[j].cidr));
        // how the target row absorbs a record it must hold
        if affected(&olds[i], id, proto, dest) && olds[i].cidr == dest {
            assert(k0 == i) by {
                assert(tr_matches(&olds[i], id, proto, dest));
                if k0 < i {
                    assert(!tr_matches(&olds[k0], id, proto, dest));
                }
                if k0 > i || k0 < 0 {
                    assert(!tr_matches(&olds[i], id, proto, dest));
                }
            }
            assert(k0cand.contains(r));
            assert(affected(&olds[j], id, proto, dest)) by {
                assert(olds[i].cidr == dest);
            }
            assert(olds[j].cidr != dest) by {
                if olds[j].cidr == dest {
                    lemma_keys_unique_at(olds, i, j);
                }
            }
            assert(news[j].records@ == other_candidate(olds[j].records@, rec));
            lemma_other_candidate(olds[j].records@, rec);
            if k0 >= 0 && olds[k0].records@.contains(r) {
                lemma_monotone_at(olds, i, j, r);
            } else if r == rec {
            } else {
                assert(inherited(olds, id, proto, dest, r));
                let x = choose|x: int|
                    0 <= x < olds.len() && (#[trigger] olds[x]).id == id && olds[x].proto == proto
                        && olds[x].cidr.contains_spec(&dest) && olds[x].records@.contains(r);
                assert(entry_wf(&olds[x]) && entry_wf(&olds[j]));
                assert(olds[x].cidr.contains_spec(&olds[j].cidr)) by {
                    Cidr::lemma_contains_trans(&olds[x].cidr, &dest, &olds[j].cidr);
                }
                if x != j {
                    lemma_monotone_at(olds, x, j, r);
                }
            }
            assert(news[j].records@.contains(r));
        } else if affected(&olds[i], id, proto, dest) {
            assert(news[i].records@ == other_candidate(olds[i].records@, rec));
            lemma_other_candidate(olds[i].records@, rec);
            assert(affected(&olds[j], id, proto, dest)) by {
                assert(entry_wf(&olds[i]) && entry_wf(&olds[j]));
                Cidr::lemma_contains_trans(&dest, &olds[i].cidr, &olds[j].cidr);
            }
            if olds[j].cidr == dest {
                assert(k0 == j) by {
                    assert(tr_matches(&olds[j], id, proto, dest));
                    if k0 < j && k0 >= 0 {
                        assert(!tr_matches(&olds[k0], id, proto, dest));
                    }
                    if k0 > j || k0 < 0 {
                        assert(!tr_matches(&olds[j], id, proto, dest));
                    }
                }
                assert(news[j].records@ == k0cand);
                if olds[i].records@.contains(r) {
                    lemma_monotone_at(olds, i, j, r);
                    assert(k0cand.contains(r));
                } else {
                    assert(r == rec);
                    assert(k0cand.contains(rec));
                }
            } else {
                assert(news[j].records@ == other_candidate(olds[j].records@, rec));
                lemma_other_candidate(olds[j].records@, rec);
                if olds[i].records@.contains(r) {
                    lemma_monotone_at(olds, i, j, r);
                } else {
                    assert(r == rec);
                }
            }
            assert(news[j].records@.contains(r));
        } else {
            assert(news[i].records@ == olds[i].records@);
            lemma_monotone_at(olds, i, j, r);
            if affected(&olds[j], id, proto, dest) {
                if olds[j].cidr == dest {
                    assert(k0 == j) by {
                        assert(tr_matches(&olds[j], id, proto, dest));
                        if k0 < j && k0 >= 0 {
                            assert(!tr_matches(&olds[k0], id, proto, dest));
                        }
                        if k0 > j || k0 < 0 {
                            assert(!tr_matches(&olds[j], id, proto, dest));
                        }
                    }
                    assert(news[j].records@ == k0cand);
                    assert(k0cand.contains(r));
                } else {
                    assert(news[j].records@ == other_candidate(olds[j].records@, rec));
                    lemma_other_candidate(olds[j].records@, rec);
                }
            } else {
                assert(news[j].records@ == olds[j].records@);
            }
            assert(news[j].records@.contains(r));
        }
    } else if i < n {
        // the target row is the rule's own new key
        assert(j == n && k0 < 0);
        assert(news[j].cidr == dest);
        assert(news[j].records@ == k0cand);
        assert(olds[i].id == id && olds[i].proto == proto);
        assert(olds[i].cidr.contains_spec(&dest));
        if affected(&olds[i], id, proto, dest) {
            // contained both ways: the old row would be the rule's key itself
            assert(entry_wf(&olds[i]));
            Cidr::lemma_contains_antisym(&olds[i].cidr, &dest);
            assert(tr_matches(&olds[i], id, proto, dest));
            assert(false);
        }
        assert(news[i].records@ == olds[i].records@);
        assert(inherited(olds, id, proto, dest, r));
        assert(k0cand.contains(r));
    } else {
        // the source row is the rule's own new key
        assert(i == n && k0 < 0);
        assert(news[i].records@ == k0cand);
        assert(j < n);
        assert(dest.contains_spec(&olds[j].cidr));
        assert(olds[j].id == id && olds[j].proto == proto);
        assert(affected(&olds[j], id, proto, dest));
        assert(olds[j].cidr != dest) by {
            if olds[j].cidr == dest {
                assert(tr_matches(&olds[j], id, proto, dest));
            }
        }
        assert(news[j].records@ == other_candidate(olds[j].records@, rec));
        lemma_other_candidate(olds[j].records@, rec);
        if k0 >= 0 && olds[k0].records@.contains(r) {
            assert(false);
        } else if r == rec {
        } else {
            assert(inherited(olds, id, proto, dest, r));
            let x = choose|x: int|
                0 <= x < olds.len() && (#[trigger] olds[x]).id == id && olds[x].proto == proto
                    && olds[x].cidr.contains_spec(&dest) && olds[x].records@.contains(r);
            assert(entry_wf(&olds[x]) && entry_wf(&olds[j]));
            assert(olds[x].cidr.contains_spec(&olds[j].cidr)) by {
                Cidr::lemma_contains_trans(&olds[x].cidr, &dest, &olds[j].cidr);
            }
            if x != j {
                lemma_monotone_at(olds, x, j, r);
            }
        }
        assert(news[j].records@.contains(r));
    }
}

/// Removes the record from a duplicate-free list, if present.
#[verifier::loop_isolation(false)]
fn rec_remove(v: &mut Vec<PortRangeRecord>, rec: &PortRangeRecord)
    requires
        recs_nodup(old(v)@),
    ensures
        recs_nodup(final(v)@),
        forall|x: PortRangeRecord|
            #[trigger] final(v)@.contains(x) == (old(v)@.contains(x) && x != *rec),
        recs_valid(old(v)@) ==> recs_valid(final(v)@),
        old(v)@.contains(*rec) ==> final(v)@.len() == old(v)@.len() - 1,
        !old(v)@.contains(*rec) ==> final(v)@ == old(v)@,
{
    let ghost pre = v@;
    let mut i: usize = 0;
    while i < v.len()
        invariant
            pre == v@,
            i <= pre.len(),
            forall|j: int| 0 <= j < i ==> pre[j] != *rec,
        decreases pre.len() - i,
    {
        if v[i] == *rec {
            v.remove(i);
            proof {
                let post = v@;
                assert(post == pre.remove(i as int));
                pre.remove_ensures(i as int);
                assert forall|a: int, b: int| 0 <= a < b < post.len() implies (
                #[trigger] post[a]) != (#[trigger] post[b]) by {
                    let a2: int = if a < i {
                        a
                    } else {
                        a + 1
                    };
                    let b2: int = if b < i {
                        b
                    } else {
                        b + 1
                    };
                    assert(post[a] == pre[a2] && post[b] == pre[b2]);
                    assert(0 <= a2 < b2 < pre.len());
                }
                assert forall|x: PortRangeRecord| #[trigger] post.contains(x) == (pre.contains(x)
                    && x != *rec) by {
                    if post.contains(x) {
                        let j = choose|j: int| 0 <= j < post.len() && post[j] == x;
                        let j2: int = if j < i {
                            j
                        } else {
                            j + 1
                        };
                        assert(pre[j2] == x);
                        assert(pre.contains(x));
                        if x == *rec {
                            assert(pre[i as int] == *rec);
                        }
                    }
                    if pre.contains(x) && x != *rec {
                        let j = choose|j: int| 0 <= j < pre.len() && pre[j] == x;
                        let j2: int = if j < i {
                            j
                        } else {
                            j - 1
                        };
                        assert(post[j2] == x);
                    }
                }
                assert(recs_valid(pre) ==> recs_valid(post)) by {
                    if recs_valid(pre) {
                        assert forall|a: int| 0 <= a < post.len() implies valid_rec(
                            #[trigger] post[a],
                        ) by {
                            let a2: int = if a < i {
                                a
                            } else {
                                a + 1
                            };
                            assert(post[a] == pre[a2]);
                        }
                    }
                }
            }
            return ;
        }
        i = i + 1;
    }
    proof {
        assert(!pre.contains(*rec)) by {
            if pre.contains(*rec) {
                let j = choose|j: int| 0 <= j < pre.len() && pre[j] == *rec;
            }
        }
    }
}

/// Two row sequences with pointwise equal keys index alike.
proof fn lemma_tr_index_same_keys(a: Seq<RuleEntry>, b: Seq<RuleEntry>, id: u128, proto: u8, cidr: Cidr)
    requires
        a.len() == b.len(),
        forall|j: int|
            0 <= j < a.len() ==> (#[trigger] b[j]).id == a[j].id && b[j].proto == a[j].proto
                && b[j].cidr == a[j].cidr,
    ensures
        tr_index_of(a, id, proto, cidr) == tr_index_of(b, id, proto, cidr),
    decreases a.len(),
{
    if a.len() > 0 {
        let ra = a.drop_first();
        let rb = b.drop_first();
        assert(forall|j: int| 0 <= j < ra.len() ==> ra[j] == a[j + 1] && rb[j] == b[j + 1]);
        lemma_tr_index_same_keys(ra, rb, id, proto, cidr);
    }
}

/// How `tr_index_of` behaves when one row is removed.
proof fn lemma_tr_index_of_remove(pre: Seq<RuleEntry>, i: int, id: u128, proto: u8, cidr: Cidr)
    requires
        keys_unique(pre),
        0 <= i < pre.len(),
    ensures
        tr_matches(&pre[i], id, proto, cidr) ==> tr_index_of(pre.remove(i), id, proto, cidr) == -1,
        !tr_matches(&pre[i], id, proto, cidr) ==> (tr_index_of(pre.remove(i), id, proto, cidr) >= 0
            <==> tr_index_of(pre, id, proto, cidr) >= 0) && (tr_index_of(pre, id, proto, cidr) >= 0
            ==> pre.remove(i)[tr_index_of(pre.remove(i), id, proto, cidr)] == pre[tr_index_of(
            pre,
            id,
            proto,
            cidr,
        )]),
{
    let post = pre.remove(i);
    pre.remove_ensures(i);
    lemma_tr_index_of(pre, id, proto, cidr);
    lemma_tr_index_of(post, id, proto, cidr);
    if tr_matches(&pre[i], id, proto, cidr) {
        assert forall|j: int| 0 <= j < post.len() implies !tr_matches(&(#[trigger] post[j]), id, proto, cidr) by {
            if j < i {
                assert(post[j] == pre[j]);
                if tr_matches(&pre[j], id, proto, cidr) {
                    lemma_keys_unique_at(pre, j, i);
                }
            } else {
                assert(post[j] == pre[j + 1]);
                if tr_matches(&pre[j + 1], id, proto, cidr) {
                    lemma_keys_unique_at(pre, j + 1, i);
                }
            }
        }
        if tr_index_of(post, id, proto, cidr) >= 0 {
            assert(tr_matches(&post[tr_index_of(post, id, proto, cidr)], id, proto, cidr));
        }
    } else {
        let rp = tr_index_of(pre, id, proto, cidr);
        let rq = tr_index_of(post, id, proto, cidr);
        if rp >= 0 {
            let jj: int = if rp < i {
                rp
            } else {
                rp - 1
            };
            assert(post[jj] == pre[rp]);
            if rq < 0 {
                assert(!tr_matches(&post[jj], id, proto, cidr));
            }
            assert(rq >= 0);
            let orig: int = if rq < i {
                rq
            } else {
                rq + 1
            };
            assert(post[rq] == pre[orig]);
            assert(tr_matches(&pre[orig], id, proto, cidr));
            if orig != rp {
                lemma_keys_unique_at(pre, orig, rp);
            }
        } else {
            if rq >= 0 {
                let orig: int = if rq < i {
                    rq
                } else {
                    rq + 1
                };
                assert(post[rq] == pre[orig]);
                assert(!tr_matches(&pre[orig], id, proto, cidr));
            }
        }
    }
}

/// The records left after taking one record out.
pub open spec fn minus(rs: Seq<PortRangeRecord>, rec: PortRangeRecord) -> Seq<PortRangeRecord>
    decreases rs.len(),
{
    if rs.len() == 0 {
        Seq::empty()
    } else if rs[0] == rec {
        minus(rs.drop_first(), rec)
    } else {
        seq![rs[0]] + minus(rs.drop_first(), rec)
    }
}

pub proof fn lemma_minus(rs: Seq<PortRangeRecord>, rec: PortRangeRecord)
    ensures
        forall|x: PortRangeRecord|
            #[trigger] minus(rs, rec).contains(x) == (rs.contains(x) && x != rec),
        recs_nodup(rs) ==> recs_nodup(minus(rs, rec)),
        recs_valid(rs) ==> recs_valid(minus(rs, rec)),
    decreases rs.len(),
{
    if rs.len() == 0 {
        assert(forall|x: PortRangeRecord| !rs.contains(x));
        assert(forall|x: PortRangeRecord| !minus(rs, rec).contains(x));
    } else {
        let rest = rs.drop_first();
        lemma_minus(rest, rec);
        assert(recs_nodup(rs) ==> recs_nodup(rest)) by {
            assert(forall|j: int| 0 <= j < rest.len() ==> rest[j] == rs[j + 1]);
        }
        assert(recs_valid(rs) ==> recs_valid(rest)) by {
            assert(forall|j: int| 0 <= j < rest.len() ==> rest[j] == rs[j + 1]);
        }
        assert forall|x: PortRangeRecord|
            #[trigger] rs.contains(x) == (x == rs[0] || rest.contains(x)) by {
            if rs.contains(x) {
                let j = choose|j: int| 0 <= j < rs.len() && rs[j] == x;
                if j > 0 {
                    assert(rest[j - 1] == x);
                }
            }
            if rest.contains(x) {
                let j = choose|j: int| 0 <= j < rest.len() && rest[j] == x;
                assert(rs[j + 1] == x);
            }
        }
        if rs[0] == rec {
            assert(minus(rs, rec) == minus(rest, rec));
            assert forall|x: PortRangeRecord|
                #[trigger] minus(rs, rec).contains(x) == (rs.contains(x) && x != rec) by {
                assert(minus(rest, rec).contains(x) == (rest.contains(x) && x != rec));
            }
        } else {
            let m = seq![rs[0]] + minus(rest, rec);
            assert(minus(rs, rec) == m);
            assert forall|x: PortRangeRecord|
                #[trigger] m.contains(x) == (x == rs[0] || minus(rest, rec).contains(x)) by {
                if m.contains(x) {
                    let j = choose|j: int| 0 <= j < m.len() && m[j] == x;
                    if j > 0 {
                        assert(minus(rest, rec)[j - 1] == x);
                    }
                }
                if minus(rest, rec).contains(x) {
                    let j = choose|j: int|
                        0 <= j < minus(rest, rec).len() && minus(rest, rec)[j] == x;
                    assert(m[j + 1] == x);
                }
                if x == rs[0] {
                    assert(m[0] == x);
                }
            }
            assert(recs_nodup(rs) ==> recs_nodup(m)) by {
                if recs_nodup(rs) {
                    assert forall|a: int, b: int| 0 <= a < b < m.len() implies (
                    #[trigger] m[a]) != (#[trigger] m[b]) by {
                        if a == 0 {
                            assert(m[b] == minus(rest, rec)[b - 1]);
                            assert(minus(rest, rec).contains(m[b]));
                            assert(rest.contains(m[b]));
                            if m[0] == m[b] {
                                let j = choose|j: int| 0 <= j < rest.len() && rest[j] == m[b];
                                assert(rs[j + 1] == rs[0]);
                            }
                        } else {
                            assert(m[a] == minus(rest, rec)[a - 1]);
                            assert(m[b] == minus(rest, rec)[b - 1]);
                        }
                    }
                }
            }
            assert(recs_valid(rs) ==> recs_valid(m)) by {
                if recs_valid(rs) {
                    assert forall|a: int| 0 <= a < m.len() implies valid_rec(#[trigger] m[a]) by {
                        assert(m.contains(m[a]));
                        assert(rs.contains(m[a]));
                        let j = choose|j: int| 0 <= j < rs.len() && rs[j] == m[a];
                    }
                }
            }
        }
    }
}

/// A sequence's image under the range projection keeps its multiset
/// across a permutation.
proof fn lemma_rec_ranges_multiset(a: Seq<PortRangeRecord>, b: Seq<PortRangeRecord>)
    requires
        a.to_multiset() == b.to_multiset(),
    ensures
        rec_ranges(a).to_multiset() == rec_ranges(b).to_multiset(),
    decreases a.len(),
{
    broadcast use vstd::seq_lib::group_to_multiset_ensures;

    if a.len() == 0 {
        assert(b.to_multiset().len() == 0);
        assert(b.len() == 0);
        assert(rec_ranges(a) =~= Seq::<(u16, u16)>::empty());
        assert(rec_ranges(b) =~= Seq::<(u16, u16)>::empty());
    } else {
        let x = a[0];
        assert(a.contains(x));
        assert(a.to_multiset().count(x) > 0);
        assert(b.to_multiset().count(x) > 0);
        assert(b.contains(x));
        let idx = choose|idx: int| 0 <= idx < b.len() && b[idx] == x;
        let a2 = a.drop_first();
        let b2 = b.remove(idx);
        assert(a2.to_multiset() =~= b2.to_multiset()) by {
            assert(a.remove(0) =~= a2);
            assert(a.remove(0).to_multiset() == a.to_multiset().remove(x));
            assert(b2.to_multiset() == b.to_multiset().remove(x));
        }
        lemma_rec_ranges_multiset(a2, b2);
        let f = |r: PortRangeRecord| (r.start, r.end);
        assert(rec_ranges(a).remove(0) =~= rec_ranges(a2));
        assert(rec_ranges(a).to_multiset() =~= rec_ranges(a2).to_multiset().insert(f(x))) by {
            assert(rec_ranges(a)[0] == f(x));
            assert(rec_ranges(a).remove(0).to_multiset() == rec_ranges(a).to_multiset().remove(
                f(x),
            ));
            assert(rec_ranges(a).contains(rec_ranges(a)[0]));
            assert(rec_ranges(a).to_multiset().count(f(x)) > 0);
        }
        assert(rec_ranges(b).remove(idx) =~= rec_ranges(b2));
        assert(rec_ranges(b).to_multiset() =~= rec_ranges(b2).to_multiset().insert(f(x))) by {
            assert(rec_ranges(b)[idx] == f(x));
            assert(rec_ranges(b).remove(idx).to_multiset() == rec_ranges(b).to_multiset().remove(
                f(x),
            ));
            assert(rec_ranges(b).contains(rec_ranges(b)[idx]));
            assert(rec_ranges(b).to_multiset().count(f(x)) > 0);
        }
    }
}

/// Duplicate-free record sets with the same members compile to the same
/// store contents: compilation sorts first, so only the set matters.
pub proof fn lemma_compile_same_set(a: Seq<PortRangeRecord>, b: Seq<PortRangeRecord>)
    requires
        recs_nodup(a),
        recs_nodup(b),
        forall|x: PortRangeRecord| #[trigger] a.contains(x) == b.contains(x),
    ensures
        spec_compile(rec_ranges(a)) == spec_compile(rec_ranges(b)),
{
    broadcast use vstd::seq_lib::group_to_multiset_ensures;

    assert(a.to_multiset() =~= b.to_multiset()) by {
        assert(a.no_duplicates()) by {
            assert(forall|i: int, j: int|
                0 <= i < a.len() && 0 <= j < a.len() && i != j ==> (#[trigger] a[i]) != (
                #[trigger] a[j])) by {
                assert forall|i: int, j: int|
                    0 <= i < a.len() && 0 <= j < a.len() && i != j implies (#[trigger] a[i]) != (
                #[trigger] a[j]) by {
                    if i < j {
                    } else {
                        assert(a[j] != a[i]);
                    }
                }
            }
        }
        assert(b.no_duplicates()) by {
            assert forall|i: int, j: int|
                0 <= i < b.len() && 0 <= j < b.len() && i != j implies (#[trigger] b[i]) != (
            #[trigger] b[j]) by {
                if i < j {
                } else {
                    assert(b[j] != b[i]);
                }
            }
        }
        a.lemma_multiset_has_no_duplicates();
        b.lemma_multiset_has_no_duplicates();
        assert forall|x: PortRangeRecord|
            #[trigger] a.to_multiset().count(x) == b.to_multiset().count(x) by {
            if a.contains(x) {
                assert(a.to_multiset().count(x) == 1);
                assert(b.to_multiset().count(x) == 1);
            } else {
                assert(a.to_multiset().count(x) == 0);
                assert(b.to_multiset().count(x) == 0);
            }
        }
    }
    lemma_rec_ranges_multiset(a, b);
    let ra = rec_ranges(a);
    let rb = rec_ranges(b);
    crate::resolve::lemma_sort_eq_of_multiset(ra, rb);
}

/// A key a removal touches: same group and protocol, CIDR within the
/// rule's destination, record present.
pub open spec fn r_affected(
    e: &RuleEntry,
    id: u128,
    proto: u8,
    dest: Cidr,
    rec: PortRangeRecord,
) -> bool {
    e.id == id && e.proto == proto && dest.contains_spec(&e.cidr) && e.records@.contains(rec)
}

/// Removal would empty the key: nothing but the record is attached.
pub open spec fn r_empties(e: &RuleEntry, rec: PortRangeRecord) -> bool {
    forall|x: PortRangeRecord| #[trigger] e.records@.contains(x) ==> x == rec
}

/// The remaining set still compiles for every touched key that stays.
pub open spec fn remove_fits(
    s: Seq<RuleEntry>,
    id: u128,
    proto: u8,
    dest: Cidr,
    rec: PortRangeRecord,
) -> bool {
    forall|i: int|
        0 <= i < s.len() && r_affected(&(#[trigger] s[i]), id, proto, dest, rec) && !r_empties(
            &s[i],
            rec,
        ) ==> spec_compile(rec_ranges(minus(s[i].records@, rec))).len() <= MAX_RANGES
}

/// One step of a removal's apply phase: the key's index, and the
/// remaining records with their compiled store if the key stays.
struct RmItem {
    idx: usize,
    keep: Option<(Vec<PortRangeRecord>, RuleStore)>,
}

impl RuleTracker {
    /// Withdraws one concrete record under one protocol: validates every
    /// key the removal would shrink, and only on success rewrites or
    /// drops the touched keys and their compiled stores.  On failure
    /// neither the tracker nor the table changes.
    fn remove_one(
        &mut self,
        store: &mut LpmStore,
        id: u128,
        proto: u8,
        dest: Cidr,
        rec: PortRangeRecord,
    ) -> (r: Result<(), FirewallError>)
        requires
            old(self).inv(old(store)),
            concrete_proto(proto),
            dest.wf(),
            dest.is_norm(),
            rec.origin == dest,
        ensures
            final(self).inv(final(store)),
            r is Err ==> final(self).entries() == old(self).entries() && final(store).entries()
                == old(store).entries() && r == Err::<(), FirewallError>(
                FirewallError::RuleEntry(RuleStoreError::Exhausted),
            ) && !remove_fits(old(self).entries(), id, proto, dest, rec),
            r is Ok ==> remove_fits(old(self).entries(), id, proto, dest, rec),
            r is Ok ==> forall|id2: u128, p2: u8, c2: Cidr|
                #[trigger] final(self).spec_has_key(id2, p2, c2) == ({
                    let pk = tr_index_of(old(self).entries(), id2, p2, c2);
                    pk >= 0 && !(r_affected(&old(self).entries()[pk], id, proto, dest, rec)
                        && r_empties(&old(self).entries()[pk], rec))
                }),
            r is Ok ==> forall|id2: u128, p2: u8, c2: Cidr, x: PortRangeRecord|
                #[trigger] final(self).spec_member(id2, p2, c2, x) == ({
                    let pk = tr_index_of(old(self).entries(), id2, p2, c2);
                    pk >= 0 && old(self).entries()[pk].records@.contains(x) && !(x == rec
                        && r_affected(&old(self).entries()[pk], id, proto, dest, rec))
                }),
            // the same two clauses again over the raw indexing
            // vocabulary, for composing the two protocol passes
            r is Ok ==> forall|id2: u128, p2: u8, c2: Cidr|
                ((#[trigger] tr_index_of(final(self).entries(), id2, p2, c2)) >= 0) == ({
                    let pk = tr_index_of(old(self).entries(), id2, p2, c2);
                    pk >= 0 && !(r_affected(&old(self).entries()[pk], id, proto, dest, rec)
                        && r_empties(&old(self).entries()[pk], rec))
                }),
            r is Ok ==> forall|id2: u128, p2: u8, c2: Cidr, x: PortRangeRecord|
                #[trigger] cur_mem(final(self).entries(), id2, p2, c2, x) == ({
                    let pk = tr_index_of(old(self).entries(), id2, p2, c2);
                    pk >= 0 && old(self).entries()[pk].records@.contains(x) && !(x == rec
                        && r_affected(&old(self).entries()[pk], id, proto, dest, rec))
                }),
    {
        let ghost olds = self.entries();
        let ghost oldlpm = store.entries();
        // plan: every touched key, ascending, with its remaining records
        let mut plan: Vec<RmItem> = Vec::new();
        let mut i: usize = 0;
        while i < self.rule_map.len()
            invariant
                olds == self.entries(),
                oldlpm == store.entries(),
                self.inv(store),
                dest.wf(),
                dest.is_norm(),
                rec.origin == dest,
                i <= olds.len(),
                forall|kk: int|
                    0 <= kk < plan@.len() ==> (#[trigger] plan@[kk]).idx < i && r_affected(
                        &olds[plan@[kk].idx as int],
                        id,
                        proto,
                        dest,
                        rec,
                    ),
                forall|k1: int, k2: int|
                    0 <= k1 < k2 < plan@.len() ==> (#[trigger] plan@[k1]).idx < (
                    #[trigger] plan@[k2]).idx,
                forall|j: int|
                    0 <= j < i && r_affected(&(#[trigger] olds[j]), id, proto, dest, rec)
                        ==> exists|kk: int| 0 <= kk < plan@.len() && (#[trigger] plan@[kk]).idx == j,
                forall|kk: int|
                    0 <= kk < plan@.len() ==> match (#[trigger] plan@[kk]).keep {
                        Some(pair) => {
                            &&& !r_empties(&olds[plan@[kk].idx as int], rec)
                            &&& recs_nodup(pair.0@)
                            &&& recs_valid(pair.0@)
                            &&& pair.0@.len() > 0
                            &&& forall|x: PortRangeRecord|
                                #[trigger] pair.0@.contains(x) == (olds[plan@[kk].idx as int].records@.contains(
                                    x,
                                ) && x != rec)
                            &&& pair.1.wf()
                            &&& pair.1.ranges() == spec_compile(rec_ranges(pair.0@))
                            &&& spec_compile(rec_ranges(pair.0@)).len() <= MAX_RANGES
                        },
                        None => r_empties(&olds[plan@[kk].idx as int], rec),
                    },
            decreases olds.len() - i,
        {
            let e = &self.rule_map[i];
            proof {
                assert(entry_wf(&olds[i as int]));
            }
            if e.id == id && e.proto == proto && dest.contains(&e.cidr) && rec_in(&e.records, &rec) {
                let mut cand = copy_recs(&e.records);
                rec_remove(&mut cand, &rec);
                let ghost prevplan = plan@;
                if cand.len() == 0 {
                    proof {
                        assert(r_empties(&olds[i as int], rec)) by {
                            assert forall|x: PortRangeRecord|
                                #[trigger] olds[i as int].records@.contains(x) implies x == rec by {
                                if x != rec {
                                    assert(cand@.contains(x));
                                }
                            }
                        }
                    }
                    plan.push(RmItem { idx: i, keep: None });
                } else {
                    proof {
                        assert(!r_empties(&olds[i as int], rec)) by {
                            assert(cand@.contains(cand@[0]));
                            assert(olds[i as int].records@.contains(cand@[0]) && cand@[0] != rec);
                        }
                        lemma_minus(olds[i as int].records@, rec);
                        lemma_compile_same_set(cand@, minus(olds[i as int].records@, rec));
                    }
                    match compile_records(&cand) {
                        Ok(st) => {
                            plan.push(RmItem { idx: i, keep: Some((cand, st)) });
                        },
                        Err(er) => {
                            proof {
                                assert(!remove_fits(olds, id, proto, dest, rec));
                            }
                            return Err(er);
                        },
                    }
                }
                proof {
                    assert(plan@ == prevplan.push(plan@[plan@.len() - 1]));
                    assert forall|j: int|
                        0 <= j < i + 1 && r_affected(&(#[trigger] olds[j]), id, proto, dest, rec)
                            implies exists|kk: int|
                            0 <= kk < plan@.len() && (#[trigger] plan@[kk]).idx == j by {
                        if j < i {
                            let kk = choose|kk: int|
                                0 <= kk < prevplan.len() && (#[trigger] prevplan[kk]).idx == j;
                            assert(plan@[kk].idx == j);
                        } else {
                            assert(plan@[plan@.len() - 1].idx == j);
                        }
                    }
                }
            } else {
                proof {
                    assert(!r_affected(&olds[i as int], id, proto, dest, rec));
                    assert forall|j: int|
                        0 <= j < i + 1 && r_affected(&(#[trigger] olds[j]), id, proto, dest, rec)
                            implies exists|kk: int|
                            0 <= kk < plan@.len() && (#[trigger] plan@[kk]).idx == j by {
                        if j < i {
                            let kk = choose|kk: int|
                                0 <= kk < plan@.len() && (#[trigger] plan@[kk]).idx == j;
                        }
                    }
                }
            }
            i = i + 1;
        }
        proof {
            assert(remove_fits(olds, id, proto, dest, rec)) by {
                assert forall|j: int|
                    0 <= j < olds.len() && r_affected(&(#[trigger] olds[j]), id, proto, dest, rec)
                        && !r_empties(&olds[j], rec) implies spec_compile(
                    rec_ranges(minus(olds[j].records@, rec)),
                ).len() <= MAX_RANGES by {
                    let kk = choose|kk: int|
                        0 <= kk < plan@.len() && (#[trigger] plan@[kk]).idx == j;
                    match plan@[kk].keep {
                        Some(pair) => {
                            lemma_minus(olds[j].records@, rec);
                            lemma_compile_same_set(pair.0@, minus(olds[j].records@, rec));
                        },
                        None => {},
                    }
                }
            }
        }
        let ghost fullplan = plan@;
        proof {
            // before anything is applied the boundary covers every plan slot
            let b0: int = if plan@.len() == 0 {
                -1
            } else {
                fullplan[plan@.len() - 1].idx as int
            };
            assert(plan@ =~= fullplan.take(plan@.len() as int));
            assert forall|id2: u128, p2: u8, c2: Cidr|
                ((#[trigger] tr_index_of(self.entries(), id2, p2, c2)) >= 0) == ({
                    let pk = tr_index_of(olds, id2, p2, c2);
                    pk >= 0 && !(pk > b0 && r_affected(&olds[pk], id, proto, dest, rec)
                        && r_empties(&olds[pk], rec))
                }) by {
                let pk = tr_index_of(olds, id2, p2, c2);
                lemma_tr_index_of(olds, id2, p2, c2);
                if pk >= 0 && pk > b0 && r_affected(&olds[pk], id, proto, dest, rec) {
                    let kk = choose|kk: int|
                        0 <= kk < fullplan.len() && (#[trigger] fullplan[kk]).idx == pk;
                    if kk < fullplan.len() - 1 {
                        assert(fullplan[kk].idx < fullplan[fullplan.len() - 1].idx);
                    }
                    assert(pk <= b0);
                }
            }
            assert forall|id2: u128, p2: u8, c2: Cidr, x: PortRangeRecord|
                #[trigger] cur_mem(self.entries(), id2, p2, c2, x) == ({
                    let pk = tr_index_of(olds, id2, p2, c2);
                    pk >= 0 && olds[pk].records@.contains(x) && !(x == rec && pk > b0
                        && r_affected(&olds[pk], id, proto, dest, rec))
                }) by {
                let pk = tr_index_of(olds, id2, p2, c2);
                lemma_tr_index_of(olds, id2, p2, c2);
                if pk >= 0 && pk > b0 && r_affected(&olds[pk], id, proto, dest, rec) {
                    let kk = choose|kk: int|
                        0 <= kk < fullplan.len() && (#[trigger] fullplan[kk]).idx == pk;
                    if kk < fullplan.len() - 1 {
                        assert(fullplan[kk].idx < fullplan[fullplan.len() - 1].idx);
                    }
                    assert(pk <= b0);
                }
            }
        }
        // apply, from the highest index down
        while plan.len() > 0
            invariant
                dest.wf(),
                dest.is_norm(),
                rec.origin == dest,
                concrete_proto(proto),
                entries_wf(olds),
                entries_monotone(olds),
                plan@ == fullplan.take(plan@.len() as int),
                plan@.len() <= fullplan.len(),
                forall|kk: int|
                    0 <= kk < fullplan.len() ==> (#[trigger] fullplan[kk]).idx < olds.len()
                        && r_affected(&olds[fullplan[kk].idx as int], id, proto, dest, rec),
                forall|k1: int, k2: int|
                    0 <= k1 < k2 < fullplan.len() ==> (#[trigger] fullplan[k1]).idx < (
                    #[trigger] fullplan[k2]).idx,
                forall|j: int|
                    0 <= j < olds.len() && r_affected(&(#[trigger] olds[j]), id, proto, dest, rec)
                        ==> exists|kk: int|
                        0 <= kk < fullplan.len() && (#[trigger] fullplan[kk]).idx == j,
                forall|kk: int|
                    0 <= kk < fullplan.len() ==> match (#[trigger] fullplan[kk]).keep {
                        Some(pair) => {
                            &&& !r_empties(&olds[fullplan[kk].idx as int], rec)
                            &&& recs_nodup(pair.0@)
                            &&& recs_valid(pair.0@)
                            &&& pair.0@.len() > 0
                            &&& forall|x: PortRangeRecord|
                                #[trigger] pair.0@.contains(x) == (olds[fullplan[kk].idx as int].records@.contains(
                                    x,
                                ) && x != rec)
                            &&& pair.1.wf()
                            &&& pair.1.ranges() == spec_compile(rec_ranges(pair.0@))
                        },
                        None => r_empties(&olds[fullplan[kk].idx as int], rec),
                    },
                self.wf(),
                store.wf(),
                self.paired(store),
                ({
                    let b: int = if plan@.len() == 0 {
                        -1
                    } else {
                        fullplan[plan@.len() - 1].idx as int
                    };
                    &&& (forall|x: int| 0 <= x <= b ==> x < self.entries().len() && #[trigger] self.entries()[x] == olds[x])
                    &&& rm_has_ok(olds, self.entries(), b, id, proto, dest, rec)
                    &&& rm_mem_ok(olds, self.entries(), b, id, proto, dest, rec)
                }),
            decreases plan@.len(),
        {
            let ghost prevs = self.entries();
            let ghost prevlpm = store.entries();
            let ghost prevplanlen = plan@.len() as int;
            let ghost b_pre: int = fullplan[prevplanlen - 1].idx as int;
            let item = match plan.pop() {
                Some(it) => it,
                None => {
                    proof {
                        assert(false);
                    }
                    RmItem { idx: 0, keep: None }
                },
            };
            let idx = item.idx;
            proof {
                assert(item == fullplan[prevplanlen - 1]);
                assert(plan@ =~= fullplan.take(plan@.len() as int));
                assert(idx == b_pre);
                assert(prevs[idx as int] == olds[idx as int]);
                assert(idx < prevs.len());
            }
            let e = self.rule_map.remove(idx);
            let ghost key_id = e.id;
            let ghost key_proto = e.proto;
            let ghost key_cidr = e.cidr;
            match item.keep {
                Some((recs, st)) => {
                    let ghost recsg = recs@;
                    let ghost stg = st;
                    let e2 = RuleEntry { id: e.id, proto: e.proto, cidr: e.cidr, records: recs };
                    self.rule_map.insert(idx, e2);
                    proof {
                        assert(self.entries() =~= prevs.update(idx as int, self.entries()[idx as int]));
                        // the mirror row sits at the same index
                        crate::lpm::lemma_index_of(prevlpm, key_id, key_proto, key_cidr);
                        let jj = crate::lpm::index_of(prevlpm, key_id, key_proto, key_cidr);
                        assert(crate::lpm::entry_matches(prevlpm[idx as int], key_id, key_proto, key_cidr));
                        assert(jj >= 0);
                        assert(crate::lpm::entry_matches(prevlpm[jj], key_id, key_proto, key_cidr));
                        if jj != idx {
                            assert(prevs[jj].id == prevlpm[jj].id && prevs[jj].proto == prevlpm[jj].proto
                                && prevs[jj].cidr == prevlpm[jj].cidr);
                            lemma_keys_unique_at(prevs, jj, idx as int);
                        }
                        assert(jj == idx);
                    }
                    let gi = store.insert(e.id, e.proto, e.cidr, st);
                    proof {
                        lemma_rm_step_common(
                            olds,
                            prevs,
                            self.entries(),
                            prevlpm,
                            store.entries(),
                            fullplan,
                            prevplanlen,
                            id,
                            proto,
                            dest,
                            rec,
                            idx as int,
                            Some((recsg, stg)),
                        );
                    }
                },
                None => {
                    proof {
                        crate::lpm::lemma_index_of(prevlpm, key_id, key_proto, key_cidr);
                        let jj = crate::lpm::index_of(prevlpm, key_id, key_proto, key_cidr);
                        assert(crate::lpm::entry_matches(prevlpm[idx as int], key_id, key_proto, key_cidr));
                        assert(jj >= 0);
                        assert(crate::lpm::entry_matches(prevlpm[jj], key_id, key_proto, key_cidr));
                        if jj != idx {
                            assert(prevs[jj].id == prevlpm[jj].id && prevs[jj].proto == prevlpm[jj].proto
                                && prevs[jj].cidr == prevlpm[jj].cidr);
                            lemma_keys_unique_at(prevs, jj, idx as int);
                        }
                        assert(jj == idx);
                    }
                    let gi = store.remove(e.id, e.proto, &e.cidr);
                    proof {
                        lemma_rm_step_common(
                            olds,
                            prevs,
                            self.entries(),
                            prevlpm,
                            store.entries(),
                            fullplan,
                            prevplanlen,
                            id,
                            proto,
                            dest,
                            rec,
                            idx as int,
                            None,
                        );
                    }
                },
            }
        }
        proof {
            let news = self.entries();
            lemma_remove_final(olds, news, id, proto, dest, rec);
            assert forall|id2: u128, p2: u8, c2: Cidr|
                #[trigger] self.spec_has_key(id2, p2, c2) == ({
                    let pk = tr_index_of(olds, id2, p2, c2);
                    pk >= 0 && !(r_affected(&olds[pk], id, proto, dest, rec) && r_empties(
                        &olds[pk],
                        rec,
                    ))
                }) by {
                assert(((tr_index_of(news, id2, p2, c2)) >= 0) == ({
                    let pk = tr_index_of(olds, id2, p2, c2);
                    pk >= 0 && !(pk > -1 && r_affected(&olds[pk], id, proto, dest, rec)
                        && r_empties(&olds[pk], rec))
                }));
            }
            assert forall|id2: u128, p2: u8, c2: Cidr, x: PortRangeRecord|
                #[trigger] self.spec_member(id2, p2, c2, x) == ({
                    let pk = tr_index_of(olds, id2, p2, c2);
                    pk >= 0 && olds[pk].records@.contains(x) && !(x == rec && r_affected(
                        &olds[pk],
                        id,
                        proto,
                        dest,
                        rec,
                    ))
                }) by {
                assert(cur_mem(news, id2, p2, c2, x) == ({
                    let pk = tr_index_of(olds, id2, p2, c2);
                    pk >= 0 && olds[pk].records@.contains(x) && !(x == rec && pk > -1
                        && r_affected(&olds[pk], id, proto, dest, rec))
                }));
                if tr_index_of(news, id2, p2, c2) < 0 {
                    assert(self.records_at(id2, p2, c2) =~= Seq::<PortRangeRecord>::empty());
                    assert(!self.spec_member(id2, p2, c2, x));
                }
            }
        }
        Ok(())
    }
}

/// A key is present in a row sequence with this record attached.
pub open spec fn cur_mem(
    cur: Seq<RuleEntry>,
    id2: u128,
    p2: u8,
    c2: Cidr,
    x: PortRangeRecord,
) -> bool {
    tr_index_of(cur, id2, p2, c2) >= 0 && cur[tr_index_of(cur, id2, p2, c2)].records@.contains(x)
}

/// The map-level description the removal loop maintains: rows up to the
/// boundary untouched, keys beyond it already shrunk or dropped.
spec fn rm_has_ok(olds: Seq<RuleEntry>, cur: Seq<RuleEntry>, b: int, id: u128, proto: u8, dest: Cidr, rec: PortRangeRecord) -> bool {
    forall|id2: u128, p2: u8, c2: Cidr|
        ((#[trigger] tr_index_of(cur, id2, p2, c2)) >= 0) == ({
            let pk = tr_index_of(olds, id2, p2, c2);
            pk >= 0 && !(pk > b && r_affected(&olds[pk], id, proto, dest, rec) && r_empties(
                &olds[pk],
                rec,
            ))
        })
}

spec fn rm_mem_ok(olds: Seq<RuleEntry>, cur: Seq<RuleEntry>, b: int, id: u128, proto: u8, dest: Cidr, rec: PortRangeRecord) -> bool {
    forall|id2: u128, p2: u8, c2: Cidr, x: PortRangeRecord|
        #[trigger] cur_mem(cur, id2, p2, c2, x) == ({
            let pk = tr_index_of(olds, id2, p2, c2);
            pk >= 0 && olds[pk].records@.contains(x) && !(x == rec && pk > b && r_affected(
                &olds[pk],
                id,
                proto,
                dest,
                rec,
            ))
        })
}

/// An affected index outside the remaining plan's range is impossible
/// strictly between the two boundaries.
proof fn lemma_rm_gap(
    olds: Seq<RuleEntry>,
    fullplan: Seq<RmItem>,
    id: u128,
    proto: u8,
    dest: Cidr,
    rec: PortRangeRecord,
    planlen: int,
    pk: int,
)
    requires
        1 <= planlen <= fullplan.len(),
        forall|k1: int, k2: int|
            0 <= k1 < k2 < fullplan.len() ==> (#[trigger] fullplan[k1]).idx < (
            #[trigger] fullplan[k2]).idx,
        forall|j: int|
            0 <= j < olds.len() && r_affected(&(#[trigger] olds[j]), id, proto, dest, rec)
                ==> exists|kk: int| 0 <= kk < fullplan.len() && (#[trigger] fullplan[kk]).idx == j,
        0 <= pk < olds.len(),
        (if planlen == 1 {
            -1int
        } else {
            fullplan[planlen - 2].idx as int
        }) < pk < fullplan[planlen - 1].idx,
    ensures
        !r_affected(&olds[pk], id, proto, dest, rec),
{
    if r_affected(&olds[pk], id, proto, dest, rec) {
        let kk = choose|kk: int|
            0 <= kk < fullplan.len() && (#[trigger] fullplan[kk]).idx == pk;
        if kk <= planlen - 2 {
            if kk < planlen - 2 {
                assert(fullplan[kk].idx < fullplan[planlen - 2].idx);
            }
        } else {
            if kk > planlen - 1 {
                assert(fullplan[planlen - 1].idx < fullplan[kk].idx);
            }
        }
    }
}

/// A row's own key indexes to itself.
proof fn lemma_tr_self_index(s: Seq<RuleEntry>, i: int)
    requires
        keys_unique(s),
        0 <= i < s.len(),
    ensures
        tr_index_of(s, s[i].id, s[i].proto, s[i].cidr) == i,
{
    lemma_tr_index_of(s, s[i].id, s[i].proto, s[i].cidr);
    let r = tr_index_of(s, s[i].id, s[i].proto, s[i].cidr);
    assert(tr_matches(&s[i], s[i].id, s[i].proto, s[i].cidr));
    if r < 0 {
        assert(!tr_matches(&s[i], s[i].id, s[i].proto, s[i].cidr));
    }
    if r != i {
        lemma_keys_unique_at(s, r, i);
    }
}

/// At the end of the removal the inheritance discipline holds again.
proof fn lemma_remove_final(
    olds: Seq<RuleEntry>,
    news: Seq<RuleEntry>,
    id: u128,
    proto: u8,
    dest: Cidr,
    rec: PortRangeRecord,
)
    requires
        entries_wf(olds),
        entries_monotone(olds),
        entries_wf(news),
        rec.origin == dest,
        rm_has_ok(olds, news, -1, id, proto, dest, rec),
        rm_mem_ok(olds, news, -1, id, proto, dest, rec),
    ensures
        entries_monotone(news),
{
    assert forall|i: int, j: int, r: PortRangeRecord|
        0 <= i < news.len() && 0 <= j < news.len() && i != j && news[i].id == news[j].id
            && news[i].proto == news[j].proto && news[i].cidr.contains_spec(&news[j].cidr) && (
    #[trigger] news[i].records@.contains(r)) implies #[trigger] news[j].records@.contains(r) by {
        lemma_tr_self_index(news, i);
        lemma_tr_self_index(news, j);
        let ki = (news[i].id, news[i].proto, news[i].cidr);
        let pki = tr_index_of(olds, news[i].id, news[i].proto, news[i].cidr);
        let pkj = tr_index_of(olds, news[j].id, news[j].proto, news[j].cidr);
        assert(cur_mem(news, news[i].id, news[i].proto, news[i].cidr, r));
        assert(pki >= 0 && olds[pki].records@.contains(r) && !(r == rec && pki > -1
            && r_affected(&olds[pki], id, proto, dest, rec)));
        assert(tr_index_of(news, news[j].id, news[j].proto, news[j].cidr) >= 0);
        assert(pkj >= 0);
        lemma_tr_index_of(olds, news[i].id, news[i].proto, news[i].cidr);
        lemma_tr_index_of(olds, news[j].id, news[j].proto, news[j].cidr);
        assert(olds[pki].id == news[i].id && olds[pki].proto == news[i].proto && olds[pki].cidr
            == news[i].cidr);
        assert(olds[pkj].id == news[j].id && olds[pkj].proto == news[j].proto && olds[pkj].cidr
            == news[j].cidr);
        assert(olds[pkj].records@.contains(r)) by {
            if pki != pkj {
                lemma_monotone_at(olds, pki, pkj, r);
            }
        }
        assert(!(r == rec && r_affected(&olds[pkj], id, proto, dest, rec))) by {
            if r == rec && r_affected(&olds[pkj], id, proto, dest, rec) {
                // the record's origin contains the source row, so that row
                // was touched too and lost the record
                assert(olds[pkj].id == id && olds[pkj].proto == proto);
                assert(olds[pki].records@.contains(rec));
                assert(entry_wf(&olds[pki]));
                let a = choose|a: int|
                    0 <= a < olds[pki].records@.len() && olds[pki].records@[a] == rec;
                assert(olds[pki].records@[a].origin.contains_spec(&olds[pki].cidr));
                assert(dest.contains_spec(&olds[pki].cidr));
                assert(r_affected(&olds[pki], id, proto, dest, rec));
            }
        }
        assert(news[j].records@.contains(r)) by {
            assert(cur_mem(news, news[j].id, news[j].proto, news[j].cidr, r) == ({
                let pk = tr_index_of(olds, news[j].id, news[j].proto, news[j].cidr);
                pk >= 0 && olds[pk].records@.contains(r) && !(r == rec && pk > -1 && r_affected(
                    &olds[pk],
                    id,
                    proto,
                    dest,
                    rec,
                ))
            }));
        }
    }
}

/// One step of the removal's apply phase, seen at the map level: the
/// processed key is shrunk or dropped, everything else keeps its row,
/// and the boundary moves down one plan slot.
proof fn lemma_rm_step_common(
    olds: Seq<RuleEntry>,
    prevs: Seq<RuleEntry>,
    news: Seq<RuleEntry>,
    prevlpm: Seq<crate::lpm::LpmEntry>,
    newlpm: Seq<crate::lpm::LpmEntry>,
    fullplan: Seq<RmItem>,
    planlen: int,
    id: u128,
    proto: u8,
    dest: Cidr,
    rec: PortRangeRecord,
    idx: int,
    keep: Option<(Seq<PortRangeRecord>, RuleStore)>,
)
    requires
        entries_wf(olds),
        rec.origin == dest,
        dest.wf(),
        dest.is_norm(),
        1 <= planlen <= fullplan.len(),
        forall|kk: int|
            0 <= kk < fullplan.len() ==> (#[trigger] fullplan[kk]).idx < olds.len() && r_affected(
                &olds[fullplan[kk].idx as int],
                id,
                proto,
                dest,
                rec,
            ),
        forall|k1: int, k2: int|
            0 <= k1 < k2 < fullplan.len() ==> (#[trigger] fullplan[k1]).idx < (
            #[trigger] fullplan[k2]).idx,
        forall|j: int|
            0 <= j < olds.len() && r_affected(&(#[trigger] olds[j]), id, proto, dest, rec)
                ==> exists|kk: int| 0 <= kk < fullplan.len() && (#[trigger] fullplan[kk]).idx == j,
        idx == fullplan[planlen - 1].idx,
        entries_wf(prevs),
        prevlpm.len() == prevs.len(),
        forall|x: int|
            0 <= x < prevs.len() ==> (#[trigger] prevlpm[x]).id == prevs[x].id && prevlpm[x].proto
                == prevs[x].proto && prevlpm[x].cidr == prevs[x].cidr && prevlpm[x].store.ranges()
                == spec_compile(rec_ranges(prevs[x].records@)),
        forall|x: int| 0 <= x <= idx ==> x < prevs.len() && #[trigger] prevs[x] == olds[x],
        rm_has_ok(olds, prevs, idx, id, proto, dest, rec),
        rm_mem_ok(olds, prevs, idx, id, proto, dest, rec),
        match keep {
            Some(pair) => {
                &&& !r_empties(&olds[idx], rec)
                &&& recs_nodup(pair.0)
                &&& recs_valid(pair.0)
                &&& pair.0.len() > 0
                &&& (forall|x: PortRangeRecord|
                    #[trigger] pair.0.contains(x) == (olds[idx].records@.contains(x) && x != rec))
                &&& pair.1.wf()
                &&& pair.1.ranges() == spec_compile(rec_ranges(pair.0))
                &&& spec_compile(rec_ranges(pair.0)).len() <= MAX_RANGES
                &&& news.len() == prevs.len()
                &&& (forall|x: int| 0 <= x < news.len() && x != idx ==> #[trigger] news[x] == prevs[x])
                &&& news[idx].id == prevs[idx].id
                &&& news[idx].proto == prevs[idx].proto
                &&& news[idx].cidr == prevs[idx].cidr
                &&& news[idx].records@ == pair.0
                &&& newlpm == prevlpm.update(
                    idx,
                    crate::lpm::LpmEntry {
                        id: prevs[idx].id,
                        proto: prevs[idx].proto,
                        cidr: prevs[idx].cidr,
                        store: pair.1,
                    },
                )
            },
            None => {
                &&& r_empties(&olds[idx], rec)
                &&& news == prevs.remove(idx)
                &&& newlpm == prevlpm.remove(idx)
            },
        },
    ensures
        entries_wf(news),
        newlpm.len() == news.len(),
        forall|x: int|
            0 <= x < news.len() ==> (#[trigger] newlpm[x]).id == news[x].id && newlpm[x].proto
                == news[x].proto && newlpm[x].cidr == news[x].cidr && newlpm[x].store.ranges()
                == spec_compile(rec_ranges(news[x].records@)),
        ({
            let b2: int = if planlen == 1 {
                -1
            } else {
                fullplan[planlen - 2].idx as int
            };
            &&& (forall|x: int| 0 <= x <= b2 ==> x < news.len() && #[trigger] news[x] == olds[x])
            &&& rm_has_ok(olds, news, b2, id, proto, dest, rec)
            &&& rm_mem_ok(olds, news, b2, id, proto, dest, rec)
        }),
{
    let b2: int = if planlen == 1 {
        -1
    } else {
        fullplan[planlen - 2].idx as int
    };
    assert(b2 < idx) by {
        if planlen > 1 {
            assert(fullplan[planlen - 2].idx < fullplan[planlen - 1].idx);
        }
    }
    assert(0 <= idx < prevs.len());
    assert(prevs[idx] == olds[idx]);
    let kid = olds[idx].id;
    let kproto = olds[idx].proto;
    let kcidr = olds[idx].cidr;
    lemma_tr_self_index(prevs, idx);
    match keep {
        Some(pair) => {
            // every row keeps its key
            assert(entries_wf(news)) by {
                assert(keys_unique(news)) by {
                    assert forall|a: int, b: int| 0 <= a < b < news.len() implies !((
                    #[trigger] news[a]).id == (#[trigger] news[b]).id && news[a].proto
                        == news[b].proto && news[a].cidr == news[b].cidr) by {
                        assert(news[a].id == prevs[a].id && news[a].proto == prevs[a].proto
                            && news[a].cidr == prevs[a].cidr);
                        assert(news[b].id == prevs[b].id && news[b].proto == prevs[b].proto
                            && news[b].cidr == prevs[b].cidr);
                    }
                }
                assert forall|x: int| 0 <= x < news.len() implies entry_wf(&(#[trigger] news[x]))
                    by {
                    if x != idx {
                        assert(news[x] == prevs[x]);
                        assert(entry_wf(&prevs[x]));
                    } else {
                        assert(entry_wf(&olds[idx]));
                        assert forall|a: int| 0 <= a < news[x].records@.len() implies (
                        #[trigger] news[x].records@[a]).origin.contains_spec(&news[x].cidr) by {
                            let r = news[x].records@[a];
                            assert(news[x].records@.contains(r));
                            assert(olds[idx].records@.contains(r));
                            let c = choose|c: int|
                                0 <= c < olds[idx].records@.len() && olds[idx].records@[c] == r;
                            assert(olds[idx].records@[c].origin.contains_spec(&olds[idx].cidr));
                        }
                        assert(news[x].records@.len() > 0);
                        assert(recs_nodup(news[x].records@));
                        assert(recs_valid(news[x].records@));
                    }
                }
            }
            // mirror alignment
            assert forall|x: int|
                0 <= x < news.len() implies (#[trigger] newlpm[x]).id == news[x].id
                && newlpm[x].proto == news[x].proto && newlpm[x].cidr == news[x].cidr
                && newlpm[x].store.ranges() == spec_compile(rec_ranges(news[x].records@)) by {
                if x != idx {
                    assert(newlpm[x] == prevlpm[x]);
                    assert(news[x] == prevs[x]);
                }
            }
            // prefix below the new boundary
            assert(forall|x: int| 0 <= x <= b2 ==> x < news.len() && #[trigger] news[x] == olds[x]);
            // key presence
            assert forall|id2: u128, p2: u8, c2: Cidr|
                ((#[trigger] tr_index_of(news, id2, p2, c2)) >= 0) == ({
                    let pk = tr_index_of(olds, id2, p2, c2);
                    pk >= 0 && !(pk > b2 && r_affected(&olds[pk], id, proto, dest, rec)
                        && r_empties(&olds[pk], rec))
                }) by {
                lemma_tr_index_same_keys(prevs, news, id2, p2, c2);
                assert((tr_index_of(prevs, id2, p2, c2) >= 0) == ({
                    let pk = tr_index_of(olds, id2, p2, c2);
                    pk >= 0 && !(pk > idx && r_affected(&olds[pk], id, proto, dest, rec)
                        && r_empties(&olds[pk], rec))
                }));
                let pk = tr_index_of(olds, id2, p2, c2);
                if pk >= 0 && b2 < pk && pk < idx {
                    lemma_rm_gap(olds, fullplan, id, proto, dest, rec, planlen, pk);
                }
                if pk == idx {
                    assert(!r_empties(&olds[idx], rec));
                }
            }
            // membership
            assert forall|id2: u128, p2: u8, c2: Cidr, x: PortRangeRecord|
                #[trigger] cur_mem(news, id2, p2, c2, x) == ({
                    let pk = tr_index_of(olds, id2, p2, c2);
                    pk >= 0 && olds[pk].records@.contains(x) && !(x == rec && pk > b2
                        && r_affected(&olds[pk], id, proto, dest, rec))
                }) by {
                lemma_tr_index_same_keys(prevs, news, id2, p2, c2);
                assert(cur_mem(prevs, id2, p2, c2, x) == ({
                    let pk = tr_index_of(olds, id2, p2, c2);
                    pk >= 0 && olds[pk].records@.contains(x) && !(x == rec && pk > idx
                        && r_affected(&olds[pk], id, proto, dest, rec))
                }));
                let pk = tr_index_of(olds, id2, p2, c2);
                let q = tr_index_of(prevs, id2, p2, c2);
                if pk >= 0 && b2 < pk && pk < idx {
                    lemma_rm_gap(olds, fullplan, id, proto, dest, rec, planlen, pk);
                }
                if q >= 0 {
                    lemma_tr_index_of(prevs, id2, p2, c2);
                    if q == idx {
                        assert(tr_matches(&prevs[idx], id2, p2, c2));
                        assert(id2 == kid && p2 == kproto && c2 == kcidr);
                        assert(pk == idx) by {
                            lemma_tr_self_index(olds, idx);
                        }
                        assert(news[q].records@ == pair.0);
                        assert(r_affected(&olds[idx], id, proto, dest, rec));
                    } else {
                        assert(news[q] == prevs[q]);
                        if pk == idx {
                            // the processed key indexes to idx in prevs too
                            lemma_tr_index_of(olds, id2, p2, c2);
                            assert(tr_matches(&olds[idx], id2, p2, c2));
                            assert(tr_matches(&prevs[idx], id2, p2, c2));
                            assert(q == idx);
                        }
                    }
                }
            }
        },
        None => {
            prevs.remove_ensures(idx);
            prevlpm.remove_ensures(idx);
            assert(entries_wf(news)) by {
                assert forall|a: int, b: int| 0 <= a < b < news.len() implies !((
                #[trigger] news[a]).id == (#[trigger] news[b]).id && news[a].proto == news[b].proto
                    && news[a].cidr == news[b].cidr) by {
                    let a2: int = if a < idx {
                        a
                    } else {
                        a + 1
                    };
                    let b2x: int = if b < idx {
                        b
                    } else {
                        b + 1
                    };
                    assert(news[a] == prevs[a2] && news[b] == prevs[b2x]);
                    lemma_keys_unique_at(prevs, a2, b2x);
                }
                assert forall|x: int| 0 <= x < news.len() implies entry_wf(&(#[trigger] news[x]))
                    by {
                    let x2: int = if x < idx {
                        x
                    } else {
                        x + 1
                    };
                    assert(news[x] == prevs[x2]);
                    assert(entry_wf(&prevs[x2]));
                }
            }
            assert forall|x: int|
                0 <= x < news.len() implies (#[trigger] newlpm[x]).id == news[x].id
                && newlpm[x].proto == news[x].proto && newlpm[x].cidr == news[x].cidr
                && newlpm[x].store.ranges() == spec_compile(rec_ranges(news[x].records@)) by {
                let x2: int = if x < idx {
                    x
                } else {
                    x + 1
                };
                assert(news[x] == prevs[x2] && newlpm[x] == prevlpm[x2]);
            }
            assert(forall|x: int| 0 <= x <= b2 ==> x < news.len() && #[trigger] news[x] == olds[x]);
            assert forall|id2: u128, p2: u8, c2: Cidr|
                ((#[trigger] tr_index_of(news, id2, p2, c2)) >= 0) == ({
                    let pk = tr_index_of(olds, id2, p2, c2);
                    pk >= 0 && !(pk > b2 && r_affected(&olds[pk], id, proto, dest, rec)
                        && r_empties(&olds[pk], rec))
                }) by {
                lemma_tr_index_of_remove(prevs, idx, id2, p2, c2);
                assert((tr_index_of(prevs, id2, p2, c2) >= 0) == ({
                    let pk = tr_index_of(olds, id2, p2, c2);
                    pk >= 0 && !(pk > idx && r_affected(&olds[pk], id, proto, dest, rec)
                        && r_empties(&olds[pk], rec))
                }));
                let pk = tr_index_of(olds, id2, p2, c2);
                if pk >= 0 && b2 < pk && pk < idx {
                    lemma_rm_gap(olds, fullplan, id, proto, dest, rec, planlen, pk);
                }
                if id2 == kid && p2 == kproto && c2 == kcidr {
                    assert(tr_matches(&prevs[idx], id2, p2, c2));
                    assert(tr_index_of(news, id2, p2, c2) == -1);
                    assert(pk == idx) by {
                        lemma_tr_self_index(olds, idx);
                    }
                    assert(r_affected(&olds[idx], id, proto, dest, rec));
                    assert(r_empties(&olds[idx], rec));
                } else {
                    assert(!tr_matches(&prevs[idx], id2, p2, c2));
                    if pk == idx {
                        lemma_tr_index_of(olds, id2, p2, c2);
                        assert(tr_matches(&olds[idx], id2, p2, c2));
                    }
                }
            }
            assert forall|id2: u128, p2: u8, c2: Cidr, x: PortRangeRecord|
                #[trigger] cur_mem(news, id2, p2, c2, x) == ({
                    let pk = tr_index_of(olds, id2, p2, c2);
                    pk >= 0 && olds[pk].records@.contains(x) && !(x == rec && pk > b2
                        && r_affected(&olds[pk], id, proto, dest, rec))
                }) by {
                lemma_tr_index_of_remove(prevs, idx, id2, p2, c2);
                assert(cur_mem(prevs, id2, p2, c2, x) == ({
                    let pk = tr_index_of(olds, id2, p2, c2);
                    pk >= 0 && olds[pk].records@.contains(x) && !(x == rec && pk > idx
                        && r_affected(&olds[pk], id, proto, dest, rec))
                }));
                let pk = tr_index_of(olds, id2, p2, c2);
                if pk >= 0 && b2 < pk && pk < idx {
                    lemma_rm_gap(olds, fullplan, id, proto, dest, rec, planlen, pk);
                }
                if id2 == kid && p2 == kproto && c2 == kcidr {
                    assert(tr_matches(&prevs[idx], id2, p2, c2));
                    assert(tr_index_of(news, id2, p2, c2) == -1);
                    assert(pk == idx) by {
                        lemma_tr_self_index(olds, idx);
                    }
                    assert(r_empties(&olds[idx], rec));
                    if olds[pk].records@.contains(x) && x != rec {
                        assert(x == rec);
                    }
                } else {
                    assert(!tr_matches(&prevs[idx], id2, p2, c2));
                    if pk == idx {
                        lemma_tr_index_of(olds, id2, p2, c2);
                        assert(tr_matches(&olds[idx], id2, p2, c2));
                    }
                    if tr_index_of(prevs, id2, p2, c2) >= 0 {
                        assert(news[tr_index_of(news, id2, p2, c2)] == prevs[tr_index_of(
                            prevs,
                            id2,
                            p2,
                            c2,
                        )]);
                    }
                }
            }
        },
    }
}

impl RuleTracker {
    /// Would one concrete record fit everywhere an add must write it?
    /// Read-only.
    fn can_add(&self, id: u128, proto: u8, dest: Cidr, rec: PortRangeRecord) -> (r: bool)
        requires
            self.wf(),
            dest.wf(),
            dest.is_norm(),
            valid_rec(rec),
        ensures
            r == add_fits(self.entries(), id, proto, dest, rec),
    {
        let ghost olds = self.entries();
        let parents = self.gather_parents(id, proto, &dest);
        proof {
            lemma_tr_index_of(olds, id, proto, dest);
            lemma_spec_parents(olds, id, proto, dest);
        }
        // the rule's own key with everything it inherits
        let mut k0recs: Vec<PortRangeRecord> = Vec::new();
        let k0 = self.find_key(id, proto, &dest);
        match k0 {
            Some(ix) => {
                let mut base = copy_recs(&self.rule_map[ix].records);
                if !rec_in(&base, &rec) {
                    base.push(rec);
                }
                proof {
                    lemma_add_one_missing(olds[ix as int].records@, rec);
                }
                push_missing(&mut base, &parents);
                k0recs = base;
            },
            None => {
                k0recs.push(rec);
                proof {
                    lemma_add_one_missing(Seq::<PortRangeRecord>::empty(), rec);
                    assert(Seq::<PortRangeRecord>::empty().push(rec) =~= seq![rec]);
                }
                push_missing(&mut k0recs, &parents);
            },
        }
        proof {
            assert(k0recs@ == k0_candidate(olds, id, proto, dest, rec));
            lemma_add_missing(
                if tr_index_of(olds, id, proto, dest) >= 0 {
                    olds[tr_index_of(olds, id, proto, dest)].records@
                } else {
                    Seq::<PortRangeRecord>::empty()
                },
                seq![rec],
            );
            lemma_add_missing(
                add_missing(
                    if tr_index_of(olds, id, proto, dest) >= 0 {
                        olds[tr_index_of(olds, id, proto, dest)].records@
                    } else {
                        Seq::<PortRangeRecord>::empty()
                    },
                    seq![rec],
                ),
                parents@,
            );
            assert(recs_valid(seq![rec])) by {
                assert(seq![rec][0] == rec);
            }
            if tr_index_of(olds, id, proto, dest) >= 0 {
                assert(entry_wf(&olds[tr_index_of(olds, id, proto, dest)]));
            }
        }
        match compile_records(&k0recs) {
            Ok(_) => {},
            Err(_) => {
                return false;
            },
        }
        let mut i: usize = 0;
        while i < self.rule_map.len()
            invariant
                olds == self.entries(),
                self.wf(),
                dest.wf(),
                dest.is_norm(),
                valid_rec(rec),
                i <= olds.len(),
                spec_compile(rec_ranges(k0_candidate(olds, id, proto, dest, rec))).len()
                    <= MAX_RANGES,
                forall|j: int|
                    0 <= j < i && affected(&(#[trigger] olds[j]), id, proto, dest) && olds[j].cidr
                        != dest ==> spec_compile(
                        rec_ranges(other_candidate(olds[j].records@, rec)),
                    ).len() <= MAX_RANGES,
            decreases olds.len() - i,
        {
            let e = &self.rule_map[i];
            if e.id == id && e.proto == proto && dest.contains(&e.cidr) {
                if !(e.cidr == dest) {
                    let mut cand = copy_recs(&e.records);
                    if !rec_in(&cand, &rec) {
                        cand.push(rec);
                    }
                    proof {
                        assert(entry_wf(&olds[i as int]));
                        lemma_add_one_missing(olds[i as int].records@, rec);
                        lemma_add_missing(olds[i as int].records@, seq![rec]);
                        assert(recs_valid(seq![rec])) by {
                            assert(seq![rec][0] == rec);
                        }
                        assert(cand@ == other_candidate(olds[i as int].records@, rec));
                    }
                    match compile_records(&cand) {
                        Ok(_) => {},
                        Err(_) => {
                            return false;
                        },
                    }
                }
            }
            i = i + 1;
        }
        true
    }

    /// Would every key shrunk by a removal still compile?  Read-only.
    fn can_remove(&self, id: u128, proto: u8, dest: Cidr, rec: PortRangeRecord) -> (r: bool)
        requires
            self.wf(),
            dest.wf(),
            dest.is_norm(),
        ensures
            r == remove_fits(self.entries(), id, proto, dest, rec),
    {
        let ghost olds = self.entries();
        let mut i: usize = 0;
        while i < self.rule_map.len()
            invariant
                olds == self.entries(),
                self.wf(),
                dest.wf(),
                dest.is_norm(),
                i <= olds.len(),
                forall|j: int|
                    0 <= j < i && r_affected(&(#[trigger] olds[j]), id, proto, dest, rec)
                        && !r_empties(&olds[j], rec) ==> spec_compile(
                        rec_ranges(minus(olds[j].records@, rec)),
                    ).len() <= MAX_RANGES,
            decreases olds.len() - i,
        {
            let e = &self.rule_map[i];
            if e.id == id && e.proto == proto && dest.contains(&e.cidr) && rec_in(&e.records, &rec) {
                let mut cand = copy_recs(&e.records);
                rec_remove(&mut cand, &rec);
                if cand.len() > 0 {
                    proof {
                        assert(entry_wf(&olds[i as int]));
                        assert(!r_empties(&olds[i as int], rec)) by {
                            assert(cand@.contains(cand@[0]));
                        }
                        lemma_minus(olds[i as int].records@, rec);
                        lemma_compile_same_set(cand@, minus(olds[i as int].records@, rec));
                    }
                    match compile_records(&cand) {
                        Ok(_) => {},
                        Err(_) => {
                            return false;
                        },
                    }
                } else {
                    proof {
                        assert(r_empties(&olds[i as int], rec)) by {
                            assert forall|x: PortRangeRecord|
                                #[trigger] olds[i as int].records@.contains(x) implies x == rec by {
                                if x != rec {
                                    assert(cand@.contains(x));
                                }
                            }
                        }
                    }
                }
            } else {
                proof {
                    assert(!r_affected(&olds[i as int], id, proto, dest, rec));
                }
            }
            i = i + 1;
        }
        true
    }

    /// The row index of an exact key, if present.
    fn find_key(&self, id: u128, proto: u8, cidr: &Cidr) -> (r: Option<usize>)
        ensures
            match r {
                Some(ix) => ix == tr_index_of(self.entries(), id, proto, *cidr),
                None => tr_index_of(self.entries(), id, proto, *cidr) == -1,
            },
    {
        proof {
            lemma_tr_index_of(self.entries(), id, proto, *cidr);
        }
        let mut i: usize = 0;
        while i < self.rule_map.len()
            invariant
                i <= self.entries().len(),
                forall|j: int|
                    0 <= j < i ==> !tr_matches(&(#[trigger] self.entries()[j]), id, proto, *cidr),
                -1 <= tr_index_of(self.entries(), id, proto, *cidr) < self.entries().len(),
                tr_index_of(self.entries(), id, proto, *cidr) >= 0 ==> tr_matches(
                    &self.entries()[tr_index_of(self.entries(), id, proto, *cidr)],
                    id,
                    proto,
                    *cidr,
                ) && (forall|j: int|
                    0 <= j < tr_index_of(self.entries(), id, proto, *cidr) ==> !tr_matches(
                        &(#[trigger] self.entries()[j]),
                        id,
                        proto,
                        *cidr,
                    )),
                tr_index_of(self.entries(), id, proto, *cidr) == -1 ==> (forall|j: int|
                    0 <= j < self.entries().len() ==> !tr_matches(
                        &(#[trigger] self.entries()[j]),
                        id,
                        proto,
                        *cidr,
                    )),
            decreases self.entries().len() - i,
        {
            let e = &self.rule_map[i];
            if e.id == id && e.proto == proto && e.cidr == *cidr {
                proof {
                    let r = tr_index_of(self.entries(), id, proto, *cidr);
                    assert(tr_matches(&self.entries()[i as int], id, proto, *cidr));
                    if r < i {
                        assert(!tr_matches(&self.entries()[r], id, proto, *cidr));
                    }
                }
                return Some(i);
            }
            i = i + 1;
        }
        None
    }

    /// Adds a user rule: validates its port range, unfolds `Generic`
    /// into one TCP and one UDP record, checks every key either record
    /// would touch, and only if everything fits commits both.  Any
    /// refusal leaves the tracker and the table exactly as they were;
    /// success puts the record at the rule's key and at every contained
    /// key, re-absorbs what the rule's key inherits from broader keys,
    /// and changes nothing else.
    pub fn add_rule(&mut self, store: &mut LpmStore, rule: &Rule) -> (r: Result<
        (),
        FirewallError,
    >)
        requires
            old(self).inv(old(store)),
            rule.dest.wf(),
        ensures
            final(self).inv(final(store)),
            !rule.spec_valid_range() ==> r == Err::<(), FirewallError>(FirewallError::InvalidPort),
            r is Err ==> final(self).entries() == old(self).entries() && final(store).entries()
                == old(store).entries(),
            rule.spec_valid_range() ==> ((r is Ok) <==> (forall|p: u8|
                #[trigger] rule.spec_has_proto(p) ==> add_fits(
                    old(self).entries(),
                    rule.spec_gid(),
                    p,
                    rule.dest.norm_spec(),
                    add_rec(rule),
                ))),
            rule.spec_valid_range() && r is Err ==> r == Err::<(), FirewallError>(
                FirewallError::RuleEntry(RuleStoreError::Exhausted),
            ),
            // on success the rule's key exists under each protocol it
            // unfolds to, and no other key appears
            r is Ok ==> forall|id2: u128, p2: u8, c2: Cidr|
                ((#[trigger] tr_index_of(final(self).entries(), id2, p2, c2)) >= 0) == ((
                tr_index_of(old(self).entries(), id2, p2, c2) >= 0) || (rule.spec_has_proto(p2)
                    && id2 == rule.spec_gid() && c2 == rule.dest.norm_spec())),
            // on success each key holds what it held, plus the rule's
            // record at its own key and at every contained key, plus
            // everything its own key inherits from broader keys
            r is Ok ==> forall|id2: u128, p2: u8, c2: Cidr, x: PortRangeRecord|
                #[trigger] cur_mem(final(self).entries(), id2, p2, c2, x) == (cur_mem(
                    old(self).entries(),
                    id2,
                    p2,
                    c2,
                    x,
                ) || (rule.spec_has_proto(p2) && id2 == rule.spec_gid() && x == add_rec(rule) && (
                c2 == rule.dest.norm_spec() || (tr_index_of(old(self).entries(), id2, p2, c2) >= 0
                    && rule.dest.norm_spec().contains_spec(&c2)))) || (rule.spec_has_proto(p2)
                    && id2 == rule.spec_gid() && c2 == rule.dest.norm_spec() && inherited(
                    old(self).entries(),
                    rule.spec_gid(),
                    p2,
                    rule.dest.norm_spec(),
                    x,
                ))),
    {
        match rule.port_range {
            Some(pr) => {
                if !pr.valid_range() {
                    return Err(FirewallError::InvalidPort);
                }
            },
            None => {},
        }
        let dest = rule.dest.normalize();
        proof {
            lemma_norm_wf(rule.dest);
        }
        let (lo, hi) = match rule.port_range {
            Some(pr) => (pr.start, pr.end),
            None => (0u16, 0u16),
        };
        let gid = match rule.id {
            Some(g) => g,
            None => 0u128,
        };
        let rec = PortRangeRecord { start: lo, end: hi, origin: dest };
        let generic = match rule.port_range {
            Some(pr) => match pr.proto {
                Protocol::Generic => true,
                _ => false,
            },
            None => true,
        };
        let tcp = generic || match rule.port_range {
            Some(pr) => match pr.proto {
                Protocol::TCP => true,
                _ => false,
            },
            None => false,
        };
        let udp = generic || match rule.port_range {
            Some(pr) => match pr.proto {
                Protocol::UDP => true,
                _ => false,
            },
            None => false,
        };
        proof {
            assert(rec == add_rec(rule));
            assert(tcp == rule.spec_has_proto(0x06));
            assert(udp == rule.spec_has_proto(0x11));
        }
        if tcp && !self.can_add(gid, 0x06, dest, rec) {
            return Err(FirewallError::RuleEntry(RuleStoreError::Exhausted));
        }
        if udp && !self.can_add(gid, 0x11, dest, rec) {
            return Err(FirewallError::RuleEntry(RuleStoreError::Exhausted));
        }
        let ghost mids = self.entries();
        if tcp {
            match self.add_one(store, gid, 0x06, dest, rec) {
                Ok(_) => {},
                Err(e) => {
                    proof {
                        assert(false);
                    }
                    return Err(e);
                },
            }
        }
        let ghost t_mid = self.entries();
        if udp {
            proof {
                if tcp {
                    assert(forall|i: int|
                        0 <= i < mids.len() && (#[trigger] mids[i]).proto != 0x06
                            ==> !affected(&mids[i], gid, 0x06, dest));
                    assert forall|i: int|
                        0 <= i < mids.len() && (#[trigger] mids[i]).proto != 0x06 implies t_mid[i].records@
                        == mids[i].records@ by {
                        assert(!affected(&mids[i], gid, 0x06, dest));
                    }
                    lemma_add_fits_other_proto(mids, t_mid, gid, 0x06, 0x11, dest, rec);
                }
            }
            match self.add_one(store, gid, 0x11, dest, rec) {
                Ok(_) => {},
                Err(e) => {
                    proof {
                        assert(false);
                    }
                    return Err(e);
                },
            }
        }
        proof {
            let t2 = self.entries();
            assert(rule.spec_has_proto(0x06) == tcp && rule.spec_has_proto(0x11) == udp);
            assert forall|id2: u128, p2: u8, c2: Cidr|
                ((#[trigger] tr_index_of(t2, id2, p2, c2)) >= 0) == ((tr_index_of(
                mids,
                id2,
                p2,
                c2,
            ) >= 0) || (rule.spec_has_proto(p2) && id2 == gid && c2 == dest)) by {
                assert(rule.spec_has_proto(p2) ==> p2 == 0x06 || p2 == 0x11);
                if tcp {
                    lemma_add_map_at(mids, t_mid, gid, 0x06, dest, rec, id2, p2, c2);
                }
                if udp {
                    lemma_add_map_at(t_mid, t2, gid, 0x11, dest, rec, id2, p2, c2);
                }
            }
            assert forall|id2: u128, p2: u8, c2: Cidr, x: PortRangeRecord|
                #[trigger] cur_mem(t2, id2, p2, c2, x) == (cur_mem(mids, id2, p2, c2, x) || (
            rule.spec_has_proto(p2) && id2 == gid && x == rec && (c2 == dest || (tr_index_of(
                mids,
                id2,
                p2,
                c2,
            ) >= 0 && dest.contains_spec(&c2)))) || (rule.spec_has_proto(p2) && id2 == gid && c2
                == dest && inherited(mids, gid, p2, dest, x))) by {
                assert(rule.spec_has_proto(p2) ==> p2 == 0x06 || p2 == 0x11);
                if tcp {
                    lemma_add_map_at(mids, t_mid, gid, 0x06, dest, rec, id2, p2, c2);
                }
                if udp {
                    lemma_add_map_at(t_mid, t2, gid, 0x11, dest, rec, id2, p2, c2);
                }
                if tcp && udp {
                    lemma_inherited_other_proto(mids, t_mid, gid, 0x06, 0x11, dest, rec);
                    assert(inherited(t_mid, gid, 0x11, dest, x) == inherited(
                        mids,
                        gid,
                        0x11,
                        dest,
                        x,
                    ));
                }
            }
        }
        Ok(())
    }

    /// Removes a user rule: unfolds `Generic`, checks that every key
    /// the withdrawal shrinks still compiles, and only if everything
    /// fits commits both concrete removals.  Any refusal leaves the
    /// tracker and the table exactly as they were; success takes the
    /// record out of its key and out of every propagated copy, drops
    /// keys that end up empty, and changes nothing else.
    pub fn remove_rule(&mut self, store: &mut LpmStore, rule: &Rule) -> (r: Result<
        (),
        FirewallError,
    >)
        requires
            old(self).inv(old(store)),
            rule.dest.wf(),
        ensures
            final(self).inv(final(store)),
            r is Err ==> final(self).entries() == old(self).entries() && final(store).entries()
                == old(store).entries() && r == Err::<(), FirewallError>(
                FirewallError::RuleEntry(RuleStoreError::Exhausted),
            ),
            (r is Ok) <==> (forall|p: u8|
                #[trigger] rule.spec_has_proto(p) ==> remove_fits(
                    old(self).entries(),
                    rule.spec_gid(),
                    p,
                    rule.dest.norm_spec(),
                    add_rec(rule),
                )),
            // on success a key survives unless withdrawing the record
            // empties it
            r is Ok ==> forall|id2: u128, p2: u8, c2: Cidr|
                ((#[trigger] tr_index_of(final(self).entries(), id2, p2, c2)) >= 0) == ({
                    let pk = tr_index_of(old(self).entries(), id2, p2, c2);
                    pk >= 0 && !(rule.spec_has_proto(p2) && r_affected(
                        &old(self).entries()[pk],
                        rule.spec_gid(),
                        p2,
                        rule.dest.norm_spec(),
                        add_rec(rule),
                    ) && r_empties(&old(self).entries()[pk], add_rec(rule)))
                }),
            // on success the record leaves its key and every propagated
            // copy; every other record of every key stays
            r is Ok ==> forall|id2: u128, p2: u8, c2: Cidr, x: PortRangeRecord|
                #[trigger] cur_mem(final(self).entries(), id2, p2, c2, x) == ({
                    let pk = tr_index_of(old(self).entries(), id2, p2, c2);
                    pk >= 0 && old(self).entries()[pk].records@.contains(x) && !(x == add_rec(rule)
                        && rule.spec_has_proto(p2) && r_affected(
                        &old(self).entries()[pk],
                        rule.spec_gid(),
                        p2,
                        rule.dest.norm_spec(),
                        add_rec(rule),
                    ))
                }),
    {
        let dest = rule.dest.normalize();
        proof {
            lemma_norm_wf(rule.dest);
        }
        let (lo, hi) = match rule.port_range {
            Some(pr) => (pr.start, pr.end),
            None => (0u16, 0u16),
        };
        let gid = match rule.id {
            Some(g) => g,
            None => 0u128,
        };
        let rec = PortRangeRecord { start: lo, end: hi, origin: dest };
        let generic = match rule.port_range {
            Some(pr) => match pr.proto {
                Protocol::Generic => true,
                _ => false,
            },
            None => true,
        };
        let tcp = generic || match rule.port_range {
            Some(pr) => match pr.proto {
                Protocol::TCP => true,
                _ => false,
            },
            None => false,
        };
        let udp = generic || match rule.port_range {
            Some(pr) => match pr.proto {
                Protocol::UDP => true,
                _ => false,
            },
            None => false,
        };
        proof {
            assert(rec == add_rec(rule));
            assert(tcp == rule.spec_has_proto(0x06));
            assert(udp == rule.spec_has_proto(0x11));
        }
        if tcp && !self.can_remove(gid, 0x06, dest, rec) {
            return Err(FirewallError::RuleEntry(RuleStoreError::Exhausted));
        }
        if udp && !self.can_remove(gid, 0x11, dest, rec) {
            return Err(FirewallError::RuleEntry(RuleStoreError::Exhausted));
        }
        let ghost mids = self.entries();
        if tcp {
            match self.remove_one(store, gid, 0x06, dest, rec) {
                Ok(_) => {},
                Err(e) => {
                    proof {
                        assert(false);
                    }
                    return Err(e);
                },
            }
        }
        let ghost t_mid = self.entries();
        if udp {
            proof {
                if tcp {
                    let news = self.entries();
                    assert forall|id2: u128, c2: Cidr|
                        ((#[trigger] tr_index_of(news, id2, 0x11, c2)) >= 0) == (tr_index_of(
                        mids,
                        id2,
                        0x11,
                        c2,
                    ) >= 0) by {
                        assert(self.spec_has_key(id2, 0x11, c2) == ({
                            let pk = tr_index_of(mids, id2, 0x11, c2);
                            pk >= 0 && !(r_affected(&mids[pk], gid, 0x06, dest, rec) && r_empties(
                                &mids[pk],
                                rec,
                            ))
                        }));
                        let pk = tr_index_of(mids, id2, 0x11, c2);
                        if pk >= 0 {
                            lemma_tr_index_of(mids, id2, 0x11, c2);
                            assert(mids[pk].proto == 0x11);
                            assert(!r_affected(&mids[pk], gid, 0x06, dest, rec));
                        }
                    }
                    assert forall|id2: u128, c2: Cidr, x: PortRangeRecord|
                        #[trigger] cur_mem(news, id2, 0x11, c2, x) == cur_mem(mids, id2, 0x11, c2, x)
                        by {
                        assert(self.spec_member(id2, 0x11, c2, x) == ({
                            let pk = tr_index_of(mids, id2, 0x11, c2);
                            pk >= 0 && mids[pk].records@.contains(x) && !(x == rec && r_affected(
                                &mids[pk],
                                gid,
                                0x06,
                                dest,
                                rec,
                            ))
                        }));
                        let pk = tr_index_of(mids, id2, 0x11, c2);
                        if pk >= 0 {
                            lemma_tr_index_of(mids, id2, 0x11, c2);
                            assert(mids[pk].proto == 0x11);
                            assert(!r_affected(&mids[pk], gid, 0x06, dest, rec));
                        }
                        if tr_index_of(news, id2, 0x11, c2) < 0 {
                            assert(self.records_at(id2, 0x11, c2) =~= Seq::<PortRangeRecord>::empty());
                            assert(!cur_mem(news, id2, 0x11, c2, x));
                            assert(!self.spec_member(id2, 0x11, c2, x));
                        } else {
                            assert(cur_mem(news, id2, 0x11, c2, x) == self.spec_member(
                                id2,
                                0x11,
                                c2,
                                x,
                            ));
                        }
                    }
                    lemma_remove_fits_other_proto(mids, news, gid, 0x06, 0x11, dest, rec);
                }
            }
            match self.remove_one(store, gid, 0x11, dest, rec) {
                Ok(_) => {},
                Err(e) => {
                    proof {
                        assert(false);
                    }
                    return Err(e);
                },
            }
        }
        proof {
            let t2 = self.entries();
            assert(rule.spec_has_proto(0x06) == tcp && rule.spec_has_proto(0x11) == udp);
            assert forall|id2: u128, p2: u8, c2: Cidr|
                ((#[trigger] tr_index_of(t2, id2, p2, c2)) >= 0) == ({
                    let pk = tr_index_of(mids, id2, p2, c2);
                    pk >= 0 && !(rule.spec_has_proto(p2) && r_affected(
                        &mids[pk],
                        gid,
                        p2,
                        dest,
                        rec,
                    ) && r_empties(&mids[pk], rec))
                }) by {
                assert(rule.spec_has_proto(p2) ==> p2 == 0x06 || p2 == 0x11);
                if tcp {
                    lemma_remove_map_at(mids, t_mid, gid, 0x06, dest, rec, id2, p2, c2);
                }
                if udp {
                    lemma_remove_map_at(t_mid, t2, gid, 0x11, dest, rec, id2, p2, c2);
                }
            }
            assert forall|id2: u128, p2: u8, c2: Cidr, x: PortRangeRecord|
                #[trigger] cur_mem(t2, id2, p2, c2, x) == ({
                    let pk = tr_index_of(mids, id2, p2, c2);
                    pk >= 0 && mids[pk].records@.contains(x) && !(x == rec
                        && rule.spec_has_proto(p2) && r_affected(&mids[pk], gid, p2, dest, rec))
                }) by {
                assert(rule.spec_has_proto(p2) ==> p2 == 0x06 || p2 == 0x11);
                if tcp {
                    lemma_remove_map_at(mids, t_mid, gid, 0x06, dest, rec, id2, p2, c2);
                }
                if udp {
                    lemma_remove_map_at(t_mid, t2, gid, 0x11, dest, rec, id2, p2, c2);
                }
                if tcp && udp {
                    let pk0 = tr_index_of(mids, id2, p2, c2);
                    let pkm = tr_index_of(t_mid, id2, p2, c2);
                    assert(cur_mem(t_mid, id2, p2, c2, x) == (pk0 >= 0
                        && mids[pk0].records@.contains(x) && !(x == rec && p2 == 0x06
                        && r_affected(&mids[pk0], gid, p2, dest, rec))));
                    assert(cur_mem(t2, id2, p2, c2, x) == (pkm >= 0
                        && t_mid[pkm].records@.contains(x) && !(x == rec && p2 == 0x11
                        && r_affected(&t_mid[pkm], gid, p2, dest, rec))));
                    if p2 == 0x11 && pk0 >= 0 {
                        assert(pkm >= 0);
                        assert(t_mid[pkm].records@.contains(x) == mids[pk0].records@.contains(x));
                        assert(r_affected(&t_mid[pkm], gid, 0x11, dest, rec) == r_affected(
                            &mids[pk0],
                            gid,
                            0x11,
                            dest,
                            rec,
                        ));
                    }
                    if p2 != 0x11 {
                        assert(cur_mem(t2, id2, p2, c2, x) == cur_mem(t_mid, id2, p2, c2, x));
                    }
                }
            }
        }
        Ok(())
    }
}

/// The record a rule carries: its ports under its normalised
/// destination.
pub open spec fn add_rec(rule: &Rule) -> PortRangeRecord {
    PortRangeRecord {
        start: rule.spec_ports().0,
        end: rule.spec_ports().1,
        origin: rule.dest.norm_spec(),
    }
}

/// Normalising keeps validity and lands in normalised form.
pub proof fn lemma_norm_wf(c: Cidr)
    requires
        c.wf(),
    ensures
        c.norm_spec().wf(),
        c.norm_spec().is_norm(),
        c.norm_spec().prefix_spec() == c.prefix_spec(),
{
    match c {
        Cidr::V4(x) => {
            crate::cidr::lemma_mask4_idem(x.addr, x.prefix);
        },
        Cidr::V6(x) => {
            crate::cidr::lemma_mask6_idem(x.addr, x.prefix);
        },
    }
}

/// How `tr_index_of` behaves across appending a row.
proof fn lemma_tr_index_of_push(pre: Seq<RuleEntry>, id: u128, proto: u8, cidr: Cidr)
    requires
        pre.len() > 0,
    ensures
        !tr_matches(&pre[pre.len() - 1], id, proto, cidr) ==> tr_index_of(pre, id, proto, cidr)
            == tr_index_of(pre.take(pre.len() - 1), id, proto, cidr),
    decreases pre.len(),
{
    let pre0 = pre.take(pre.len() - 1);
    if !tr_matches(&pre[pre.len() - 1], id, proto, cidr) {
        if pre.len() == 1 {
            assert(pre0 =~= Seq::<RuleEntry>::empty());
            assert(tr_index_of(pre0, id, proto, cidr) == -1);
            assert(tr_index_of(pre, id, proto, cidr) == -1) by {
                lemma_tr_index_of(pre, id, proto, cidr);
                if tr_index_of(pre, id, proto, cidr) >= 0 {
                    assert(tr_matches(&pre[tr_index_of(pre, id, proto, cidr)], id, proto, cidr));
                }
            }
        } else {
            assert(pre0.len() > 0);
            assert(pre0[0] == pre[0]);
            if !tr_matches(&pre[0], id, proto, cidr) {
                assert(pre.drop_first().take(pre.drop_first().len() - 1) =~= pre0.drop_first());
                assert(pre.drop_first()[pre.drop_first().len() - 1] == pre[pre.len() - 1]);
                lemma_tr_index_of_push(pre.drop_first(), id, proto, cidr);
                let r1 = tr_index_of(pre.drop_first(), id, proto, cidr);
                assert(r1 == tr_index_of(pre0.drop_first(), id, proto, cidr));
                assert(tr_index_of(pre, id, proto, cidr) == (if r1 < 0 {
                    -1int
                } else {
                    r1 + 1
                }));
                assert(tr_index_of(pre0, id, proto, cidr) == (if r1 < 0 {
                    -1int
                } else {
                    r1 + 1
                }));
            } else {
                assert(tr_index_of(pre, id, proto, cidr) == 0);
                assert(tr_index_of(pre0, id, proto, cidr) == 0);
            }
        }
    }
}

/// A write under one protocol leaves every fit under the other
/// protocol as it was.
proof fn lemma_add_fits_other_proto(
    olds: Seq<RuleEntry>,
    news: Seq<RuleEntry>,
    id: u128,
    p1: u8,
    p2: u8,
    dest: Cidr,
    rec: PortRangeRecord,
)
    requires
        p1 != p2,
        entries_wf(olds),
        news.len() == olds.len() || news.len() == olds.len() + 1,
        forall|i: int|
            0 <= i < olds.len() ==> (#[trigger] news[i]).id == olds[i].id && news[i].proto
                == olds[i].proto && news[i].cidr == olds[i].cidr,
        forall|i: int|
            0 <= i < olds.len() && olds[i].proto != p1 ==> (#[trigger] news[i]).records@
                == olds[i].records@,
        news.len() == olds.len() + 1 ==> news[olds.len() as int].proto == p1,
    ensures
        add_fits(news, id, p2, dest, rec) == add_fits(olds, id, p2, dest, rec),
{
    let n = olds.len() as int;
    // indexing under the untouched protocol is unchanged
    assert forall|c2: Cidr| #[trigger] tr_index_of(news, id, p2, c2) == tr_index_of(
        olds,
        id,
        p2,
        c2,
    ) by {
        let news0 = news.take(n);
        lemma_tr_index_same_keys(olds, news0, id, p2, c2);
        if news.len() == olds.len() + 1 {
            assert(news.take(news.len() - 1) =~= news0);
            assert(!tr_matches(&news[news.len() - 1], id, p2, c2));
            lemma_tr_index_of_push(news, id, p2, c2);
        } else {
            assert(news0 =~= news);
        }
    }
    let k0n = tr_index_of(news, id, p2, dest);
    let k0o = tr_index_of(olds, id, p2, dest);
    assert(k0n == k0o);
    lemma_tr_index_of(olds, id, p2, dest);
    let baseo: Seq<PortRangeRecord> = if k0o >= 0 {
        olds[k0o].records@
    } else {
        Seq::empty()
    };
    let basen: Seq<PortRangeRecord> = if k0n >= 0 {
        news[k0n].records@
    } else {
        Seq::empty()
    };
    assert(basen == baseo) by {
        if k0o >= 0 {
            assert(olds[k0o].proto == p2);
        }
    }
    // inherited records are drawn from the untouched slice
    assert forall|x: PortRangeRecord|
        #[trigger] inherited(news, id, p2, dest, x) == inherited(olds, id, p2, dest, x) by {
        if inherited(news, id, p2, dest, x) {
            let j = choose|j: int|
                0 <= j < news.len() && (#[trigger] news[j]).id == id && news[j].proto == p2
                    && news[j].cidr.contains_spec(&dest) && news[j].records@.contains(x);
            assert(j < n);
            assert(olds[j].records@.contains(x));
        }
        if inherited(olds, id, p2, dest, x) {
            let j = choose|j: int|
                0 <= j < olds.len() && (#[trigger] olds[j]).id == id && olds[j].proto == p2
                    && olds[j].cidr.contains_spec(&dest) && olds[j].records@.contains(x);
            assert(news[j].records@.contains(x));
        }
    }
    lemma_spec_parents(news, id, p2, dest);
    lemma_spec_parents(olds, id, p2, dest);
    lemma_candidate_membership(news, id, p2, dest, rec);
    lemma_candidate_membership(olds, id, p2, dest, rec);
    let cn = k0_candidate(news, id, p2, dest, rec);
    let co = k0_candidate(olds, id, p2, dest, rec);
    assert(spec_compile(rec_ranges(cn)) == spec_compile(rec_ranges(co))) by {
        lemma_add_missing(basen, seq![rec]);
        lemma_add_missing(add_missing(basen, seq![rec]), spec_parents(news, id, p2, dest));
        lemma_add_missing(baseo, seq![rec]);
        lemma_add_missing(add_missing(baseo, seq![rec]), spec_parents(olds, id, p2, dest));
        assert(recs_nodup(baseo)) by {
            if k0o >= 0 {
                assert(entry_wf(&olds[k0o]));
            }
        }
        assert forall|x: PortRangeRecord| #[trigger] cn.contains(x) == co.contains(x) by {
            assert(cn.contains(x) == ((k0n >= 0 && news[k0n].records@.contains(x)) || x == rec
                || inherited(news, id, p2, dest, x)));
            assert(co.contains(x) == ((k0o >= 0 && olds[k0o].records@.contains(x)) || x == rec
                || inherited(olds, id, p2, dest, x)));
        }
        lemma_compile_same_set(cn, co);
    }
    // every affected narrower key carries the same records on both sides
    assert forall|i: int|
        0 <= i < news.len() && affected(&(#[trigger] news[i]), id, p2, dest) implies i < n
        && affected(&olds[i], id, p2, dest) && news[i].records@ == olds[i].records@ by {
        if i >= n {
            assert(news[i].proto == p1);
        }
        assert(olds[i].proto == p2);
    }
    assert(add_fits(news, id, p2, dest, rec) == add_fits(olds, id, p2, dest, rec)) by {
        if add_fits(news, id, p2, dest, rec) {
            assert forall|i: int|
                0 <= i < olds.len() && affected(&(#[trigger] olds[i]), id, p2, dest) && olds[i].cidr
                    != dest implies spec_compile(
                rec_ranges(other_candidate(olds[i].records@, rec)),
            ).len() <= MAX_RANGES by {
                assert(affected(&news[i], id, p2, dest));
                assert(news[i].records@ == olds[i].records@);
            }
        }
        if add_fits(olds, id, p2, dest, rec) {
            assert forall|i: int|
                0 <= i < news.len() && affected(&(#[trigger] news[i]), id, p2, dest) && news[i].cidr
                    != dest implies spec_compile(
                rec_ranges(other_candidate(news[i].records@, rec)),
            ).len() <= MAX_RANGES by {
                assert(affected(&olds[i], id, p2, dest));
            }
        }
    }
}

/// A removal under one protocol leaves every fit under the other
/// protocol as it was.
proof fn lemma_remove_fits_other_proto(
    olds: Seq<RuleEntry>,
    news: Seq<RuleEntry>,
    id: u128,
    p1: u8,
    p2: u8,
    dest: Cidr,
    rec: PortRangeRecord,
)
    requires
        p1 != p2,
        entries_wf(olds),
        entries_wf(news),
        forall|id2: u128, c2: Cidr|
            ((#[trigger] tr_index_of(news, id2, p2, c2)) >= 0) == (tr_index_of(olds, id2, p2, c2)
                >= 0),
        forall|id2: u128, c2: Cidr, x: PortRangeRecord|
            #[trigger] cur_mem(news, id2, p2, c2, x) == cur_mem(olds, id2, p2, c2, x),
    ensures
        remove_fits(news, id, p2, dest, rec) == remove_fits(olds, id, p2, dest, rec),
{
    assert forall|j: int, jn: int|
        0 <= j < olds.len() && 0 <= jn < news.len() && (#[trigger] olds[j]).proto == p2 && (
        #[trigger] news[jn]).proto == p2 && olds[j].id == news[jn].id && olds[j].cidr
            == news[jn].cidr implies (forall|x: PortRangeRecord|
        #[trigger] news[jn].records@.contains(x) == olds[j].records@.contains(x)) by {
        lemma_tr_self_index(olds, j);
        lemma_tr_self_index(news, jn);
        assert forall|x: PortRangeRecord|
            #[trigger] news[jn].records@.contains(x) == olds[j].records@.contains(x) by {
            assert(cur_mem(news, news[jn].id, p2, news[jn].cidr, x) == cur_mem(
                olds,
                news[jn].id,
                p2,
                news[jn].cidr,
                x,
            ));
        }
    }
    assert(remove_fits(news, id, p2, dest, rec) == remove_fits(olds, id, p2, dest, rec)) by {
        if remove_fits(news, id, p2, dest, rec) {
            assert forall|j: int|
                0 <= j < olds.len() && r_affected(&(#[trigger] olds[j]), id, p2, dest, rec)
                    && !r_empties(&olds[j], rec) implies spec_compile(
                rec_ranges(minus(olds[j].records@, rec)),
            ).len() <= MAX_RANGES by {
                lemma_transfer_one(olds, news, id, p2, dest, rec, j);
            }
        }
        if remove_fits(olds, id, p2, dest, rec) {
            assert forall|j: int|
                0 <= j < news.len() && r_affected(&(#[trigger] news[j]), id, p2, dest, rec)
                    && !r_empties(&news[j], rec) implies spec_compile(
                rec_ranges(minus(news[j].records@, rec)),
            ).len() <= MAX_RANGES by {
                lemma_transfer_one(news, olds, id, p2, dest, rec, j);
            }
        }
    }
}

/// One affected row's shrunk set compiles alike on both sides.
proof fn lemma_transfer_one(
    a: Seq<RuleEntry>,
    b: Seq<RuleEntry>,
    id: u128,
    p2: u8,
    dest: Cidr,
    rec: PortRangeRecord,
    j: int,
)
    requires
        entries_wf(a),
        entries_wf(b),
        forall|id2: u128, c2: Cidr|
            ((#[trigger] tr_index_of(a, id2, p2, c2)) >= 0) == (tr_index_of(b, id2, p2, c2) >= 0),
        forall|id2: u128, c2: Cidr, x: PortRangeRecord|
            #[trigger] cur_mem(a, id2, p2, c2, x) == cur_mem(b, id2, p2, c2, x),
        0 <= j < a.len(),
        r_affected(&a[j], id, p2, dest, rec),
        !r_empties(&a[j], rec),
        remove_fits(b, id, p2, dest, rec),
    ensures
        spec_compile(rec_ranges(minus(a[j].records@, rec))).len() <= MAX_RANGES,
{
    lemma_tr_self_index(a, j);
    assert(tr_index_of(b, a[j].id, p2, a[j].cidr) >= 0);
    let jb = tr_index_of(b, a[j].id, p2, a[j].cidr);
    lemma_tr_index_of(b, a[j].id, p2, a[j].cidr);
    assert(b[jb].id == a[j].id && b[jb].proto == p2 && b[jb].cidr == a[j].cidr);
    assert forall|x: PortRangeRecord|
        #[trigger] b[jb].records@.contains(x) == a[j].records@.contains(x) by {
        assert(cur_mem(a, a[j].id, p2, a[j].cidr, x) == cur_mem(b, a[j].id, p2, a[j].cidr, x));
    }
    assert(r_affected(&b[jb], id, p2, dest, rec));
    assert(!r_empties(&b[jb], rec)) by {
        assert(exists|w: PortRangeRecord| #[trigger] a[j].records@.contains(w) && w != rec);
        let w = choose|w: PortRangeRecord| #[trigger] a[j].records@.contains(w) && w != rec;
        assert(b[jb].records@.contains(w));
    }
    assert(spec_compile(rec_ranges(minus(b[jb].records@, rec))).len() <= MAX_RANGES);
    lemma_minus(a[j].records@, rec);
    lemma_minus(b[jb].records@, rec);
    assert(entry_wf(&a[j]));
    assert(entry_wf(&b[jb]));
    lemma_compile_same_set(minus(a[j].records@, rec), minus(b[jb].records@, rec));
}

/// Aligned tables index every key alike.
proof fn lemma_aligned_index(
    t: Seq<RuleEntry>,
    s: Seq<crate::lpm::LpmEntry>,
    id: u128,
    proto: u8,
    cidr: Cidr,
)
    requires
        s.len() == t.len(),
        forall|i: int|
            0 <= i < t.len() ==> (#[trigger] s[i]).id == t[i].id && s[i].proto == t[i].proto
                && s[i].cidr == t[i].cidr,
    ensures
        crate::lpm::index_of(s, id, proto, cidr) == tr_index_of(t, id, proto, cidr),
    decreases t.len(),
{
    if t.len() > 0 {
        let rt = t.drop_first();
        let rs = s.drop_first();
        assert(forall|j: int| 0 <= j < rt.len() ==> rt[j] == t[j + 1] && rs[j] == s[j + 1]);
        lemma_aligned_index(rt, rs, id, proto, cidr);
    }
}

/// For every key present in the table, its compiled store holds exactly
/// the overlap-resolved union of the records materialised at that key;
/// and every record of a broader key under the same group and protocol
/// is among the records of each narrower key.
pub proof fn lemma_table_matches_rule_sets(t: &RuleTracker, s: &LpmStore)
    requires
        t.inv(s),
    ensures
        s.entries().len() == t.entries().len(),
        forall|i: int|
            0 <= i < s.entries().len() ==> (#[trigger] s.entries()[i]).id == t.entries()[i].id
                && s.entries()[i].proto == t.entries()[i].proto && s.entries()[i].cidr
                == t.entries()[i].cidr && s.entries()[i].store.ranges() == spec_compile(
                rec_ranges(t.entries()[i].records@),
            ),
        forall|i: int, j: int, r: PortRangeRecord|
            0 <= i < t.entries().len() && 0 <= j < t.entries().len() && i != j && t.entries()[i].id
                == t.entries()[j].id && t.entries()[i].proto == t.entries()[j].proto
                && t.entries()[i].cidr.contains_spec(&t.entries()[j].cidr) && (
            #[trigger] t.entries()[i].records@.contains(r)) ==> #[trigger] t.entries()[j].records@.contains(
                r,
            ),
{
}

/// An entry is present in the LPM table iff its rule set is
/// materialised and non-empty.
pub proof fn lemma_presence_iff_nonempty(
    t: &RuleTracker,
    s: &LpmStore,
    id: u128,
    proto: u8,
    cidr: Cidr,
)
    requires
        t.inv(s),
    ensures
        s.spec_has_key(id, proto, cidr) == t.spec_has_key(id, proto, cidr),
        t.spec_has_key(id, proto, cidr) ==> t.records_at(id, proto, cidr).len() > 0,
{
    lemma_aligned_index(t.entries(), s.entries(), id, proto, cidr);
    lemma_tr_index_of(t.entries(), id, proto, cidr);
    if t.spec_has_key(id, proto, cidr) {
        let i = tr_index_of(t.entries(), id, proto, cidr);
        assert(entry_wf(&t.entries()[i]));
    }
}

/// Withdrawing a just-ingested record restores the table key for key:
/// every key holds the records it held before, and the compiled store
/// of every surviving key is unchanged.  The record must be fresh, and
/// its key must either have existed already or inherit nothing; a fresh
/// key that broader keys feed survives its own rule's withdrawal with
/// the inherited copies, so the table is not restored there.
pub proof fn lemma_add_remove_round_trip(
    t0: Seq<RuleEntry>,
    t1: Seq<RuleEntry>,
    t2: Seq<RuleEntry>,
    id: u128,
    proto: u8,
    dest: Cidr,
    rec: PortRangeRecord,
)
    requires
        entries_wf(t0),
        entries_monotone(t0),
        entries_wf(t2),
        concrete_proto(proto),
        dest.wf(),
        dest.is_norm(),
        rec.origin == dest,
        // the record is fresh: no key holds it yet
        forall|i: int| 0 <= i < t0.len() ==> !(#[trigger] t0[i]).records@.contains(rec),
        // the rule's key exists, or nothing broader would feed it
        tr_index_of(t0, id, proto, dest) >= 0 || (forall|j: int|
            0 <= j < t0.len() ==> !((#[trigger] t0[j]).id == id && t0[j].proto == proto
                && t0[j].cidr.contains_spec(&dest))),
        // how the ingestion built `t1`
        t1.len() == t0.len() + (if tr_index_of(t0, id, proto, dest) >= 0 {
            0int
        } else {
            1int
        }),
        forall|i: int|
            0 <= i < t0.len() ==> (#[trigger] t1[i]).id == t0[i].id && t1[i].proto == t0[i].proto
                && t1[i].cidr == t0[i].cidr,
        forall|i: int|
            0 <= i < t0.len() ==> (#[trigger] t1[i]).records@ == (if affected(
                &t0[i],
                id,
                proto,
                dest,
            ) {
                if t0[i].cidr == dest {
                    k0_candidate(t0, id, proto, dest, rec)
                } else {
                    other_candidate(t0[i].records@, rec)
                }
            } else {
                t0[i].records@
            }),
        tr_index_of(t0, id, proto, dest) < 0 ==> t1[t0.len() as int].id == id
            && t1[t0.len() as int].proto == proto && t1[t0.len() as int].cidr == dest
            && t1[t0.len() as int].records@ == k0_candidate(t0, id, proto, dest, rec),
        // how the withdrawal built `t2`
        forall|id2: u128, p2: u8, c2: Cidr|
            ((#[trigger] tr_index_of(t2, id2, p2, c2)) >= 0) == ({
                let pk = tr_index_of(t1, id2, p2, c2);
                pk >= 0 && !(r_affected(&t1[pk], id, proto, dest, rec) && r_empties(&t1[pk], rec))
            }),
        forall|id2: u128, p2: u8, c2: Cidr, x: PortRangeRecord|
            #[trigger] cur_mem(t2, id2, p2, c2, x) == ({
                let pk = tr_index_of(t1, id2, p2, c2);
                pk >= 0 && t1[pk].records@.contains(x) && !(x == rec && r_affected(
                    &t1[pk],
                    id,
                    proto,
                    dest,
                    rec,
                ))
            }),
    ensures
        forall|id2: u128, p2: u8, c2: Cidr|
            ((#[trigger] tr_index_of(t2, id2, p2, c2)) >= 0) == (tr_index_of(t0, id2, p2, c2)
                >= 0),
        forall|id2: u128, p2: u8, c2: Cidr, x: PortRangeRecord|
            #[trigger] cur_mem(t2, id2, p2, c2, x) == cur_mem(t0, id2, p2, c2, x),
        forall|id2: u128, p2: u8, c2: Cidr|
            tr_index_of(t0, id2, p2, c2) >= 0 ==> #[trigger] spec_compile(
                rec_ranges(t2[tr_index_of(t2, id2, p2, c2)].records@),
            ) == spec_compile(rec_ranges(t0[tr_index_of(t0, id2, p2, c2)].records@)),
{
    let n = t0.len() as int;
    let k0 = tr_index_of(t0, id, proto, dest);
    lemma_tr_index_of(t0, id, proto, dest);
    lemma_candidate_membership(t0, id, proto, dest, rec);
    lemma_spec_parents(t0, id, proto, dest);
    let k0cand = k0_candidate(t0, id, proto, dest, rec);
    // presence round trip
    assert forall|id2: u128, p2: u8, c2: Cidr|
        ((#[trigger] tr_index_of(t2, id2, p2, c2)) >= 0) == (tr_index_of(t0, id2, p2, c2) >= 0) by {
        lemma_round_trip_at(t0, t1, t2, id, proto, dest, rec, id2, p2, c2);
    }
    // membership round trip
    assert forall|id2: u128, p2: u8, c2: Cidr, x: PortRangeRecord|
        #[trigger] cur_mem(t2, id2, p2, c2, x) == cur_mem(t0, id2, p2, c2, x) by {
        lemma_round_trip_at(t0, t1, t2, id, proto, dest, rec, id2, p2, c2);
        assert(cur_mem(t2, id2, p2, c2, x) == ({
            let pk = tr_index_of(t1, id2, p2, c2);
            pk >= 0 && t1[pk].records@.contains(x) && !(x == rec && r_affected(
                &t1[pk],
                id,
                proto,
                dest,
                rec,
            ))
        }));
    }
    // compiled stores agree on every surviving key
    assert forall|id2: u128, p2: u8, c2: Cidr|
        tr_index_of(t0, id2, p2, c2) >= 0 implies #[trigger] spec_compile(
        rec_ranges(t2[tr_index_of(t2, id2, p2, c2)].records@),
    ) == spec_compile(rec_ranges(t0[tr_index_of(t0, id2, p2, c2)].records@)) by {
        let i0 = tr_index_of(t0, id2, p2, c2);
        assert(tr_index_of(t2, id2, p2, c2) >= 0);
        let i2 = tr_index_of(t2, id2, p2, c2);
        lemma_tr_index_of(t0, id2, p2, c2);
        lemma_tr_index_of(t2, id2, p2, c2);
        assert(entry_wf(&t0[i0]));
        assert(entry_wf(&t2[i2]));
        assert forall|x: PortRangeRecord|
            #[trigger] t2[i2].records@.contains(x) == t0[i0].records@.contains(x) by {
            assert(cur_mem(t2, id2, p2, c2, x) == cur_mem(t0, id2, p2, c2, x));
        }
        lemma_compile_same_set(t2[i2].records@, t0[i0].records@);
    }
}

/// The round trip at one key: its presence and membership before the
/// ingestion and after the withdrawal coincide.
proof fn lemma_round_trip_at(
    t0: Seq<RuleEntry>,
    t1: Seq<RuleEntry>,
    t2: Seq<RuleEntry>,
    id: u128,
    proto: u8,
    dest: Cidr,
    rec: PortRangeRecord,
    id2: u128,
    p2: u8,
    c2: Cidr,
)
    requires
        entries_wf(t0),
        entries_monotone(t0),
        concrete_proto(proto),
        dest.wf(),
        dest.is_norm(),
        rec.origin == dest,
        forall|i: int| 0 <= i < t0.len() ==> !(#[trigger] t0[i]).records@.contains(rec),
        tr_index_of(t0, id, proto, dest) >= 0 || (forall|j: int|
            0 <= j < t0.len() ==> !((#[trigger] t0[j]).id == id && t0[j].proto == proto
                && t0[j].cidr.contains_spec(&dest))),
        t1.len() == t0.len() + (if tr_index_of(t0, id, proto, dest) >= 0 {
            0int
        } else {
            1int
        }),
        forall|i: int|
            0 <= i < t0.len() ==> (#[trigger] t1[i]).id == t0[i].id && t1[i].proto == t0[i].proto
                && t1[i].cidr == t0[i].cidr,
        forall|i: int|
            0 <= i < t0.len() ==> (#[trigger] t1[i]).records@ == (if affected(
                &t0[i],
                id,
                proto,
                dest,
            ) {
                if t0[i].cidr == dest {
                    k0_candidate(t0, id, proto, dest, rec)
                } else {
                    other_candidate(t0[i].records@, rec)
                }
            } else {
                t0[i].records@
            }),
        tr_index_of(t0, id, proto, dest) < 0 ==> t1[t0.len() as int].id == id
            && t1[t0.len() as int].proto == proto && t1[t0.len() as int].cidr == dest
            && t1[t0.len() as int].records@ == k0_candidate(t0, id, proto, dest, rec),
        ((tr_index_of(t2, id2, p2, c2)) >= 0) == ({
            let pk = tr_index_of(t1, id2, p2, c2);
            pk >= 0 && !(r_affected(&t1[pk], id, proto, dest, rec) && r_empties(&t1[pk], rec))
        }),
        forall|x: PortRangeRecord|
            #[trigger] cur_mem(t2, id2, p2, c2, x) == ({
                let pk = tr_index_of(t1, id2, p2, c2);
                pk >= 0 && t1[pk].records@.contains(x) && !(x == rec && r_affected(
                    &t1[pk],
                    id,
                    proto,
                    dest,
                    rec,
                ))
            }),
    ensures
        ((tr_index_of(t2, id2, p2, c2)) >= 0) == (tr_index_of(t0, id2, p2, c2) >= 0),
        forall|x: PortRangeRecord|
            #[trigger] cur_mem(t2, id2, p2, c2, x) == cur_mem(t0, id2, p2, c2, x),
{
    let n = t0.len() as int;
    let k0 = tr_index_of(t0, id, proto, dest);
    lemma_tr_index_of(t0, id, proto, dest);
    lemma_tr_index_of(t0, id2, p2, c2);
    lemma_candidate_membership(t0, id, proto, dest, rec);
    lemma_spec_parents(t0, id, proto, dest);
    let k0cand = k0_candidate(t0, id, proto, dest, rec);
    let pk0 = tr_index_of(t0, id2, p2, c2);
    // the ingestion did not move any key
    let pk1 = tr_index_of(t1, id2, p2, c2);
    assert(pk1 == (if pk0 >= 0 {
        pk0
    } else {
        if k0 < 0 && id2 == id && p2 == proto && c2 == dest {
            n
        } else {
            -1int
        }
    })) by {
        let t1p = t1.take(n);
        lemma_tr_index_same_keys(t0, t1p, id2, p2, c2);
        if t1.len() == t0.len() {
            assert(t1p =~= t1);
        } else {
            assert(t1.take(t1.len() - 1) =~= t1p);
            lemma_tr_index_of(t1, id2, p2, c2);
            lemma_tr_index_of(t1p, id2, p2, c2);
            if !(id2 == id && p2 == proto && c2 == dest) {
                assert(!tr_matches(&t1[t1.len() - 1], id2, p2, c2));
                lemma_tr_index_of_push(t1, id2, p2, c2);
            } else {
                assert(k0 < 0);
                assert(tr_matches(&t1[t1.len() - 1], id2, p2, c2));
                assert(pk0 == -1);
                assert(tr_index_of(t1p, id2, p2, c2) == -1);
                assert forall|j: int| 0 <= j < t1.len() - 1 implies !tr_matches(
                    &(#[trigger] t1[j]),
                    id2,
                    p2,
                    c2,
                ) by {
                    assert(t1[j].id == t0[j].id && t1[j].proto == t0[j].proto && t1[j].cidr
                        == t0[j].cidr);
                    if tr_matches(&t1[j], id2, p2, c2) {
                        assert(tr_matches(&t0[j], id, proto, dest));
                    }
                }
                lemma_tr_index_of(t1, id2, p2, c2);
                if tr_index_of(t1, id2, p2, c2) < 0 {
                    assert(!tr_matches(&t1[t1.len() - 1], id2, p2, c2));
                }
                assert(tr_index_of(t1, id2, p2, c2) == n) by {
                    let r = tr_index_of(t1, id2, p2, c2);
                    assert(r >= 0);
                    assert(tr_matches(&t1[r], id2, p2, c2));
                    if r < n {
                        assert(!tr_matches(&t1[r], id2, p2, c2));
                    }
                }
            }
        }
    }
    if pk0 >= 0 {
        assert(entry_wf(&t0[pk0]));
        // what the key held after the ingestion
        if affected(&t0[pk0], id, proto, dest) {
            if t0[pk0].cidr == dest {
                assert(pk0 == k0) by {
                    assert(tr_matches(&t0[pk0], id, proto, dest));
                    if k0 != pk0 {
                        lemma_keys_unique_at(t0, k0, pk0);
                    }
                }
                assert(id2 == id && p2 == proto && c2 == dest);
                // inherited records were already materialised here
                assert forall|x: PortRangeRecord| #[trigger] k0cand.contains(x) implies (
                t0[pk0].records@.contains(x) || x == rec) by {
                    if inherited(t0, id, proto, dest, x) && x != rec && !t0[pk0].records@.contains(
                        x,
                    ) {
                        let b = choose|b: int|
                            0 <= b < t0.len() && (#[trigger] t0[b]).id == id && t0[b].proto
                                == proto && t0[b].cidr.contains_spec(&dest)
                                && t0[b].records@.contains(x);
                        if b != pk0 {
                            lemma_monotone_at(t0, b, pk0, x);
                        }
                    }
                }
                assert(t1[pk1].records@ == k0cand);
                assert(r_affected(&t1[pk1], id, proto, dest, rec)) by {
                    dest.lemma_contains_self();
                    assert(k0cand.contains(rec));
                }
                assert(!r_empties(&t1[pk1], rec)) by {
                    let w = t0[pk0].records@[0];
                    assert(t0[pk0].records@.contains(w));
                    assert(w != rec);
                    assert(k0cand.contains(w));
                }
                assert(tr_index_of(t2, id2, p2, c2) >= 0);
                assert forall|x: PortRangeRecord|
                    #[trigger] cur_mem(t2, id2, p2, c2, x) == cur_mem(t0, id2, p2, c2, x) by {
                    if x != rec {
                        assert(k0cand.contains(x) == t0[pk0].records@.contains(x));
                    }
                }
            } else {
                assert(t1[pk1].records@ == other_candidate(t0[pk0].records@, rec));
                lemma_other_candidate(t0[pk0].records@, rec);
                assert(r_affected(&t1[pk1], id, proto, dest, rec)) by {
                    assert(t1[pk1].records@.contains(rec));
                }
                assert(!r_empties(&t1[pk1], rec)) by {
                    let w = t0[pk0].records@[0];
                    assert(t0[pk0].records@.contains(w));
                    assert(w != rec);
                    assert(t1[pk1].records@.contains(w));
                }
                assert(tr_index_of(t2, id2, p2, c2) >= 0);
                assert forall|x: PortRangeRecord|
                    #[trigger] cur_mem(t2, id2, p2, c2, x) == cur_mem(t0, id2, p2, c2, x) by {
                    if x != rec {
                        assert(t1[pk1].records@.contains(x) == t0[pk0].records@.contains(x));
                    }
                }
            }
        } else {
            assert(t1[pk1].records@ == t0[pk0].records@);
            assert(!r_affected(&t1[pk1], id, proto, dest, rec) || !r_empties(&t1[pk1], rec)) by {
                if r_affected(&t1[pk1], id, proto, dest, rec) {
                    assert(t0[pk0].records@.contains(rec));
                }
            }
            assert(!r_affected(&t1[pk1], id, proto, dest, rec)) by {
                if t1[pk1].records@.contains(rec) {
                    assert(t0[pk0].records@.contains(rec));
                }
            }
            assert(tr_index_of(t2, id2, p2, c2) >= 0);
            assert forall|x: PortRangeRecord|
                #[trigger] cur_mem(t2, id2, p2, c2, x) == cur_mem(t0, id2, p2, c2, x) by {}
        }
    } else {
        // the key was absent; it is absent again afterwards
        if k0 < 0 && id2 == id && p2 == proto && c2 == dest {
            assert(pk1 == n);
            assert(t1[pk1].records@ == k0cand);
            // nothing broader feeds the fresh key, so it held only the record
            assert forall|x: PortRangeRecord| #[trigger] t1[pk1].records@.contains(x) implies x
                == rec by {
                if inherited(t0, id, proto, dest, x) {
                    let b = choose|b: int|
                        0 <= b < t0.len() && (#[trigger] t0[b]).id == id && t0[b].proto == proto
                            && t0[b].cidr.contains_spec(&dest) && t0[b].records@.contains(x);
                }
            }
            assert(r_empties(&t1[pk1], rec));
            assert(r_affected(&t1[pk1], id, proto, dest, rec)) by {
                dest.lemma_contains_self();
                assert(k0cand.contains(rec));
            }
            assert(tr_index_of(t2, id2, p2, c2) < 0);
            assert forall|x: PortRangeRecord|
                #[trigger] cur_mem(t2, id2, p2, c2, x) == cur_mem(t0, id2, p2, c2, x) by {
                assert(!cur_mem(t2, id2, p2, c2, x));
                assert(!cur_mem(t0, id2, p2, c2, x));
            }
        } else {
            assert(pk1 == -1);
            assert(tr_index_of(t2, id2, p2, c2) < 0);
            assert forall|x: PortRangeRecord|
                #[trigger] cur_mem(t2, id2, p2, c2, x) == cur_mem(t0, id2, p2, c2, x) by {
                assert(!cur_mem(t2, id2, p2, c2, x));
                assert(!cur_mem(t0, id2, p2, c2, x));
            }
        }
    }
}

/// The round trip seen from the data plane: with the tables paired to
/// the trackers, a restored tracker means a restored LPM table — every
/// key present before is present after with the same compiled contents,
/// and no other key is present.
pub proof fn lemma_round_trip_lpm(
    t0: &RuleTracker,
    s0: &LpmStore,
    t2: &RuleTracker,
    s2: &LpmStore,
    id: u128,
    proto: u8,
    dest: Cidr,
    rec: PortRangeRecord,
)
    requires
        t0.inv(s0),
        t2.inv(s2),
        forall|id2: u128, p2: u8, c2: Cidr|
            ((#[trigger] tr_index_of(t2.entries(), id2, p2, c2)) >= 0) == (tr_index_of(
                t0.entries(),
                id2,
                p2,
                c2,
            ) >= 0),
        forall|id2: u128, p2: u8, c2: Cidr|
            tr_index_of(t0.entries(), id2, p2, c2) >= 0 ==> #[trigger] spec_compile(
                rec_ranges(t2.entries()[tr_index_of(t2.entries(), id2, p2, c2)].records@),
            ) == spec_compile(
                rec_ranges(t0.entries()[tr_index_of(t0.entries(), id2, p2, c2)].records@),
            ),
    ensures
        forall|id2: u128, p2: u8, c2: Cidr|
            #[trigger] s2.spec_has_key(id2, p2, c2) == s0.spec_has_key(id2, p2, c2),
        forall|id2: u128, p2: u8, c2: Cidr|
            s0.spec_has_key(id2, p2, c2) ==> (#[trigger] s2.spec_get(id2, p2, c2))->0.ranges()
                == s0.spec_get(id2, p2, c2)->0.ranges(),
{
    assert forall|id2: u128, p2: u8, c2: Cidr|
        #[trigger] s2.spec_has_key(id2, p2, c2) == s0.spec_has_key(id2, p2, c2) by {
        lemma_aligned_index(t0.entries(), s0.entries(), id2, p2, c2);
        lemma_aligned_index(t2.entries(), s2.entries(), id2, p2, c2);
    }
    assert forall|id2: u128, p2: u8, c2: Cidr|
        s0.spec_has_key(id2, p2, c2) implies (#[trigger] s2.spec_get(id2, p2, c2))->0.ranges()
        == s0.spec_get(id2, p2, c2)->0.ranges() by {
        lemma_aligned_index(t0.entries(), s0.entries(), id2, p2, c2);
        lemma_aligned_index(t2.entries(), s2.entries(), id2, p2, c2);
        let i0 = tr_index_of(t0.entries(), id2, p2, c2);
        let i2 = tr_index_of(t2.entries(), id2, p2, c2);
        lemma_tr_index_of(t0.entries(), id2, p2, c2);
        lemma_tr_index_of(t2.entries(), id2, p2, c2);
        assert(s0.entries()[i0].store.ranges() == spec_compile(
            rec_ranges(t0.entries()[i0].records@),
        ));
        assert(s2.entries()[i2].store.ranges() == spec_compile(
            rec_ranges(t2.entries()[i2].records@),
        ));
    }
}

/// A record is inherited at `dest` exactly when some containing key
/// materialises it.
pub proof fn lemma_inherited_iff(
    t: Seq<RuleEntry>,
    id: u128,
    proto: u8,
    dest: Cidr,
    x: PortRangeRecord,
)
    requires
        keys_unique(t),
    ensures
        inherited(t, id, proto, dest, x) == (exists|c: Cidr|
            #[trigger] cur_mem(t, id, proto, c, x) && c.contains_spec(&dest)),
{
    if inherited(t, id, proto, dest, x) {
        let j = choose|j: int|
            0 <= j < t.len() && (#[trigger] t[j]).id == id && t[j].proto == proto
                && t[j].cidr.contains_spec(&dest) && t[j].records@.contains(x);
        lemma_tr_self_index(t, j);
        assert(cur_mem(t, id, proto, t[j].cidr, x) && t[j].cidr.contains_spec(&dest));
    }
    if exists|c: Cidr| #[trigger] cur_mem(t, id, proto, c, x) && c.contains_spec(&dest) {
        let c = choose|c: Cidr| #[trigger] cur_mem(t, id, proto, c, x) && c.contains_spec(&dest);
        let j = tr_index_of(t, id, proto, c);
        lemma_tr_index_of(t, id, proto, c);
        assert(t[j].id == id && t[j].proto == proto && t[j].cidr == c && t[j].records@.contains(x));
    }
}

/// What one ingested record does to one key, seen at the map level.
proof fn lemma_add_map_at(
    t0: Seq<RuleEntry>,
    t1: Seq<RuleEntry>,
    id: u128,
    proto: u8,
    dest: Cidr,
    rec: PortRangeRecord,
    id2: u128,
    p2: u8,
    c2: Cidr,
)
    requires
        entries_wf(t0),
        dest.wf(),
        dest.is_norm(),
        rec.origin == dest,
        t1.len() == t0.len() + (if tr_index_of(t0, id, proto, dest) >= 0 {
            0int
        } else {
            1int
        }),
        forall|i: int|
            0 <= i < t0.len() ==> (#[trigger] t1[i]).id == t0[i].id && t1[i].proto == t0[i].proto
                && t1[i].cidr == t0[i].cidr,
        forall|i: int|
            0 <= i < t0.len() ==> (#[trigger] t1[i]).records@ == (if affected(
                &t0[i],
                id,
                proto,
                dest,
            ) {
                if t0[i].cidr == dest {
                    k0_candidate(t0, id, proto, dest, rec)
                } else {
                    other_candidate(t0[i].records@, rec)
                }
            } else {
                t0[i].records@
            }),
        tr_index_of(t0, id, proto, dest) < 0 ==> t1[t0.len() as int].id == id
            && t1[t0.len() as int].proto == proto && t1[t0.len() as int].cidr == dest
            && t1[t0.len() as int].records@ == k0_candidate(t0, id, proto, dest, rec),
    ensures
        ((tr_index_of(t1, id2, p2, c2)) >= 0) == ((tr_index_of(t0, id2, p2, c2) >= 0) || (id2 == id
            && p2 == proto && c2 == dest)),
        forall|x: PortRangeRecord|
            #[trigger] cur_mem(t1, id2, p2, c2, x) == (cur_mem(t0, id2, p2, c2, x) || (id2 == id
                && p2 == proto && x == rec && (c2 == dest || (tr_index_of(t0, id2, p2, c2) >= 0
                && dest.contains_spec(&c2)))) || (id2 == id && p2 == proto && c2 == dest
                && inherited(t0, id, proto, dest, x))),
{
    let n = t0.len() as int;
    let k0 = tr_index_of(t0, id, proto, dest);
    lemma_tr_index_of(t0, id, proto, dest);
    lemma_tr_index_of(t0, id2, p2, c2);
    lemma_candidate_membership(t0, id, proto, dest, rec);
    lemma_spec_parents(t0, id, proto, dest);
    let k0cand = k0_candidate(t0, id, proto, dest, rec);
    let pk0 = tr_index_of(t0, id2, p2, c2);
    let pk1 = tr_index_of(t1, id2, p2, c2);
    // where the key sits after the ingestion
    assert(pk1 == (if pk0 >= 0 {
        pk0
    } else {
        if k0 < 0 && id2 == id && p2 == proto && c2 == dest {
            n
        } else {
            -1int
        }
    })) by {
        let t1p = t1.take(n);
        lemma_tr_index_same_keys(t0, t1p, id2, p2, c2);
        if t1.len() == t0.len() {
            assert(t1p =~= t1);
        } else {
            assert(t1.take(t1.len() - 1) =~= t1p);
            lemma_tr_index_of(t1, id2, p2, c2);
            lemma_tr_index_of(t1p, id2, p2, c2);
            if !(id2 == id && p2 == proto && c2 == dest) {
                assert(!tr_matches(&t1[t1.len() - 1], id2, p2, c2));
                lemma_tr_index_of_push(t1, id2, p2, c2);
            } else {
                assert(k0 < 0);
                assert(tr_matches(&t1[t1.len() - 1], id2, p2, c2));
                assert(pk0 == -1);
                assert forall|j: int| 0 <= j < t1.len() - 1 implies !tr_matches(
                    &(#[trigger] t1[j]),
                    id2,
                    p2,
                    c2,
                ) by {
                    assert(t1[j].id == t0[j].id && t1[j].proto == t0[j].proto && t1[j].cidr
                        == t0[j].cidr);
                    if tr_matches(&t1[j], id2, p2, c2) {
                        assert(tr_matches(&t0[j], id, proto, dest));
                    }
                }
                assert(tr_index_of(t1, id2, p2, c2) == n) by {
                    let r = tr_index_of(t1, id2, p2, c2);
                    if r < 0 {
                        assert(!tr_matches(&t1[t1.len() - 1], id2, p2, c2));
                    }
                    assert(r >= 0);
                    assert(tr_matches(&t1[r], id2, p2, c2));
                    if r < n {
                        assert(!tr_matches(&t1[r], id2, p2, c2));
                    }
                }
            }
        }
    }
    if k0 >= 0 && id2 == id && p2 == proto && c2 == dest {
        assert(pk0 == k0) by {
            if pk0 != k0 {
                lemma_keys_unique_at(t0, pk0, k0);
            }
            assert(tr_matches(&t0[k0], id2, p2, c2));
            if pk0 < 0 {
                assert(!tr_matches(&t0[k0], id2, p2, c2));
            }
        }
    }
    assert forall|x: PortRangeRecord|
        #[trigger] cur_mem(t1, id2, p2, c2, x) == (cur_mem(t0, id2, p2, c2, x) || (id2 == id && p2
            == proto && x == rec && (c2 == dest || (tr_index_of(t0, id2, p2, c2) >= 0
            && dest.contains_spec(&c2)))) || (id2 == id && p2 == proto && c2 == dest && inherited(
            t0,
            id,
            proto,
            dest,
            x,
        ))) by {
        if pk0 >= 0 {
            assert(entry_wf(&t0[pk0]));
            assert(t0[pk0].id == id2 && t0[pk0].proto == p2 && t0[pk0].cidr == c2);
            if affected(&t0[pk0], id, proto, dest) {
                assert(id2 == id && p2 == proto && dest.contains_spec(&c2));
                if t0[pk0].cidr == dest {
                    assert(pk0 == k0) by {
                        assert(tr_matches(&t0[pk0], id, proto, dest));
                        if k0 != pk0 {
                            lemma_keys_unique_at(t0, k0, pk0);
                        }
                    }
                    assert(t1[pk1].records@ == k0cand);
                } else {
                    assert(t1[pk1].records@ == other_candidate(t0[pk0].records@, rec));
                    lemma_other_candidate(t0[pk0].records@, rec);
                }
            } else {
                assert(t1[pk1].records@ == t0[pk0].records@);
                // none of the extra clauses can hold for an untouched key
                if id2 == id && p2 == proto {
                    if c2 == dest {
                        dest.lemma_contains_self();
                        assert(affected(&t0[pk0], id, proto, dest));
                    }
                    if dest.contains_spec(&c2) {
                        assert(affected(&t0[pk0], id, proto, dest));
                    }
                }
            }
        } else {
            assert(!cur_mem(t0, id2, p2, c2, x));
            if k0 < 0 && id2 == id && p2 == proto && c2 == dest {
                assert(pk1 == n);
                assert(t1[pk1].records@ == k0cand);
                assert(cur_mem(t1, id2, p2, c2, x) == k0cand.contains(x));
            } else {
                assert(pk1 < 0);
                assert(!cur_mem(t1, id2, p2, c2, x));
                if id2 == id && p2 == proto && c2 == dest {
                    assert(k0 >= 0);
                    assert(pk0 >= 0);
                }
            }
        }
    }
}

/// An ingestion under one protocol leaves what the other protocol
/// inherits untouched.
proof fn lemma_inherited_other_proto(
    t0: Seq<RuleEntry>,
    t1: Seq<RuleEntry>,
    id: u128,
    p1: u8,
    p2: u8,
    dest: Cidr,
    rec: PortRangeRecord,
)
    requires
        p1 != p2,
        entries_wf(t0),
        entries_wf(t1),
        dest.wf(),
        dest.is_norm(),
        rec.origin == dest,
        t1.len() == t0.len() + (if tr_index_of(t0, id, p1, dest) >= 0 {
            0int
        } else {
            1int
        }),
        forall|i: int|
            0 <= i < t0.len() ==> (#[trigger] t1[i]).id == t0[i].id && t1[i].proto == t0[i].proto
                && t1[i].cidr == t0[i].cidr,
        forall|i: int|
            0 <= i < t0.len() ==> (#[trigger] t1[i]).records@ == (if affected(&t0[i], id, p1, dest) {
                if t0[i].cidr == dest {
                    k0_candidate(t0, id, p1, dest, rec)
                } else {
                    other_candidate(t0[i].records@, rec)
                }
            } else {
                t0[i].records@
            }),
        tr_index_of(t0, id, p1, dest) < 0 ==> t1[t0.len() as int].id == id
            && t1[t0.len() as int].proto == p1 && t1[t0.len() as int].cidr == dest
            && t1[t0.len() as int].records@ == k0_candidate(t0, id, p1, dest, rec),
    ensures
        forall|x: PortRangeRecord|
            #[trigger] inherited(t1, id, p2, dest, x) == inherited(t0, id, p2, dest, x),
{
    assert forall|x: PortRangeRecord|
        #[trigger] inherited(t1, id, p2, dest, x) == inherited(t0, id, p2, dest, x) by {
        lemma_inherited_iff(t0, id, p2, dest, x);
        lemma_inherited_iff(t1, id, p2, dest, x);
        if inherited(t1, id, p2, dest, x) {
            let c = choose|c: Cidr| #[trigger] cur_mem(t1, id, p2, c, x) && c.contains_spec(&dest);
            lemma_add_map_at(t0, t1, id, p1, dest, rec, id, p2, c);
            assert(cur_mem(t0, id, p2, c, x));
        }
        if inherited(t0, id, p2, dest, x) {
            let c = choose|c: Cidr| #[trigger] cur_mem(t0, id, p2, c, x) && c.contains_spec(&dest);
            lemma_add_map_at(t0, t1, id, p1, dest, rec, id, p2, c);
            assert(cur_mem(t1, id, p2, c, x));
        }
    }
}

/// What one withdrawn record does to one key, seen at the map level;
/// keys under another protocol keep their row's contents.
proof fn lemma_remove_map_at(
    t0: Seq<RuleEntry>,
    t1: Seq<RuleEntry>,
    id: u128,
    p1: u8,
    dest: Cidr,
    rec: PortRangeRecord,
    id2: u128,
    p2: u8,
    c2: Cidr,
)
    requires
        entries_wf(t0),
        forall|ida: u128, pa: u8, ca: Cidr|
            ((#[trigger] tr_index_of(t1, ida, pa, ca)) >= 0) == ({
                let pk = tr_index_of(t0, ida, pa, ca);
                pk >= 0 && !(r_affected(&t0[pk], id, p1, dest, rec) && r_empties(&t0[pk], rec))
            }),
        forall|ida: u128, pa: u8, ca: Cidr, x: PortRangeRecord|
            #[trigger] cur_mem(t1, ida, pa, ca, x) == ({
                let pk = tr_index_of(t0, ida, pa, ca);
                pk >= 0 && t0[pk].records@.contains(x) && !(x == rec && r_affected(
                    &t0[pk],
                    id,
                    p1,
                    dest,
                    rec,
                ))
            }),
    ensures
        ((tr_index_of(t1, id2, p2, c2)) >= 0) == ({
            let pk = tr_index_of(t0, id2, p2, c2);
            pk >= 0 && !(p2 == p1 && r_affected(&t0[pk], id, p2, dest, rec) && r_empties(
                &t0[pk],
                rec,
            ))
        }),
        forall|x: PortRangeRecord|
            #[trigger] cur_mem(t1, id2, p2, c2, x) == ({
                let pk = tr_index_of(t0, id2, p2, c2);
                pk >= 0 && t0[pk].records@.contains(x) && !(x == rec && p2 == p1 && r_affected(
                    &t0[pk],
                    id,
                    p2,
                    dest,
                    rec,
                ))
            }),
        p2 != p1 && tr_index_of(t0, id2, p2, c2) >= 0 && tr_index_of(t1, id2, p2, c2) >= 0 ==> ({
            let pk0 = tr_index_of(t0, id2, p2, c2);
            let pk1 = tr_index_of(t1, id2, p2, c2);
            &&& (forall|x: PortRangeRecord|
                #[trigger] t1[pk1].records@.contains(x) == t0[pk0].records@.contains(x))
            &&& (forall|pb: u8|
                #[trigger] r_affected(&t1[pk1], id, pb, dest, rec) == r_affected(
                    &t0[pk0],
                    id,
                    pb,
                    dest,
                    rec,
                ))
            &&& r_empties(&t1[pk1], rec) == r_empties(&t0[pk0], rec)
        }),
{
    let pk0 = tr_index_of(t0, id2, p2, c2);
    let pk1 = tr_index_of(t1, id2, p2, c2);
    lemma_tr_index_of(t0, id2, p2, c2);
    lemma_tr_index_of(t1, id2, p2, c2);
    if pk0 >= 0 {
        assert(t0[pk0].id == id2 && t0[pk0].proto == p2 && t0[pk0].cidr == c2);
        // a withdrawal under `p1` only speaks of rows whose protocol is `p1`
        assert(r_affected(&t0[pk0], id, p1, dest, rec) == (p2 == p1 && r_affected(
            &t0[pk0],
            id,
            p2,
            dest,
            rec,
        )));
    }
    assert(((tr_index_of(t1, id2, p2, c2)) >= 0) == ({
        let pk = tr_index_of(t0, id2, p2, c2);
        pk >= 0 && !(p2 == p1 && r_affected(&t0[pk], id, p2, dest, rec) && r_empties(
            &t0[pk],
            rec,
        ))
    }));
    if pk1 >= 0 {
        assert(t1[pk1].id == id2 && t1[pk1].proto == p2 && t1[pk1].cidr == c2);
        assert forall|x: PortRangeRecord|
            #[trigger] t1[pk1].records@.contains(x) == cur_mem(t1, id2, p2, c2, x) by {}
    }
    if p2 != p1 && pk0 >= 0 && pk1 >= 0 {
        assert forall|x: PortRangeRecord|
            #[trigger] t1[pk1].records@.contains(x) == t0[pk0].records@.contains(x) by {
            assert(cur_mem(t1, id2, p2, c2, x) == ({
                let pk = tr_index_of(t0, id2, p2, c2);
                pk >= 0 && t0[pk].records@.contains(x) && !(x == rec && r_affected(
                    &t0[pk],
                    id,
                    p1,
                    dest,
                    rec,
                ))
            }));
        }
        assert forall|pb: u8|
            #[trigger] r_affected(&t1[pk1], id, pb, dest, rec) == r_affected(
            &t0[pk0],
            id,
            pb,
            dest,
            rec,
        ) by {
            assert(t1[pk1].records@.contains(rec) == t0[pk0].records@.contains(rec));
        }
        assert(r_empties(&t1[pk1], rec) == r_empties(&t0[pk0], rec)) by {
            if r_empties(&t0[pk0], rec) {
                assert forall|x: PortRangeRecord| #[trigger] t1[pk1].records@.contains(x) implies x
                    == rec by {
                    assert(t0[pk0].records@.contains(x));
                }
            }
            if r_empties(&t1[pk1], rec) {
                assert forall|x: PortRangeRecord| #[trigger] t0[pk0].records@.contains(x) implies x
                    == rec by {
                    assert(t1[pk1].records@.contains(x));
                }
            }
        }
    }
}

/// The round trip, from the published contracts alone: adding a fresh
/// rule and then removing it restores every key's presence and
/// membership.  The rule's record must be fresh, and under each
/// protocol it unfolds to its key must either exist already or inherit
/// nothing; a fresh key that broader keys feed keeps the inherited
/// copies after the removal.
pub proof fn lemma_rule_round_trip(
    t0: Seq<RuleEntry>,
    t1: Seq<RuleEntry>,
    t2: Seq<RuleEntry>,
    rule: &Rule,
)
    requires
        entries_wf(t0),
        entries_monotone(t0),
        rule.dest.wf(),
        // the record is fresh: no key holds it yet
        forall|id2: u128, p2: u8, c2: Cidr| !(#[trigger] cur_mem(t0, id2, p2, c2, add_rec(rule))),
        // under each applicable protocol the rule's key exists, or
        // nothing broader feeds it
        forall|p: u8|
            #[trigger] rule.spec_has_proto(p) ==> (tr_index_of(
                t0,
                rule.spec_gid(),
                p,
                rule.dest.norm_spec(),
            ) >= 0 || (forall|x: PortRangeRecord|
                !(#[trigger] inherited(t0, rule.spec_gid(), p, rule.dest.norm_spec(), x)))),
        // what `add_rule` published about `t1`
        forall|id2: u128, p2: u8, c2: Cidr|
            ((#[trigger] tr_index_of(t1, id2, p2, c2)) >= 0) == ((tr_index_of(t0, id2, p2, c2)
                >= 0) || (rule.spec_has_proto(p2) && id2 == rule.spec_gid() && c2
                == rule.dest.norm_spec())),
        forall|id2: u128, p2: u8, c2: Cidr, x: PortRangeRecord|
            #[trigger] cur_mem(t1, id2, p2, c2, x) == (cur_mem(t0, id2, p2, c2, x) || (
            rule.spec_has_proto(p2) && id2 == rule.spec_gid() && x == add_rec(rule) && (c2
                == rule.dest.norm_spec() || (tr_index_of(t0, id2, p2, c2) >= 0
                && rule.dest.norm_spec().contains_spec(&c2)))) || (rule.spec_has_proto(p2) && id2
                == rule.spec_gid() && c2 == rule.dest.norm_spec() && inherited(
                t0,
                rule.spec_gid(),
                p2,
                rule.dest.norm_spec(),
                x,
            ))),
        // what `remove_rule` published about `t2`
        forall|id2: u128, p2: u8, c2: Cidr|
            ((#[trigger] tr_index_of(t2, id2, p2, c2)) >= 0) == ({
                let pk = tr_index_of(t1, id2, p2, c2);
                pk >= 0 && !(rule.spec_has_proto(p2) && r_affected(
                    &t1[pk],
                    rule.spec_gid(),
                    p2,
                    rule.dest.norm_spec(),
                    add_rec(rule),
                ) && r_empties(&t1[pk], add_rec(rule)))
            }),
        forall|id2: u128, p2: u8, c2: Cidr, x: PortRangeRecord|
            #[trigger] cur_mem(t2, id2, p2, c2, x) == ({
                let pk = tr_index_of(t1, id2, p2, c2);
                pk >= 0 && t1[pk].records@.contains(x) && !(x == add_rec(rule)
                    && rule.spec_has_proto(p2) && r_affected(
                    &t1[pk],
                    rule.spec_gid(),
                    p2,
                    rule.dest.norm_spec(),
                    add_rec(rule),
                ))
            }),
    ensures
        forall|id2: u128, p2: u8, c2: Cidr|
            ((#[trigger] tr_index_of(t2, id2, p2, c2)) >= 0) == (tr_index_of(t0, id2, p2, c2)
                >= 0),
        forall|id2: u128, p2: u8, c2: Cidr, x: PortRangeRecord|
            #[trigger] cur_mem(t2, id2, p2, c2, x) == cur_mem(t0, id2, p2, c2, x),
{
    let gid = rule.spec_gid();
    let dnorm = rule.dest.norm_spec();
    let rec = add_rec(rule);
    lemma_norm_wf(rule.dest);
    assert forall|id2: u128, p2: u8, c2: Cidr|
        ((#[trigger] tr_index_of(t2, id2, p2, c2)) >= 0) == (tr_index_of(t0, id2, p2, c2) >= 0) by {
        lemma_rule_round_trip_at(t0, t1, t2, rule, id2, p2, c2);
    }
    assert forall|id2: u128, p2: u8, c2: Cidr, x: PortRangeRecord|
        #[trigger] cur_mem(t2, id2, p2, c2, x) == cur_mem(t0, id2, p2, c2, x) by {
        lemma_rule_round_trip_at(t0, t1, t2, rule, id2, p2, c2);
    }
}

/// The contract-level round trip at one key.
proof fn lemma_rule_round_trip_at(
    t0: Seq<RuleEntry>,
    t1: Seq<RuleEntry>,
    t2: Seq<RuleEntry>,
    rule: &Rule,
    id2: u128,
    p2: u8,
    c2: Cidr,
)
    requires
        entries_wf(t0),
        entries_monotone(t0),
        rule.dest.wf(),
        forall|ida: u128, pa: u8, ca: Cidr| !(#[trigger] cur_mem(t0, ida, pa, ca, add_rec(rule))),
        forall|p: u8|
            #[trigger] rule.spec_has_proto(p) ==> (tr_index_of(
                t0,
                rule.spec_gid(),
                p,
                rule.dest.norm_spec(),
            ) >= 0 || (forall|x: PortRangeRecord|
                !(#[trigger] inherited(t0, rule.spec_gid(), p, rule.dest.norm_spec(), x)))),
        forall|ida: u128, pa: u8, ca: Cidr|
            ((#[trigger] tr_index_of(t1, ida, pa, ca)) >= 0) == ((tr_index_of(t0, ida, pa, ca)
                >= 0) || (rule.spec_has_proto(pa) && ida == rule.spec_gid() && ca
                == rule.dest.norm_spec())),
        forall|ida: u128, pa: u8, ca: Cidr, x: PortRangeRecord|
            #[trigger] cur_mem(t1, ida, pa, ca, x) == (cur_mem(t0, ida, pa, ca, x) || (
            rule.spec_has_proto(pa) && ida == rule.spec_gid() && x == add_rec(rule) && (ca
                == rule.dest.norm_spec() || (tr_index_of(t0, ida, pa, ca) >= 0
                && rule.dest.norm_spec().contains_spec(&ca)))) || (rule.spec_has_proto(pa) && ida
                == rule.spec_gid() && ca == rule.dest.norm_spec() && inherited(
                t0,
                rule.spec_gid(),
                pa,
                rule.dest.norm_spec(),
                x,
            ))),
        forall|ida: u128, pa: u8, ca: Cidr|
            ((#[trigger] tr_index_of(t2, ida, pa, ca)) >= 0) == ({
                let pk = tr_index_of(t1, ida, pa, ca);
                pk >= 0 && !(rule.spec_has_proto(pa) && r_affected(
                    &t1[pk],
                    rule.spec_gid(),
                    pa,
                    rule.dest.norm_spec(),
                    add_rec(rule),
                ) && r_empties(&t1[pk], add_rec(rule)))
            }),
        forall|ida: u128, pa: u8, ca: Cidr, x: PortRangeRecord|
            #[trigger] cur_mem(t2, ida, pa, ca, x) == ({
                let pk = tr_index_of(t1, ida, pa, ca);
                pk >= 0 && t1[pk].records@.contains(x) && !(x == add_rec(rule)
                    && rule.spec_has_proto(pa) && r_affected(
                    &t1[pk],
                    rule.spec_gid(),
                    pa,
                    rule.dest.norm_spec(),
                    add_rec(rule),
                ))
            }),
    ensures
        ((tr_index_of(t2, id2, p2, c2)) >= 0) == (tr_index_of(t0, id2, p2, c2) >= 0),
        forall|x: PortRangeRecord|
            #[trigger] cur_mem(t2, id2, p2, c2, x) == cur_mem(t0, id2, p2, c2, x),
{
    let gid = rule.spec_gid();
    let dnorm = rule.dest.norm_spec();
    let rec = add_rec(rule);
    lemma_norm_wf(rule.dest);
    let pk0 = tr_index_of(t0, id2, p2, c2);
    let pk1 = tr_index_of(t1, id2, p2, c2);
    lemma_tr_index_of(t0, id2, p2, c2);
    lemma_tr_index_of(t1, id2, p2, c2);
    // the key the rule speaks of, under this protocol
    let touches = rule.spec_has_proto(p2) && id2 == gid && (c2 == dnorm || (pk0 >= 0
        && dnorm.contains_spec(&c2)));
    if pk1 >= 0 {
        assert(t1[pk1].id == id2 && t1[pk1].proto == p2 && t1[pk1].cidr == c2);
        assert(forall|x: PortRangeRecord|
            #[trigger] t1[pk1].records@.contains(x) == cur_mem(t1, id2, p2, c2, x));
    }
    if !touches {
        // untouched key: membership carried through both steps
        assert((pk1 >= 0) == (pk0 >= 0 || (rule.spec_has_proto(p2) && id2 == gid && c2 == dnorm)));
        assert forall|x: PortRangeRecord|
            #[trigger] cur_mem(t1, id2, p2, c2, x) == cur_mem(t0, id2, p2, c2, x) by {
            if cur_mem(t1, id2, p2, c2, x) && !cur_mem(t0, id2, p2, c2, x) {
                assert(rule.spec_has_proto(p2) && id2 == gid);
                if x == rec {
                    assert(c2 == dnorm || (pk0 >= 0 && dnorm.contains_spec(&c2)));
                }
            }
        }
        if pk1 >= 0 {
            assert(!r_affected(&t1[pk1], gid, p2, dnorm, rec)) by {
                if r_affected(&t1[pk1], gid, p2, dnorm, rec) {
                    assert(t1[pk1].records@.contains(rec));
                    assert(cur_mem(t1, id2, p2, c2, rec));
                    assert(cur_mem(t0, id2, p2, c2, rec));
                }
            }
        }
        assert((tr_index_of(t2, id2, p2, c2) >= 0) == (pk1 >= 0));
        assert((pk1 >= 0) == (pk0 >= 0)) by {
            if rule.spec_has_proto(p2) && id2 == gid && c2 == dnorm {
                assert(touches);
            }
        }
        assert forall|x: PortRangeRecord|
            #[trigger] cur_mem(t2, id2, p2, c2, x) == cur_mem(t0, id2, p2, c2, x) by {
            if pk1 >= 0 {
                assert(cur_mem(t2, id2, p2, c2, x) == cur_mem(t1, id2, p2, c2, x));
            } else {
                assert(!cur_mem(t2, id2, p2, c2, x));
                assert(!cur_mem(t1, id2, p2, c2, x));
            }
        }
    } else {
        // a key the rule touched: it gained exactly the record (its own
        // key also re-absorbs what it already inherited), and the
        // removal takes the record back out
        assert(pk1 >= 0);
        assert(cur_mem(t1, id2, p2, c2, rec));
        assert(r_affected(&t1[pk1], gid, p2, dnorm, rec)) by {
            if c2 == dnorm {
                dnorm.lemma_contains_self();
            }
        }
        if pk0 >= 0 {
            assert(entry_wf(&t0[pk0]));
            assert(t0[pk0].id == id2 && t0[pk0].proto == p2 && t0[pk0].cidr == c2);
            // a surviving witness: the key held something besides the record
            let w = t0[pk0].records@[0];
            assert(t0[pk0].records@.contains(w));
            assert(cur_mem(t0, id2, p2, c2, w));
            assert(w != rec);
            assert(cur_mem(t1, id2, p2, c2, w));
            assert(!r_empties(&t1[pk1], rec)) by {
                assert(t1[pk1].records@.contains(w));
            }
            assert((tr_index_of(t2, id2, p2, c2) >= 0) == (pk0 >= 0));
            // membership: anything inherited was already materialised
            assert forall|x: PortRangeRecord|
                #[trigger] cur_mem(t1, id2, p2, c2, x) == (cur_mem(t0, id2, p2, c2, x) || x
                    == rec) by {
                if cur_mem(t1, id2, p2, c2, x) && x != rec && !cur_mem(t0, id2, p2, c2, x) {
                    assert(c2 == dnorm && inherited(t0, gid, p2, dnorm, x));
                    let j = choose|j: int|
                        0 <= j < t0.len() && (#[trigger] t0[j]).id == gid && t0[j].proto == p2
                            && t0[j].cidr.contains_spec(&dnorm) && t0[j].records@.contains(x);
                    if j != pk0 {
                        lemma_monotone_at(t0, j, pk0, x);
                    }
                    assert(t0[pk0].records@.contains(x));
                }
            }
            assert forall|x: PortRangeRecord|
                #[trigger] cur_mem(t2, id2, p2, c2, x) == cur_mem(t0, id2, p2, c2, x) by {
                assert(cur_mem(t2, id2, p2, c2, x) == (t1[pk1].records@.contains(x) && !(x
                    == rec)));
                if x == rec {
                    assert(!cur_mem(t0, id2, p2, c2, x));
                }
            }
        } else {
            // the key was fresh: it held only the record, so it is gone
            assert(c2 == dnorm);
            assert(forall|x: PortRangeRecord| !(#[trigger] inherited(t0, gid, p2, dnorm, x)));
            assert forall|x: PortRangeRecord|
                #[trigger] cur_mem(t1, id2, p2, c2, x) implies x == rec by {
                if cur_mem(t0, id2, p2, c2, x) {
                    assert(pk0 >= 0);
                }
            }
            assert(r_empties(&t1[pk1], rec));
            assert(tr_index_of(t2, id2, p2, c2) < 0);
            assert forall|x: PortRangeRecord|
                #[trigger] cur_mem(t2, id2, p2, c2, x) == cur_mem(t0, id2, p2, c2, x) by {
                assert(!cur_mem(t2, id2, p2, c2, x));
                if cur_mem(t0, id2, p2, c2, x) {
                    assert(pk0 >= 0);
                }
            }
        }
    }
}

} // verus!
