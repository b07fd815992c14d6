//! The first-generation per-key store: unsorted `(start, end, proto)`
//! triples packed into 64-bit words, answered by a linear scan.
//!
//! The sorted `RuleStore` superseded it on the packet path; this store
//! remains the simple append-only variant, with the protocol carried in
//! each entry instead of the key.
use vstd::prelude::*;
use crate::rule_store::GENERIC_PROTO;

verus! {

/// Capacity of an `ActionStore`; past it the data plane's stack budget
/// is at risk.
pub const MAX_RULES: usize = 500;

/// Start of an encoded entry: bits 0 to 15.
pub open spec fn as_start(rule: u64) -> u16 {
    (rule & 0x0000_0000_0000_FFFF) as u16
}

/// End of an encoded entry: bits 16 to 31.
pub open spec fn as_end(rule: u64) -> u16 {
    ((rule & 0x0000_0000_FFFF_0000) >> 16) as u16
}

/// Protocol of an encoded entry: bits 40 to 47.
pub open spec fn as_proto(rule: u64) -> u8 {
    ((rule & 0x0000_FF00_0000_0000) >> 40) as u8
}

/// Packs an entry: `proto` at bit 40, `end` at bit 16, `start` at 0.
fn new_rule(start: u16, end: u16, proto: u8) -> (rule: u64)
    ensures
        as_start(rule) == start,
        as_end(rule) == end,
        as_proto(rule) == proto,
{
    let rule: u64 = ((proto as u64) << 40u64) | ((end as u64) << 16u64) | (start as u64);
    proof {
        let s = start as u64;
        let e = end as u64;
        let p = proto as u64;
        assert(s <= 0xFFFF && e <= 0xFFFF && p <= 0xFF ==> ((((p << 40u64) | (e << 16u64) | s)
            & 0x0000_0000_0000_FFFF)) == s) by (bit_vector);
        assert(s <= 0xFFFF && e <= 0xFFFF && p <= 0xFF ==> ((((p << 40u64) | (e << 16u64) | s)
            & 0x0000_0000_FFFF_0000) >> 16u64) == e) by (bit_vector);
        assert(s <= 0xFFFF && e <= 0xFFFF && p <= 0xFF ==> ((((p << 40u64) | (e << 16u64) | s)
            & 0x0000_FF00_0000_0000) >> 40u64) == p) by (bit_vector);
    }
    rule
}

/// Errors from filling an `ActionStore`.
#[derive(Clone, Copy, Debug, PartialEq, Eq, Structural, Hash)]
pub enum ActionStoreError {
    /// The store is full.
    Exhausted,
}

/// Fixed-size array of encoded entries plus a length.
#[derive(Clone, Copy, Debug)]
pub struct ActionStore {
    rules: [u64; 500],
    rules_len: u64,
}

impl Default for ActionStore {
    /// An empty store: matches nothing.
    fn default() -> (r: Self)
        ensures
            r.entries() =~= Seq::<(u16, u16, u8)>::empty(),
            r.wf(),
    {
        ActionStore { rules: [0u64; 500], rules_len: 0 }
    }
}

impl ActionStore {
    /// The `(start, end, proto)` triples the store holds.
    pub closed spec fn entries(&self) -> Seq<(u16, u16, u8)> {
        Seq::new(
            self.rules_len as nat,
            |i: int| (as_start(self.rules@[i]), as_end(self.rules@[i]), as_proto(self.rules@[i])),
        )
    }

    pub open spec fn wf(&self) -> bool {
        self.entries().len() <= MAX_RULES
    }

    /// Appends one entry; a full store refuses with `Exhausted` and
    /// keeps its contents.
    pub fn add(&mut self, start: u16, end: u16, proto: u8) -> (r: Result<(), ActionStoreError>)
        requires
            old(self).wf(),
        ensures
            final(self).wf(),
            old(self).entries().len() < MAX_RULES ==> r is Ok && final(self).entries() == old(
                self,
            ).entries().push((start, end, proto)),
            old(self).entries().len() >= MAX_RULES ==> r == Err::<(), ActionStoreError>(
                ActionStoreError::Exhausted,
            ) && final(self).entries() == old(self).entries(),
    {
        if self.rules_len < MAX_RULES as u64 {
            let i = self.rules_len as usize;
            self.rules[i] = new_rule(start, end, proto);
            self.rules_len = self.rules_len + 1;
            proof {
                assert(self.entries() =~= old(self).entries().push((start, end, proto)));
            }
            Ok(())
        } else {
            Err(ActionStoreError::Exhausted)
        }
    }

    /// Does some entry's protocol admit the packet's and its interval
    /// hold the port?  The reserved marker byte admits every protocol.
    pub open spec fn spec_lookup(&self, val: u16, proto: u8) -> bool {
        exists|i: int|
            0 <= i < self.entries().len() && ((#[trigger] self.entries()[i]).2 == GENERIC_PROTO
                || self.entries()[i].2 == proto) && self.entries()[i].0 <= val
                <= self.entries()[i].1
    }

    pub fn lookup(&self, val: u16, proto: u8) -> (r: bool)
        requires
            self.wf(),
        ensures
            r == self.spec_lookup(val, proto),
    {
        let n = self.rules_len as usize;
        let mut i: usize = 0;
        while i < n
            invariant
                n == self.entries().len(),
                n <= MAX_RULES,
                i <= n,
                forall|j: int|
                    0 <= j < i ==> !(((#[trigger] self.entries()[j]).2 == GENERIC_PROTO
                        || self.entries()[j].2 == proto) && self.entries()[j].0 <= val
                        <= self.entries()[j].1),
            decreases n - i,
        {
            let rule = self.rules[i];
            let p = ((rule & 0x0000_FF00_0000_0000) >> 40u64) as u8;
            let s = (rule & 0x0000_0000_0000_FFFF) as u16;
            let e = ((rule & 0x0000_0000_FFFF_0000) >> 16u64) as u16;
            proof {
                assert(self.entries()[i as int] == (
                    as_start(self.rules@[i as int]),
                    as_end(self.rules@[i as int]),
                    as_proto(self.rules@[i as int]),
                ));
            }
            if (p == GENERIC_PROTO || p == proto) && s <= val && val <= e {
                return true;
            }
            i = i + 1;
        }
        false
    }
}

} // verus!
