//! Compact per-key store of sorted, non-overlapping port ranges.
//!
//! A `RuleStore` is the value written into the LPM map for one
//! `(group, protocol, CIDR)` key: a fixed-capacity array of `u32` words,
//! each encoding a closed port range `[start, end]` as `(end << 16) | start`,
//! plus a length.  The data plane answers "does this destination port
//! match?" with a bounded binary search over the array.
use vstd::prelude::*;

verus! {

/// Capacity of a `RuleStore`: the largest number of disjoint ranges one
/// key can hold.  A trade-off between expressiveness and the fixed
/// per-value size copied in and out of the kernel map.
pub const MAX_RANGES: usize = 32;

/// The reserved protocol byte that marks a range as applying to both
/// TCP and UDP.
pub const GENERIC_PROTO: u8 = 0xFF;

/// The default verdict and its inversion are encoded with the traffic
/// control action numbers the kernel uses: `Accept` passes the packet on,
/// `Reject` drops it.
#[derive(Clone, Copy, Debug, PartialEq, Eq, Structural, Hash)]
pub enum Action {
    Accept,
    Reject,
}

impl Default for Action {
    /// Unset configuration means: drop.
    fn default() -> (r: Self)
        ensures
            r == Action::Reject,
    {
        Action::Reject
    }
}

impl Action {
    /// The verdict as the kernel's traffic-control code: 0 accepts the
    /// packet, 2 drops it.
    pub fn as_i32(&self) -> (r: i32)
        ensures
            r == self.spec_i32(),
    {
        match self {
            Action::Accept => 0,
            Action::Reject => 2,
        }
    }

    pub open spec fn spec_i32(&self) -> i32 {
        match self {
            Action::Accept => 0i32,
            Action::Reject => 2i32,
        }
    }

    /// Decodes a verdict from its wire value; anything but the two known
    /// action numbers is unknown.
    pub fn from_i32(v: i32) -> (r: Option<Action>)
        ensures
            v == 0 ==> r == Some(Action::Accept),
            v == 2 ==> r == Some(Action::Reject),
            v != 0 && v != 2 ==> r is None,
    {
        if v == 0 {
            Some(Action::Accept)
        } else if v == 2 {
            Some(Action::Reject)
        } else {
            None
        }
    }

    /// The verdict a matching rule produces: rules are exceptions to the
    /// default, so a match inverts it.
    pub fn invert(&self) -> (r: Action)
        ensures
            r == self.spec_invert(),
    {
        match self {
            Action::Accept => Action::Reject,
            Action::Reject => Action::Accept,
        }
    }

    pub open spec fn spec_invert(&self) -> Action {
        match self {
            Action::Accept => Action::Reject,
            Action::Reject => Action::Accept,
        }
    }
}

/// Start of an encoded range: the low 16 bits.
pub open spec fn spec_start(rule: u32) -> u16 {
    (rule & 0x0000_FFFF) as u16
}

/// End of an encoded range: the high 16 bits.
pub open spec fn spec_end(rule: u32) -> u16 {
    ((rule & 0xFFFF_0000) >> 16) as u16
}

pub fn start(rule: u32) -> (s: u16)
    ensures
        s == spec_start(rule),
{
    (rule & 0x0000_FFFF) as u16
}

pub fn end(rule: u32) -> (e: u16)
    ensures
        e == spec_end(rule),
{
    ((rule & 0xFFFF_0000) >> 16) as u16
}

/// Packs a closed range `[s, e]` into one word: `(e << 16) | s`.
pub fn new_rule(s: u16, e: u16) -> (rule: u32)
    ensures
        spec_start(rule) == s,
        spec_end(rule) == e,
{
    let rule: u32 = ((e as u32) << 16u32) | (s as u32);
    proof {
        let s32 = s as u32;
        let e32 = e as u32;
        assert(s32 <= 0xFFFF && e32 <= 0xFFFF ==> (((e32 << 16u32) | s32) & 0x0000_FFFF)
            == s32) by (bit_vector);
        assert(s32 <= 0xFFFF && e32 <= 0xFFFF ==> ((((e32 << 16u32) | s32) & 0xFFFF_0000) >> 16u32)
            == e32) by (bit_vector);
    }
    rule
}

/// Well-formed contents: every range is a real interval and the ranges
/// are pairwise disjoint in ascending order.
pub open spec fn wf_ranges(s: Seq<(u16, u16)>) -> bool {
    &&& forall|i: int| 0 <= i < s.len() ==> (#[trigger] s[i]).0 <= s[i].1
    &&& forall|i: int, j: int| 0 <= i < j < s.len() ==> (#[trigger] s[i]).1 < (#[trigger] s[j]).0
}

/// Port `val` lies in one of the ranges.
pub open spec fn covers(s: Seq<(u16, u16)>, val: u16) -> bool {
    exists|i: int| 0 <= i < s.len() && (#[trigger] s[i]).0 <= val <= s[i].1
}

/// A store whose first range starts at 0 matches every port.
pub open spec fn is_universal(s: Seq<(u16, u16)>) -> bool {
    s.len() > 0 && s[0].0 == 0
}

/// What a lookup answers: the universal store matches everything; port 0
/// (a packet that is not TCP/UDP) matches only the universal store; any
/// other port matches iff some range covers it.
pub open spec fn spec_lookup(s: Seq<(u16, u16)>, val: u16) -> bool {
    if is_universal(s) {
        true
    } else if val == 0 {
        false
    } else {
        covers(s, val)
    }
}

/// Errors from building a `RuleStore`.
#[derive(Clone, Copy, Debug, PartialEq, Eq, Structural, Hash)]
pub enum RuleStoreError {
    /// More ranges than the store can hold.
    Exhausted,
    /// Input not sorted, not disjoint, or an inverted interval.
    MalFormed,
}

/// Fixed-size array of encoded port ranges plus a length; the value type
/// of the LPM map, copied by value with no pointers inside.
#[derive(Clone, Copy, Debug)]
pub struct RuleStore {
    rules: [u32; 32],
    rules_len: u32,
}

impl RuleStore {
    /// The ranges the store holds, as a sequence of `(start, end)` pairs.
    pub closed spec fn ranges(&self) -> Seq<(u16, u16)> {
        Seq::new(self.rules_len as nat, |i: int| (spec_start(self.rules@[i]), spec_end(self.rules@[i])))
    }

    /// Structural invariant: the length is in bounds and the contents are
    /// sorted and disjoint.
    pub open spec fn wf(&self) -> bool {
        self.ranges().len() <= MAX_RANGES && wf_ranges(self.ranges())
    }

    pub fn len(&self) -> (n: usize)
        ensures
            n == self.ranges().len(),
    {
        self.rules_len as usize
    }

    /// The raw words of the fixed layout, padding included, for copying
    /// the store into the kernel map.
    pub fn words(&self) -> (r: Vec<u32>)
        requires
            self.wf(),
        ensures
            r@ == self.spec_words(),
            r@.len() == MAX_RANGES,
            forall|i: int|
                0 <= i < self.ranges().len() ==> spec_start(#[trigger] r@[i])
                    == self.ranges()[i].0 && spec_end(r@[i]) == self.ranges()[i].1,
    {
        let mut r: Vec<u32> = Vec::new();
        let mut i: usize = 0;
        while i < MAX_RANGES
            invariant
                i <= MAX_RANGES,
                r@.len() == i,
                forall|j: int| 0 <= j < i ==> #[trigger] r@[j] == self.spec_words()[j],
            decreases MAX_RANGES - i,
        {
            r.push(self.rules[i]);
            i = i + 1;
        }
        proof {
            assert(r@ =~= self.spec_words());
            assert forall|k: int| 0 <= k < self.ranges().len() implies spec_start(
                #[trigger] r@[k],
            ) == self.ranges()[k].0 && spec_end(r@[k]) == self.ranges()[k].1 by {
                assert(r@[k] == self.spec_words()[k]);
                assert(self.ranges()[k] == (spec_start(self.spec_words()[k]), spec_end(self.spec_words()[k])));
            }
        }
        r
    }

    pub closed spec fn spec_words(&self) -> Seq<u32> {
        self.rules@
    }

    /// An empty store: matches nothing.
    pub fn empty() -> (r: RuleStore)
        ensures
            r.wf(),
            r.ranges() =~= Seq::<(u16, u16)>::empty(),
    {
        RuleStore { rules: [0u32; 32], rules_len: 0 }
    }

    /// Builds a store from already sorted, disjoint ranges.
    ///
    /// Succeeds iff the input fits and is well formed; on failure nothing
    /// is built: too many ranges is `Exhausted`, anything unsorted,
    /// overlapping or inverted is `MalFormed`.
    pub fn new(ports: &Vec<(u16, u16)>) -> (r: Result<RuleStore, RuleStoreError>)
        ensures
            match r {
                Ok(st) => {
                    &&& ports@.len() <= MAX_RANGES
                    &&& wf_ranges(ports@)
                    &&& st.wf()
                    &&& st.ranges() =~= ports@
                },
                Err(RuleStoreError::Exhausted) => ports@.len() > MAX_RANGES,
                Err(RuleStoreError::MalFormed) => ports@.len() <= MAX_RANGES && !wf_ranges(ports@),
            },
    {
        if ports.len() > MAX_RANGES {
            return Err(RuleStoreError::Exhausted);
        }
        if !Self::wellformed(ports) {
            return Err(RuleStoreError::MalFormed);
        }
        let mut rules: [u32; 32] = [0u32; 32];
        let mut i: usize = 0;
        while i < ports.len()
            invariant
                ports@.len() <= MAX_RANGES,
                i <= ports@.len(),
                forall|j: int| 0 <= j < i ==> spec_start(#[trigger] rules@[j]) == ports@[j].0
                    && spec_end(rules@[j]) == ports@[j].1,
            decreases ports@.len() - i,
        {
            let (s, e) = ports[i];
            rules[i] = new_rule(s, e);
            i = i + 1;
        }
        let st = RuleStore { rules, rules_len: ports.len() as u32 };
        assert(st.ranges() =~= ports@);
        Ok(st)
    }

    /// Checks that the ranges are sorted, disjoint intervals.  Only
    /// adjacent pairs are compared; disjointness of every pair follows.
    fn wellformed(ports: &Vec<(u16, u16)>) -> (r: bool)
        ensures
            r == wf_ranges(ports@),
    {
        let n = ports.len();
        let mut i: usize = 0;
        while i < n
            invariant
                n == ports@.len(),
                i <= n,
                forall|j: int| 0 <= j < i ==> (#[trigger] ports@[j]).0 <= ports@[j].1,
                forall|j: int| 0 < j < i ==> (#[trigger] ports@[j - 1]).1 < ports@[j].0,
            decreases n - i,
        {
            let (s, e) = ports[i];
            if e < s {
                return false;
            }
            if i > 0 && ports[i - 1].1 >= s {
                return false;
            }
            i = i + 1;
        }
        proof {
            lemma_adjacent_disjoint_is_pairwise(ports@);
        }
        true
    }

    /// Does port `val` match this store?  Exactly `spec_lookup`: the
    /// universal store matches all ports, port 0 matches only it, and any
    /// other port matches iff a stored range covers it.
    pub fn lookup(&self, val: u16) -> (r: bool)
        requires
            self.wf(),
        ensures
            r == spec_lookup(self.ranges(), val),
    {
        let len = self.rules_len as usize;
        if len > 0 && start(self.rules[0]) == 0 {
            return true;
        }
        if val == 0 {
            return false;
        }
        // Binary search for the partition point: the first index whose
        // range starts above `val`.
        let ghost s = self.ranges();
        let mut left: usize = 0;
        let mut right: usize = len;
        while left < right
            invariant
                len == s.len(),
                len <= MAX_RANGES,
                s == self.ranges(),
                wf_ranges(s),
                left <= right <= len,
                forall|j: int| 0 <= j < left ==> (#[trigger] s[j]).0 <= val,
                forall|j: int| right <= j < len ==> (#[trigger] s[j]).0 > val,
            decreases right - left,
        {
            let mid = left + (right - left) / 2;
            if start(self.rules[mid]) <= val {
                proof {
                    assert forall|j: int| 0 <= j < mid + 1 implies (#[trigger] s[j]).0 <= val by {
                        if j < mid {
                            assert(s[j].1 < s[mid as int].0);
                            assert(s[j].0 <= s[j].1);
                        }
                    }
                }
                left = mid + 1;
            } else {
                proof {
                    assert forall|j: int| mid <= j < len implies (#[trigger] s[j]).0 > val by {
                        if j > mid {
                            assert(s[mid as int].1 < s[j].0);
                            assert(s[mid as int].0 <= s[mid as int].1);
                        }
                    }
                }
                right = mid;
            }
        }
        if left == 0 {
            assert(!covers(s, val));
            false
        } else {
            let r = end(self.rules[left - 1]) >= val;
            proof {
                if r {
                    assert(s[left - 1].0 <= val <= s[left - 1].1);
                } else {
                    assert forall|i: int| 0 <= i < s.len() implies !((#[trigger] s[i]).0 <= val
                        <= s[i].1) by {
                        if i < left - 1 {
                            assert(s[i].1 < s[left - 1].0);
                            assert(s[left - 1].0 <= s[left - 1].1);
                        }
                    }
                }
            }
            r
        }
    }
}

/// Disjointness of each adjacent pair, with every range an interval,
/// gives disjointness of every pair.
proof fn lemma_adjacent_disjoint_is_pairwise(s: Seq<(u16, u16)>)
    requires
        forall|i: int| 0 <= i < s.len() ==> (#[trigger] s[i]).0 <= s[i].1,
        forall|j: int| 0 < j < s.len() ==> (#[trigger] s[j - 1]).1 < s[j].0,
    ensures
        wf_ranges(s),
{
    assert forall|i: int, j: int| 0 <= i < j < s.len() implies (#[trigger] s[i]).1 < (
    #[trigger] s[j]).0 by {
        lemma_chain(s, i, j);
    }
}

proof fn lemma_chain(s: Seq<(u16, u16)>, i: int, j: int)
    requires
        forall|k: int| 0 <= k < s.len() ==> (#[trigger] s[k]).0 <= s[k].1,
        forall|k: int| 0 < k < s.len() ==> (#[trigger] s[k - 1]).1 < s[k].0,
        0 <= i < j < s.len(),
    ensures
        s[i].1 < s[j].0,
    decreases j - i,
{
    if j == i + 1 {
        assert(s[j - 1].1 < s[j].0);
    } else {
        lemma_chain(s, i, j - 1);
        assert(s[j - 1].1 < s[j].0);
    }
}

} // verus!
