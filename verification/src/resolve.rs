//! Overlap resolution: compiling a collection of possibly overlapping
//! port ranges into the sorted, disjoint form a `RuleStore` holds.
//!
//! The compiler sorts the ranges by start and sweeps left to right,
//! merging every range that overlaps the running one.  The result covers
//! exactly the same ports as the input, so the compiled form depends only
//! on the union of the intervals, not on the order they were added in.
use vstd::prelude::*;
use vstd::relations::{sorted_by, total_ordering};
use vstd::multiset::Multiset;
use crate::rule_store::{covers, is_universal, spec_lookup, wf_ranges};

verus! {

/// Every range is a real closed interval.
pub open spec fn valid_ranges(s: Seq<(u16, u16)>) -> bool {
    forall|i: int| 0 <= i < s.len() ==> (#[trigger] s[i]).0 <= s[i].1
}

/// The order ranges are sorted in before the sweep: by start, ties by end.
pub open spec fn range_le(a: (u16, u16), b: (u16, u16)) -> bool {
    a.0 < b.0 || (a.0 == b.0 && a.1 <= b.1)
}

/// `range_le` as a first-class relation, for sorting.
pub open spec fn range_order() -> spec_fn((u16, u16), (u16, u16)) -> bool {
    |a: (u16, u16), b: (u16, u16)| range_le(a, b)
}

pub proof fn lemma_range_order_total()
    ensures
        total_ordering(range_order()),
{
}

/// In a sorted sequence every element starts no earlier than the first.
proof fn lemma_sorted_first(s: Seq<(u16, u16)>)
    requires
        sorted_by(s, range_order()),
    ensures
        forall|i: int| 1 <= i < s.len() ==> s[0].0 <= (#[trigger] s[i]).0,
{
    assert forall|i: int| 1 <= i < s.len() implies s[0].0 <= (#[trigger] s[i]).0 by {
        assert(range_order()(s[0], s[i]));
    }
}

pub open spec fn max_end(a: u16, b: u16) -> u16 {
    if a >= b {
        a
    } else {
        b
    }
}

/// The sweep over an already sorted sequence, carrying the ranges
/// emitted so far; the running range is the last element of `acc`.
pub open spec fn sweep_from(s: Seq<(u16, u16)>, acc: Seq<(u16, u16)>) -> Seq<(u16, u16)>
    decreases s.len(),
{
    if s.len() == 0 {
        acc
    } else if acc.len() == 0 {
        sweep_from(s.drop_first(), seq![s[0]])
    } else {
        let cur = s[0];
        let last = acc[acc.len() - 1];
        if cur.0 <= last.1 {
            sweep_from(s.drop_first(), acc.update(acc.len() - 1, (last.0, max_end(last.1, cur.1))))
        } else {
            sweep_from(s.drop_first(), acc.push(cur))
        }
    }
}

/// The sweep applied to a sorted sequence.
pub open spec fn spec_resolve(s: Seq<(u16, u16)>) -> Seq<(u16, u16)> {
    sweep_from(s, Seq::empty())
}

pub open spec fn spec_sort(s: Seq<(u16, u16)>) -> Seq<(u16, u16)> {
    s.sort_by(range_order())
}

/// What compilation of a rule set means: sort, sweep.
pub open spec fn spec_compile(recs: Seq<(u16, u16)>) -> Seq<(u16, u16)> {
    spec_resolve(spec_sort(recs))
}

/// A port is covered by a nonempty sequence iff the first range covers it
/// or the rest does.
proof fn lemma_covers_decompose(s: Seq<(u16, u16)>, p: u16)
    requires
        s.len() > 0,
    ensures
        covers(s, p) == (s[0].0 <= p <= s[0].1 || covers(s.drop_first(), p)),
{
    let rest = s.drop_first();
    if covers(s, p) {
        let i = choose|i: int| 0 <= i < s.len() && (#[trigger] s[i]).0 <= p <= s[i].1;
        if i > 0 {
            assert(rest[i - 1].0 <= p <= rest[i - 1].1);
        }
    }
    if covers(rest, p) {
        let i = choose|i: int| 0 <= i < rest.len() && (#[trigger] rest[i]).0 <= p <= rest[i].1;
        assert(s[i + 1].0 <= p <= s[i + 1].1);
    }
}

proof fn lemma_covers_push(s: Seq<(u16, u16)>, x: (u16, u16), p: u16)
    ensures
        covers(s.push(x), p) == (covers(s, p) || x.0 <= p <= x.1),
{
    let t = s.push(x);
    if covers(t, p) {
        let i = choose|i: int| 0 <= i < t.len() && (#[trigger] t[i]).0 <= p <= t[i].1;
        if i < s.len() {
            assert(s[i].0 <= p <= s[i].1);
        }
    }
    if covers(s, p) {
        let i = choose|i: int| 0 <= i < s.len() && (#[trigger] s[i]).0 <= p <= s[i].1;
        assert(t[i].0 <= p <= t[i].1);
    }
    if x.0 <= p <= x.1 {
        assert(t[s.len() as int].0 <= p <= t[s.len() as int].1);
    }
}

/// One point of the sweep's coverage: a port is covered by the sweep's
/// result iff the accumulator or the remaining input covers it.
proof fn lemma_sweep_covers(s: Seq<(u16, u16)>, acc: Seq<(u16, u16)>, p: u16)
    requires
        valid_ranges(s),
        sorted_by(s, range_order()),
        wf_ranges(acc),
        acc.len() > 0,
        forall|i: int| 0 <= i < s.len() ==> acc[acc.len() - 1].0 <= (#[trigger] s[i]).0,
    ensures
        covers(sweep_from(s, acc), p) == (covers(acc, p) || covers(s, p)),
    decreases s.len(),
{
    if s.len() == 0 {
        assert(!covers(s, p));
    } else {
        let cur = s[0];
        let last = acc[acc.len() - 1];
        let rest = s.drop_first();
        assert(valid_ranges(rest) && sorted_by(rest, range_order())) by {
            assert(forall|i: int| 0 <= i < rest.len() ==> rest[i] == s[i + 1]);
        }
        assert(cur.0 <= cur.1);
        lemma_covers_decompose(s, p);
        if cur.0 <= last.1 {
            let merged = (last.0, max_end(last.1, cur.1));
            let acc2 = acc.update(acc.len() - 1, merged);
            assert(wf_ranges(acc2)) by {
                assert(forall|j: int| 0 <= j < acc.len() - 1 ==> acc2[j] == acc[j]);
                assert(acc2[acc.len() - 1].0 == last.0 && acc2[acc.len() - 1].1 >= last.1);
            }
            assert(forall|i: int| 0 <= i < rest.len() ==> acc2[acc2.len() - 1].0 <= (
            #[trigger] rest[i]).0) by {
                assert(forall|i: int| 0 <= i < rest.len() ==> rest[i] == s[i + 1]);
            }
            lemma_sweep_covers(rest, acc2, p);
            assert(sweep_from(s, acc) == sweep_from(rest, acc2));
            assert(covers(acc2, p) == (covers(acc, p) || cur.0 <= p <= cur.1)) by {
                if covers(acc2, p) {
                    let i = choose|i: int|
                        0 <= i < acc2.len() && (#[trigger] acc2[i]).0 <= p <= acc2[i].1;
                    if i < acc.len() - 1 {
                        assert(acc[i].0 <= p <= acc[i].1);
                    } else {
                        if p <= last.1 {
                            assert(acc[i].0 <= p <= acc[i].1);
                        } else {
                            assert(cur.0 <= p <= cur.1);
                        }
                    }
                }
                if covers(acc, p) {
                    let i = choose|i: int|
                        0 <= i < acc.len() && (#[trigger] acc[i]).0 <= p <= acc[i].1;
                    assert(acc2[i].0 <= p <= acc2[i].1);
                }
                if cur.0 <= p <= cur.1 {
                    assert(acc2[acc.len() - 1].0 <= p <= acc2[acc.len() - 1].1);
                }
            }
        } else {
            let acc2 = acc.push(cur);
            assert(wf_ranges(acc2)) by {
                assert forall|i: int, j: int| 0 <= i < j < acc2.len() implies (
                #[trigger] acc2[i]).1 < (#[trigger] acc2[j]).0 by {
                    if j == acc2.len() - 1 && i < acc.len() - 1 {
                        assert(acc[i].1 < acc[acc.len() - 1].0);
                        assert(acc[acc.len() - 1].0 <= acc[acc.len() - 1].1);
                    }
                }
            }
            assert(forall|i: int| 0 <= i < rest.len() ==> acc2[acc2.len() - 1].0 <= (
            #[trigger] rest[i]).0) by {
                assert(forall|i: int| 0 <= i < rest.len() ==> rest[i] == s[i + 1]);
                lemma_sorted_first(s);
            }
            lemma_sweep_covers(rest, acc2, p);
            assert(sweep_from(s, acc) == sweep_from(rest, acc2));
            lemma_covers_push(acc, cur, p);
        }
    }
}

/// The sweep's structure: starting from a well-formed accumulator whose
/// running range starts no later than anything left to sweep, the result
/// is well formed and keeps the emitted prefix.
proof fn lemma_sweep_from(s: Seq<(u16, u16)>, acc: Seq<(u16, u16)>)
    requires
        valid_ranges(s),
        sorted_by(s, range_order()),
        wf_ranges(acc),
        acc.len() > 0,
        forall|i: int| 0 <= i < s.len() ==> acc[acc.len() - 1].0 <= (#[trigger] s[i]).0,
    ensures
        wf_ranges(sweep_from(s, acc)),
        acc.len() <= sweep_from(s, acc).len() <= acc.len() + s.len(),
        forall|j: int| 0 <= j < acc.len() - 1 ==> sweep_from(s, acc)[j] == acc[j],
        sweep_from(s, acc)[acc.len() - 1].0 == acc[acc.len() - 1].0,
    decreases s.len(),
{
    if s.len() == 0 {
    } else {
        let cur = s[0];
        let last = acc[acc.len() - 1];
        let rest = s.drop_first();
        assert(valid_ranges(rest) && sorted_by(rest, range_order())) by {
            assert(forall|i: int| 0 <= i < rest.len() ==> rest[i] == s[i + 1]);
        }
        assert(cur.0 <= cur.1);
        if cur.0 <= last.1 {
            let merged = (last.0, max_end(last.1, cur.1));
            let acc2 = acc.update(acc.len() - 1, merged);
            assert(wf_ranges(acc2)) by {
                assert(forall|j: int| 0 <= j < acc.len() - 1 ==> acc2[j] == acc[j]);
                assert(acc2[acc.len() - 1].0 == last.0 && acc2[acc.len() - 1].1 >= last.1);
            }
            assert(forall|i: int| 0 <= i < rest.len() ==> acc2[acc2.len() - 1].0 <= (
            #[trigger] rest[i]).0) by {
                assert(forall|i: int| 0 <= i < rest.len() ==> rest[i] == s[i + 1]);
            }
            lemma_sweep_from(rest, acc2);
            assert(sweep_from(s, acc) == sweep_from(rest, acc2));
            assert forall|j: int| 0 <= j < acc.len() - 1 implies sweep_from(s, acc)[j] == acc[j] by {
                assert(sweep_from(rest, acc2)[j] == acc2[j]);
                assert(acc2[j] == acc[j]);
            }
            assert(sweep_from(s, acc)[acc.len() - 1].0 == acc[acc.len() - 1].0) by {
                assert(sweep_from(rest, acc2)[acc2.len() - 1].0 == acc2[acc2.len() - 1].0);
            }
        } else {
            let acc2 = acc.push(cur);
            assert(wf_ranges(acc2)) by {
                assert forall|i: int, j: int| 0 <= i < j < acc2.len() implies (
                #[trigger] acc2[i]).1 < (#[trigger] acc2[j]).0 by {
                    if j == acc2.len() - 1 && i < acc.len() - 1 {
                        assert(acc[i].1 < acc[acc.len() - 1].0);
                        assert(acc[acc.len() - 1].0 <= acc[acc.len() - 1].1);
                    }
                }
            }
            assert(forall|i: int| 0 <= i < rest.len() ==> acc2[acc2.len() - 1].0 <= (
            #[trigger] rest[i]).0) by {
                assert(forall|i: int| 0 <= i < rest.len() ==> rest[i] == s[i + 1]);
                lemma_sorted_first(s);
            }
            lemma_sweep_from(rest, acc2);
            assert(sweep_from(s, acc) == sweep_from(rest, acc2));
            assert forall|j: int| 0 <= j < acc.len() - 1 implies sweep_from(s, acc)[j] == acc[j] by {
                assert(sweep_from(rest, acc2)[j] == acc2[j]);
                assert(acc2[j] == acc[j]);
            }
            assert(sweep_from(s, acc)[acc.len() - 1].0 == acc[acc.len() - 1].0) by {
                assert(sweep_from(rest, acc2)[acc.len() - 1] == acc2[acc.len() - 1]);
                assert(acc2[acc.len() - 1] == acc[acc.len() - 1]);
            }
        }
    }
}

/// Resolution of a sorted sequence: well formed, no longer than the
/// input, covering the same ports, and starting where the input starts.
pub proof fn lemma_resolve(s: Seq<(u16, u16)>)
    requires
        valid_ranges(s),
        sorted_by(s, range_order()),
    ensures
        wf_ranges(spec_resolve(s)),
        spec_resolve(s).len() <= s.len(),
        forall|p: u16| #[trigger] covers(spec_resolve(s), p) == covers(s, p),
        s.len() == 0 ==> spec_resolve(s) =~= Seq::<(u16, u16)>::empty(),
        s.len() > 0 ==> spec_resolve(s).len() > 0 && spec_resolve(s)[0].0 == s[0].0,
    decreases s.len(),
{
    if s.len() == 0 {
        assert(forall|p: u16| !covers(s, p));
    } else {
        let rest = s.drop_first();
        let acc = seq![s[0]];
        assert(valid_ranges(rest) && sorted_by(rest, range_order())) by {
            assert(forall|i: int| 0 <= i < rest.len() ==> rest[i] == s[i + 1]);
        }
        assert(forall|i: int| 0 <= i < rest.len() ==> acc[0].0 <= (#[trigger] rest[i]).0) by {
            assert(forall|i: int| 0 <= i < rest.len() ==> rest[i] == s[i + 1]);
            lemma_sorted_first(s);
        }
        lemma_sweep_from(rest, acc);
        assert(spec_resolve(s) == sweep_from(rest, acc));
        assert forall|p: u16| #[trigger] covers(spec_resolve(s), p) == covers(s, p) by {
            lemma_covers_decompose(s, p);
            lemma_sweep_covers(rest, acc, p);
            assert(covers(acc, p) == (s[0].0 <= p <= s[0].1)) by {
                if covers(acc, p) {
                    let i = choose|i: int|
                        0 <= i < acc.len() && (#[trigger] acc[i]).0 <= p <= acc[i].1;
                    assert(i == 0);
                }
                if s[0].0 <= p <= s[0].1 {
                    assert(acc[0].0 <= p <= acc[0].1);
                }
            }
        }
    }
}

/// A port is covered iff some contained range covers it; lets coverage
/// cross a permutation.
proof fn lemma_covers_iff_contains(s: Seq<(u16, u16)>, p: u16)
    ensures
        covers(s, p) == exists|x: (u16, u16)| #[trigger] s.contains(x) && x.0 <= p <= x.1,
{
    if covers(s, p) {
        let i = choose|i: int| 0 <= i < s.len() && (#[trigger] s[i]).0 <= p <= s[i].1;
        assert(s.contains(s[i]));
    }
    if exists|x: (u16, u16)| #[trigger] s.contains(x) && x.0 <= p <= x.1 {
        let x = choose|x: (u16, u16)| #[trigger] s.contains(x) && x.0 <= p <= x.1;
        let i = choose|i: int| 0 <= i < s.len() && s[i] == x;
        assert(s[i].0 <= p <= s[i].1);
    }
}

/// Sorting neither adds nor loses ranges, so coverage is unchanged.
proof fn lemma_sort_preserves(recs: Seq<(u16, u16)>)
    ensures
        spec_sort(recs).len() == recs.len(),
        sorted_by(spec_sort(recs), range_order()),
        forall|x: (u16, u16)| recs.contains(x) == #[trigger] spec_sort(recs).contains(x),
        valid_ranges(recs) ==> valid_ranges(spec_sort(recs)),
        forall|p: u16| #[trigger] covers(spec_sort(recs), p) == covers(recs, p),
{
    lemma_range_order_total();
    recs.lemma_sort_by_ensures(range_order());
    let srt = spec_sort(recs);
    assert(srt.to_multiset().len() == recs.to_multiset().len());
    recs.to_multiset_ensures();
    srt.to_multiset_ensures();
    assert forall|x: (u16, u16)| recs.contains(x) == #[trigger] srt.contains(x) by {
        assert(recs.contains(x) <==> recs.to_multiset().count(x) > 0);
        assert(srt.contains(x) <==> srt.to_multiset().count(x) > 0);
    }
    if valid_ranges(recs) {
        assert forall|i: int| 0 <= i < srt.len() implies (#[trigger] srt[i]).0 <= srt[i].1 by {
            assert(srt.contains(srt[i]));
            let j = choose|j: int| 0 <= j < recs.len() && recs[j] == srt[i];
        }
    }
    assert forall|p: u16| #[trigger] covers(srt, p) == covers(recs, p) by {
        lemma_covers_iff_contains(srt, p);
        lemma_covers_iff_contains(recs, p);
        if covers(srt, p) {
            let x = choose|x: (u16, u16)| #[trigger] srt.contains(x) && x.0 <= p <= x.1;
            assert(recs.contains(x) && x.0 <= p <= x.1);
        }
        if covers(recs, p) {
            let x = choose|x: (u16, u16)| #[trigger] recs.contains(x) && x.0 <= p <= x.1;
            assert(srt.contains(x) && x.0 <= p <= x.1);
        }
    }
}

/// Compilation: the output is a well-formed store content no larger than
/// the input, covering exactly the input's ports; it is universal iff
/// some input range starts at 0; it is empty only for empty input.
pub proof fn lemma_compile(recs: Seq<(u16, u16)>)
    requires
        valid_ranges(recs),
    ensures
        wf_ranges(spec_compile(recs)),
        spec_compile(recs).len() <= recs.len(),
        forall|p: u16| #[trigger] covers(spec_compile(recs), p) == covers(recs, p),
        is_universal(spec_compile(recs)) == covers(recs, 0),
        (spec_compile(recs).len() == 0) == (recs.len() == 0),
{
    lemma_sort_preserves(recs);
    let srt = spec_sort(recs);
    lemma_resolve(srt);
    let c = spec_compile(recs);
    if recs.len() > 0 {
        assert(is_universal(c) == (srt[0].0 == 0));
        assert((srt[0].0 == 0) == covers(srt, 0)) by {
            if srt[0].0 == 0 {
                assert(valid_ranges(srt));
                assert(srt[0].0 <= 0 <= srt[0].1);
            }
            if covers(srt, 0) {
                let i = choose|i: int| 0 <= i < srt.len() && (#[trigger] srt[i]).0 <= 0 <= srt[i].1;
                if i > 0 {
                    assert(range_order()(srt[0], srt[i]));
                    assert(range_le(srt[0], srt[i]));
                }
            }
        }
    }
}

/// Two rule sets covering the same ports compile to stores that answer
/// every port lookup alike: the result of compilation depends only on
/// the union of the intervals, whatever sequence of additions built it.
pub proof fn lemma_compile_same_union(a: Seq<(u16, u16)>, b: Seq<(u16, u16)>)
    requires
        valid_ranges(a),
        valid_ranges(b),
        forall|p: u16| #[trigger] covers(a, p) == covers(b, p),
    ensures
        forall|p: u16|
            #[trigger] spec_lookup(spec_compile(a), p) == spec_lookup(spec_compile(b), p),
{
    lemma_compile(a);
    lemma_compile(b);
    assert(is_universal(spec_compile(a)) == is_universal(spec_compile(b)));
}

/// Sorts ranges by start (ties by end), selecting the least remaining
/// range at each step.
fn sort_ranges(input: &Vec<(u16, u16)>) -> (out: Vec<(u16, u16)>)
    ensures
        out@ == spec_sort(input@),
{
    proof {
        lemma_range_order_total();
        input@.lemma_sort_by_ensures(range_order());
    }
    let mut work: Vec<(u16, u16)> = Vec::new();
    let mut i: usize = 0;
    while i < input.len()
        invariant
            i <= input@.len(),
            work@ =~= input@.take(i as int),
        decreases input@.len() - i,
    {
        work.push(input[i]);
        i = i + 1;
    }
    assert(work@ =~= input@);
    let mut out: Vec<(u16, u16)> = Vec::new();
    proof {
        work@.to_multiset_ensures();
        out@.to_multiset_ensures();
        assert(forall|x: (u16, u16)| !out@.contains(x));
        assert(out@.to_multiset().add(work@.to_multiset()) =~= input@.to_multiset());
    }
    while work.len() > 0
        invariant
            out@.to_multiset().add(work@.to_multiset()) =~= input@.to_multiset(),
            sorted_by(out@, range_order()),
            forall|i: int, j: int|
                0 <= i < out@.len() && 0 <= j < work@.len() ==> range_le(
                    #[trigger] out@[i],
                    #[trigger] work@[j],
                ),
        decreases work@.len(),
    {
        let mut m: usize = 0;
        let mut k: usize = 1;
        while k < work.len()
            invariant
                work@.len() > 0,
                m < k <= work@.len(),
                forall|j: int| 0 <= j < k ==> range_le(work@[m as int], #[trigger] work@[j]),
            decreases work@.len() - k,
        {
            let (ms, me) = work[m];
            let (ks, ke) = work[k];
            if ks < ms || (ks == ms && ke < me) {
                m = k;
            }
            k = k + 1;
        }
        let ghost prevwork = work@;
        let ghost prevout = out@;
        let x = work.remove(m);
        out.push(x);
        proof {
            prevwork.to_multiset_ensures();
            prevout.to_multiset_ensures();
            assert(work@.to_multiset() =~= prevwork.to_multiset().remove(x)) by {
                assert(work@ == prevwork.remove(m as int));
            }
            assert(prevwork.to_multiset().count(x) > 0) by {
                assert(prevwork.contains(x));
            }
            assert(out@.to_multiset() =~= prevout.to_multiset().insert(x)) by {
                assert(out@ == prevout.push(x));
            }
            assert(out@.to_multiset().add(work@.to_multiset()) =~= input@.to_multiset());
            assert(sorted_by(out@, range_order())) by {
                assert(forall|a: int, b: int|
                    0 <= a < b < prevout.len() ==> range_order()(
                        #[trigger] out@[a],
                        #[trigger] out@[b],
                    ));
                assert forall|a: int| 0 <= a < prevout.len() implies range_order()(
                    #[trigger] out@[a],
                    x,
                ) by {
                    assert(range_le(prevout[a], prevwork[m as int]));
                }
            }
            assert forall|i: int, j: int|
                0 <= i < out@.len() && 0 <= j < work@.len() implies range_le(
                #[trigger] out@[i],
                #[trigger] work@[j],
            ) by {
                let jj: int = if j < m { j } else { j + 1 };
                assert(work@[j] == prevwork[jj]);
                if i < prevout.len() {
                    assert(range_le(prevout[i], prevwork[jj]));
                } else {
                    assert(out@[i] == prevwork[m as int]);
                    assert(range_le(prevwork[m as int], prevwork[jj]));
                }
            }
        }
    }
    proof {
        work@.to_multiset_ensures();
        assert(work@.to_multiset() =~= Multiset::<(u16, u16)>::empty()) by {
            assert(forall|x: (u16, u16)| !work@.contains(x));
        }
        assert(out@.to_multiset() =~= input@.to_multiset());
        assert(input@.to_multiset() =~= spec_sort(input@).to_multiset());
        vstd::seq_lib::lemma_sorted_unique(out@, spec_sort(input@), range_order());
    }
    out
}

/// Compiles ranges into sorted disjoint form: sort by start, sweep left
/// to right merging every overlapping range into the running one.
pub fn resolve_overlap(input: &Vec<(u16, u16)>) -> (out: Vec<(u16, u16)>)
    requires
        valid_ranges(input@),
    ensures
        out@ == spec_compile(input@),
{
    let sorted = sort_ranges(input);
    let ghost srt = sorted@;
    let mut out: Vec<(u16, u16)> = Vec::new();
    proof {
        assert(srt.skip(0) =~= srt);
    }
    let mut i: usize = 0;
    while i < sorted.len()
        invariant
            srt == sorted@,
            i <= srt.len(),
            sweep_from(srt.skip(i as int), out@) == spec_resolve(srt),
            i > 0 ==> out@.len() > 0,
            i == 0 ==> out@.len() == 0,
        decreases srt.len() - i,
    {
        let cur = sorted[i];
        let ghost prevout = out@;
        proof {
            assert(srt.skip(i as int).len() > 0);
            assert(srt.skip(i as int)[0] == cur);
            assert(srt.skip(i as int).drop_first() =~= srt.skip(i as int + 1));
        }
        if out.len() == 0 {
            out.push(cur);
            proof {
                assert(out@ =~= seq![cur]);
                assert(sweep_from(srt.skip(i as int), prevout) == sweep_from(
                    srt.skip(i as int + 1),
                    out@,
                ));
            }
        } else {
            let last = out[out.len() - 1];
            if cur.0 <= last.1 {
                let merged_end = if last.1 >= cur.1 {
                    last.1
                } else {
                    cur.1
                };
                let idx = out.len() - 1;
                out.set(idx, (last.0, merged_end));
                proof {
                    assert(merged_end == max_end(last.1, cur.1));
                    assert(out@ == prevout.update(prevout.len() - 1, (last.0, merged_end)));
                    assert(sweep_from(srt.skip(i as int), prevout) == sweep_from(
                        srt.skip(i as int + 1),
                        out@,
                    ));
                }
            } else {
                out.push(cur);
                proof {
                    assert(out@ == prevout.push(cur));
                    assert(sweep_from(srt.skip(i as int), prevout) == sweep_from(
                        srt.skip(i as int + 1),
                        out@,
                    ));
                }
            }
        }
        i = i + 1;
    }
    proof {
        assert(srt.skip(srt.len() as int) =~= Seq::<(u16, u16)>::empty());
        assert(sweep_from(Seq::<(u16, u16)>::empty(), out@) == out@);
    }
    out
}

/// Sequences with one multiset sort identically, so they compile
/// identically.
pub proof fn lemma_sort_eq_of_multiset(a: Seq<(u16, u16)>, b: Seq<(u16, u16)>)
    requires
        a.to_multiset() == b.to_multiset(),
    ensures
        spec_sort(a) == spec_sort(b),
        spec_compile(a) == spec_compile(b),
{
    lemma_range_order_total();
    a.lemma_sort_by_ensures(range_order());
    b.lemma_sort_by_ensures(range_order());
    assert(spec_sort(a).to_multiset() =~= spec_sort(b).to_multiset());
    vstd::seq_lib::lemma_sorted_unique(spec_sort(a), spec_sort(b), range_order());
}

} // verus!
