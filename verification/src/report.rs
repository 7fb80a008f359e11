//! The reporting pass: rank aggregated entries by exclusive cost and
//! express each entry's share of the whole run.
//!
//! Printing itself is left to the caller; this module produces the ordered
//! data and the integer share, so what is printed is exactly what was
//! proved.

use crate::aggregate::AggregateEntry;
use vstd::multiset::Multiset;
use vstd::prelude::*;

verus! {

broadcast use vstd::seq_lib::group_to_multiset_ensures;

/// Entries in non-increasing order of exclusive cycles.
pub open spec fn ranked(entries: Seq<AggregateEntry>) -> bool {
    forall|i: int, j: int|
        0 <= i < j < entries.len() ==> entries[i].exclusive_cycles >= entries[j].exclusive_cycles
}

/// Sort a snapshot for reporting: non-increasing by exclusive cycle count,
/// keeping exactly the same entries.  Ties keep their first-completion
/// order, so the result is deterministic for a given session.
pub fn rank_entries(entries: Vec<AggregateEntry>) -> (r: Vec<AggregateEntry>)
    ensures
        ranked(r@),
        r@.to_multiset() == entries@.to_multiset(),
        r@.len() == entries@.len(),
{
    let ghost orig = entries@.to_multiset();
    let mut src = entries;
    let mut out: Vec<AggregateEntry> = Vec::new();
    proof {
        assert(out@.to_multiset().add(src@.to_multiset()) =~= orig);
    }
    while src.len() > 0
        invariant
            ranked(out@),
            out@.to_multiset().add(src@.to_multiset()) == orig,
            out@.len() + src@.len() == orig.len(),
            forall|k: int|
                #![trigger src@[k]]
                0 <= k < src@.len() && out@.len() > 0 ==> src@[k].exclusive_cycles
                    <= out@.last().exclusive_cycles,
        decreases src@.len(),
    {
        let mut m: usize = 0;
        let mut i: usize = 1;
        while i < src.len()
            invariant
                m < i <= src@.len(),
                forall|j: int|
                    #![trigger src@[j]]
                    0 <= j < i ==> src@[j].exclusive_cycles <= src@[m as int].exclusive_cycles,
            decreases src@.len() - i,
        {
            if src[i].exclusive_cycles > src[m].exclusive_cycles {
                m = i;
            }
            i += 1;
        }
        let ghost src_before = src@;
        let ghost out_before = out@;
        let e = src.remove(m);
        out.push(e);
        proof {
            assert(src@ == src_before.remove(m as int));
            assert(src@.to_multiset() == src_before.to_multiset().remove(src_before[m as int]));
            assert(src_before.to_multiset().count(src_before[m as int]) > 0) by {
                assert(src_before.contains(src_before[m as int]));
            }
            assert(out@.to_multiset().add(src@.to_multiset()) =~= orig);
            assert forall|k: int| #![trigger src@[k]] 0 <= k < src@.len() implies src@[k].exclusive_cycles
                <= out@.last().exclusive_cycles by {
                if k < m as int {
                    assert(src@[k] == src_before[k]);
                } else {
                    assert(src@[k] == src_before[k + 1]);
                }
            }
            assert forall|i2: int, j2: int| 0 <= i2 < j2 < out@.len() implies out@[i2].exclusive_cycles
                >= out@[j2].exclusive_cycles by {
                if j2 < out@.len() - 1 {
                    assert(out_before[i2].exclusive_cycles >= out_before[j2].exclusive_cycles);
                } else if out_before.len() > 0 {
                    assert(out@[i2] == out_before[i2]);
                }
            }
        }
    }
    proof {
        assert(src@.to_multiset() =~= Multiset::<AggregateEntry>::empty());
        assert(out@.to_multiset() =~= orig);
    }
    out
}

/// The exact share of `total` that `cycles` makes up, in hundredths of a
/// percent, truncated; capped at the counter's width when `cycles` exceeds
/// `total` ten-thousandfold (which no single region of a real run can).
/// Defined only for a run that took time at all, so there is no division by
/// zero.
pub fn percent_hundredths(cycles: u64, total: u64) -> (r: u64)
    requires
        total > 0,
    ensures
        cycles as int * 10000 / total as int <= u64::MAX ==> r == cycles as int * 10000
            / total as int,
        cycles as int * 10000 / total as int > u64::MAX ==> r == u64::MAX,
{
    let q: u128 = (cycles as u128) * 10000 / (total as u128);
    if q > u64::MAX as u128 {
        u64::MAX
    } else {
        q as u64
    }
}

} // verus!
