//! Splitting a series into contiguous segments at its gaps.
//!
//! `gap_before[i]` (for `i >= 1`) says that the step from sample `i - 1` to
//! sample `i` is longer than the gap threshold; the flag of sample 0 is
//! ignored. Segments are half-open index ranges `(start, end)`.
use vstd::prelude::*;

verus! {

/// `segs` are the maximal gap-free runs of a series of `gaps.len()` samples,
/// in order.
pub open spec fn is_segmentation(segs: Seq<(usize, usize)>, gaps: Seq<bool>) -> bool {
    &&& (gaps.len() == 0 <==> segs.len() == 0)
    &&& segs.len() > 0 ==> segs[0].0 == 0 && segs.last().1 == gaps.len()
    &&& forall|j: int| 0 <= j < segs.len() ==> (#[trigger] segs[j]).0 < segs[j].1
    &&& forall|j: int| 0 < j < segs.len() ==> segs[j - 1].1 == (#[trigger] segs[j]).0
    &&& forall|j: int| 0 < j < segs.len() ==> gaps[(#[trigger] segs[j]).0 as int]
    &&& forall|j: int, k: int|
        #![trigger segs[j], gaps[k]]
        0 <= j < segs.len() && segs[j].0 < k < segs[j].1 ==> !gaps[k]
}

/// Sample `k` lies in segment `j`.
pub open spec fn in_segment(segs: Seq<(usize, usize)>, j: int, k: int) -> bool {
    segs[j].0 <= k < segs[j].1
}

/// The segments of a series, cut before every sample that follows a gap.
pub fn segment_bounds(gap_before: &Vec<bool>) -> (r: Vec<(usize, usize)>)
    ensures
        is_segmentation(r@, gap_before@),
{
    let n = gap_before.len();
    let mut segs: Vec<(usize, usize)> = Vec::new();
    if n == 0 {
        return segs;
    }
    let mut start: usize = 0;
    let mut i: usize = 1;
    while i < n
        invariant
            n == gap_before.len(),
            start < i <= n,
            segs.len() == 0 ==> start == 0,
            segs.len() > 0 ==> segs[0].0 == 0 && segs@.last().1 == start && gap_before@[start as int],
            forall|j: int| 0 <= j < segs.len() ==> (#[trigger] segs@[j]).0 < segs@[j].1,
            forall|j: int| 0 < j < segs.len() ==> segs@[j - 1].1 == (#[trigger] segs@[j]).0,
            forall|j: int| 0 < j < segs.len() ==> gap_before@[(#[trigger] segs@[j]).0 as int],
            forall|j: int, k: int|
                #![trigger segs@[j], gap_before@[k]]
                0 <= j < segs.len() && segs@[j].0 < k < segs@[j].1 ==> !gap_before@[k],
            forall|k: int| start < k < i ==> !#[trigger] gap_before@[k],
        decreases n - i,
    {
        if gap_before[i] {
            segs.push((start, i));
            start = i;
        }
        i = i + 1;
    }
    segs.push((start, n));
    segs
}

/// Segments partition the samples: every sample lies in exactly one of
/// them.
pub proof fn lemma_segments_partition(segs: Seq<(usize, usize)>, gaps: Seq<bool>, k: int)
    requires
        is_segmentation(segs, gaps),
        0 <= k < gaps.len(),
    ensures
        exists|j: int| 0 <= j < segs.len() && in_segment(segs, j, k),
        forall|j1: int, j2: int|
            0 <= j1 < segs.len() && 0 <= j2 < segs.len() && in_segment(segs, j1, k) && in_segment(segs, j2, k)
                ==> j1 == j2,
{
    lemma_covered_up_to(segs, gaps, segs.len() - 1, k);
    assert forall|j1: int, j2: int|
        0 <= j1 < segs.len() && 0 <= j2 < segs.len() && in_segment(segs, j1, k) && in_segment(segs, j2, k)
            implies j1 == j2 by {
        if j1 < j2 {
            lemma_ordered(segs, gaps, j1, j2);
        } else if j2 < j1 {
            lemma_ordered(segs, gaps, j2, j1);
        }
    }
}

proof fn lemma_covered_up_to(segs: Seq<(usize, usize)>, gaps: Seq<bool>, j: int, k: int)
    requires
        is_segmentation(segs, gaps),
        0 <= j < segs.len(),
        0 <= k < segs[j].1,
    ensures
        exists|i: int| 0 <= i <= j && in_segment(segs, i, k),
    decreases j,
{
    if k >= segs[j].0 {
        assert(in_segment(segs, j, k));
    } else {
        assert(segs[j - 1].1 == segs[j].0);
        lemma_covered_up_to(segs, gaps, j - 1, k);
    }
}

proof fn lemma_ordered(segs: Seq<(usize, usize)>, gaps: Seq<bool>, j1: int, j2: int)
    requires
        is_segmentation(segs, gaps),
        0 <= j1 < j2 < segs.len(),
    ensures
        segs[j1].1 <= segs[j2].0,
    decreases j2 - j1,
{
    assert(segs[j2 - 1].1 == segs[j2].0);
    if j1 < j2 - 1 {
        lemma_ordered(segs, gaps, j1, j2 - 1);
        assert(segs[j2 - 1].0 < segs[j2 - 1].1);
    }
}

} // verus!
