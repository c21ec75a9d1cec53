//! Phase bins: the bucket of each sample and the number of samples per
//! bucket.
use vstd::prelude::*;

verus! {

/// How many entries of `s` equal `b`.
pub open spec fn count_of(s: Seq<usize>, b: usize) -> nat
    decreases s.len(),
{
    if s.len() == 0 {
        0
    } else {
        count_of(s.drop_last(), b) + if s.last() == b { 1nat } else { 0nat }
    }
}

/// How many entries of `s` lie in `[lo, hi)`.
pub open spec fn count_in_range(s: Seq<usize>, lo: int, hi: int) -> nat
    decreases s.len(),
{
    if s.len() == 0 {
        0
    } else {
        count_in_range(s.drop_last(), lo, hi) + if lo <= s.last() < hi { 1nat } else { 0nat }
    }
}

/// Sum of the first `k` entries of `c`.
pub open spec fn prefix_total(c: Seq<u32>, k: int) -> int
    decreases k,
{
    if k <= 0 {
        0
    } else {
        prefix_total(c, k - 1) + c[k - 1]
    }
}

/// Sum of all entries of `c`.
pub open spec fn total(c: Seq<u32>) -> int {
    prefix_total(c, c.len() as int)
}

/// Sum of the `width` entries of `c` from `start` on.
pub open spec fn window_total(c: Seq<u32>, start: int, width: int) -> int {
    prefix_total(c, start + width) - prefix_total(c, start)
}

/// The bucket of a sample whose phase times `n_bins`, rounded down, is
/// `scaled`: that value clamped to `[0, n_bins - 1]`.
pub fn bin_index(scaled: i64, n_bins: usize) -> (r: usize)
    requires
        n_bins > 0,
    ensures
        r < n_bins,
        scaled <= 0 ==> r == 0,
        scaled >= n_bins ==> r == n_bins - 1,
        0 <= scaled < n_bins ==> r == scaled,
{
    if scaled <= 0 {
        0
    } else if scaled as u64 >= n_bins as u64 {
        n_bins - 1
    } else {
        scaled as usize
    }
}

/// Number of samples in each of `n_bins` buckets, given each sample's
/// bucket. Every sample is counted once.
pub fn bin_counts(bins: &Vec<usize>, n_bins: usize) -> (r: Vec<u32>)
    requires
        forall|i: int| 0 <= i < bins.len() ==> #[trigger] bins[i] < n_bins,
        bins.len() <= u32::MAX,
    ensures
        r.len() == n_bins,
        forall|b: int| 0 <= b < n_bins ==> #[trigger] r[b] == count_of(bins@, b as usize),
        total(r@) == bins.len(),
{
    let mut counts: Vec<u32> = Vec::new();
    let mut b: usize = 0;
    while b < n_bins
        invariant
            b <= n_bins,
            counts.len() == b,
            forall|j: int| 0 <= j < b ==> #[trigger] counts[j] == 0,
        decreases n_bins - b,
    {
        counts.push(0);
        b = b + 1;
    }
    proof {
        lemma_total_of_zeros(counts@, n_bins as int);
    }
    let mut i: usize = 0;
    while i < bins.len()
        invariant
            i <= bins.len(),
            bins.len() <= u32::MAX,
            forall|k: int| 0 <= k < bins.len() ==> #[trigger] bins[k] < n_bins,
            counts.len() == n_bins,
            forall|b: int| 0 <= b < n_bins ==> #[trigger] counts[b] == count_of(bins@.take(i as int), b as usize),
            total(counts@) == i,
        decreases bins.len() - i,
    {
        let b = bins[i];
        proof {
            let prev = bins@.take(i as int);
            let next = bins@.take(i as int + 1);
            assert(next.drop_last() =~= prev);
            assert forall|c: int| 0 <= c < n_bins implies
                #[trigger] count_of(next, c as usize) == count_of(prev, c as usize) + if c == b { 1nat } else { 0nat } by {}
            assert(count_of(prev, b) <= prev.len()) by {
                lemma_count_at_most_len(prev, b);
            }
        }
        let old_counts = Ghost(counts@);
        counts.set(b, counts[b] + 1);
        proof {
            lemma_total_update(old_counts@, b as int, (old_counts@[b as int] + 1) as u32, n_bins as int);
            assert(counts@ == old_counts@.update(b as int, (old_counts@[b as int] + 1) as u32));
        }
        i = i + 1;
    }
    proof {
        assert(bins@.take(bins.len() as int) =~= bins@);
    }
    counts
}

/// Summed over a range of buckets, the per-bucket counts give the number of
/// samples whose bucket lies in that range.
pub proof fn lemma_window_counts_samples(bins: Seq<usize>, counts: Seq<u32>, start: int, width: int)
    requires
        counts.len() <= usize::MAX,
        forall|b: int| 0 <= b < counts.len() ==> #[trigger] counts[b] == count_of(bins, b as usize),
        0 <= start,
        0 <= width,
        start + width <= counts.len(),
    ensures
        window_total(counts, start, width) == count_in_range(bins, start, start + width),
{
    lemma_prefix_counts_below(bins, counts, start + width);
    lemma_prefix_counts_below(bins, counts, start);
    lemma_range_split(bins, start, start + width);
}

proof fn lemma_prefix_counts_below(bins: Seq<usize>, counts: Seq<u32>, k: int)
    requires
        counts.len() <= usize::MAX,
        forall|b: int| 0 <= b < counts.len() ==> #[trigger] counts[b] == count_of(bins, b as usize),
        0 <= k <= counts.len(),
    ensures
        prefix_total(counts, k) == count_in_range(bins, 0, k),
    decreases k,
{
    if k == 0 {
        lemma_range_empty(bins, 0);
    } else {
        lemma_prefix_counts_below(bins, counts, k - 1);
        assert(counts[k - 1] == count_of(bins, (k - 1) as usize));
        lemma_range_step(bins, k - 1);
    }
}

proof fn lemma_range_step(s: Seq<usize>, k: int)
    requires
        0 <= k,
        k <= usize::MAX,
    ensures
        count_in_range(s, 0, k + 1) == count_in_range(s, 0, k) + count_of(s, k as usize),
    decreases s.len(),
{
    if s.len() > 0 {
        lemma_range_step(s.drop_last(), k);
    }
}

proof fn lemma_range_empty(s: Seq<usize>, k: int)
    ensures
        count_in_range(s, k, k) == 0,
    decreases s.len(),
{
    if s.len() > 0 {
        lemma_range_empty(s.drop_last(), k);
    }
}

proof fn lemma_range_split(s: Seq<usize>, lo: int, hi: int)
    requires
        0 <= lo <= hi,
    ensures
        count_in_range(s, lo, hi) == count_in_range(s, 0, hi) - count_in_range(s, 0, lo),
    decreases s.len(),
{
    if s.len() > 0 {
        lemma_range_split(s.drop_last(), lo, hi);
    }
}

proof fn lemma_count_at_most_len(s: Seq<usize>, b: usize)
    ensures
        count_of(s, b) <= s.len(),
    decreases s.len(),
{
    if s.len() > 0 {
        lemma_count_at_most_len(s.drop_last(), b);
    }
}

proof fn lemma_total_of_zeros(c: Seq<u32>, k: int)
    requires
        0 <= k <= c.len(),
        forall|j: int| 0 <= j < c.len() ==> #[trigger] c[j] == 0,
    ensures
        prefix_total(c, k) == 0,
    decreases k,
{
    if k > 0 {
        lemma_total_of_zeros(c, k - 1);
    }
}

/// Changing one entry changes every prefix sum that covers it by the
/// difference.
pub proof fn lemma_total_update(c: Seq<u32>, b: int, v: u32, k: int)
    requires
        0 <= b < c.len(),
        0 <= k <= c.len(),
    ensures
        prefix_total(c.update(b, v), k) == prefix_total(c, k) + if b < k { v - c[b] } else { 0 },
    decreases k,
{
    if k > 0 {
        lemma_total_update(c, b, v, k - 1);
    }
}

/// Prefix sums grow with their length.
pub proof fn lemma_prefix_total_monotone(c: Seq<u32>, j: int, k: int)
    requires
        0 <= j <= k <= c.len(),
    ensures
        prefix_total(c, j) <= prefix_total(c, k),
        prefix_total(c, k) - prefix_total(c, j) <= (k - j) * u32::MAX,
    decreases k - j,
{
    if j < k {
        lemma_prefix_total_monotone(c, j, k - 1);
        assert((k - 1 - j) * u32::MAX + u32::MAX == (k - j) * u32::MAX) by (nonlinear_arith);
    }
}

} // verus!
