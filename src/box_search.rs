//! Choice of the deepest box-shaped window over phase bins.
//!
//! A window of `width` bins never wraps past the last bin, so there are
//! `n_bins - width + 1` windows, the window at `start` covering bins
//! `start .. start + width`. The caller supplies the order key of each
//! window's mean flux; the search keeps the first window of least mean,
//! passing over windows whose mean is NaN, and reports how many samples the
//! chosen window holds and where its centre lies.
//!
//! Windows do not wrap around phase 1, but a centre does: for a one-bin
//! window at bin 0 the formula `2 * last_bin - width` gives -1 half bins,
//! half a bin before phase 0; it is reported as the same point wrapped past
//! phase 1, `2 * n_bins - 1` half bins, so that every centre phase lies in
//! `[0, 1)`.
use vstd::prelude::*;
use crate::binning::{window_total, lemma_prefix_total_monotone};
use crate::selection::{least_present_run, lemma_least_present_is_first_minimum, scan_least_present};

verus! {

/// The window chosen by a box search.
#[derive(Clone, Copy, Debug, PartialEq, Eq, Structural)]
pub struct BoxFit {
    /// First bin of the window.
    pub start: usize,
    /// Number of samples in the window's bins.
    pub sample_count: u64,
    /// Centre of the window in half bins, `2 * last_bin - width`, taken
    /// modulo `2 * n_bins`. The phase of the centre is this over
    /// `2 * n_bins`.
    pub centre_half_bins: u64,
}

/// A window of `width` bins fits in `n_bins` bins and covers at least one.
pub open spec fn window_feasible(width: int, n_bins: int) -> bool {
    0 < width <= n_bins
}

/// Start of the first window of least mean among those whose mean is not
/// NaN; the first window when every mean is NaN.
pub open spec fn best_window_start(means: Seq<Option<u64>>) -> int {
    match least_present_run(means).1 {
        Some(j) => j,
        None => 0,
    }
}

/// Centre, in half bins, reported for the window of `width` bins at
/// `start`: `2 * last_bin - width`, wrapped into `[0, 2 * n_bins)`.
pub open spec fn centre_half_bins_of(start: int, width: int, n_bins: int) -> int {
    let c = 2 * (start + width - 1) - width;
    if c < 0 {
        c + 2 * n_bins
    } else {
        c
    }
}

/// Number of samples in the `width` bins from `start` on.
pub fn window_count(counts: &Vec<u32>, start: usize, width: usize) -> (r: u64)
    requires
        start + width <= counts.len(),
        counts.len() <= u32::MAX,
    ensures
        r == window_total(counts@, start as int, width as int),
{
    let end = start + width;
    let mut sum: u64 = 0;
    let mut k: usize = start;
    while k < end
        invariant
            start <= k <= end <= counts.len() <= u32::MAX,
            sum == window_total(counts@, start as int, k - start),
        decreases end - k,
    {
        proof {
            lemma_prefix_total_monotone(counts@, start as int, k + 1);
            assert((k + 1 - start) * u32::MAX <= u32::MAX * u32::MAX) by (nonlinear_arith)
                requires
                    k + 1 - start <= u32::MAX,
            ;
        }
        sum = sum + counts[k] as u64;
        k = k + 1;
    }
    sum
}

/// Box search over `counts.len()` bins for windows of `width` bins, given
/// the order key of each window's mean flux (`None` for a NaN mean).
///
/// No result when the width is zero or wider than all bins, or when the
/// first window holds no sample.
pub fn box_search(width: usize, counts: &Vec<u32>, window_means: &Vec<Option<u64>>) -> (r: Option<BoxFit>)
    requires
        counts.len() <= u32::MAX,
        window_feasible(width as int, counts.len() as int) ==> window_means.len() == counts.len() - width + 1,
    ensures
        r is None <==> (!window_feasible(width as int, counts.len() as int) || window_total(counts@, 0, width as int) == 0),
        r matches Some(fit) ==> {
            &&& fit.start == best_window_start(window_means@)
            &&& fit.start + width <= counts.len()
            &&& fit.sample_count == window_total(counts@, fit.start as int, width as int)
            &&& fit.centre_half_bins == centre_half_bins_of(fit.start as int, width as int, counts.len() as int)
            &&& fit.centre_half_bins < 2 * counts.len()
        },
{
    let n_bins = counts.len();
    if width == 0 || width > n_bins {
        return None;
    }
    if window_count(counts, 0, width) == 0 {
        return None;
    }
    proof {
        lemma_least_present_is_first_minimum(window_means@);
    }
    let pos = match scan_least_present(window_means) {
        Some(j) => j,
        None => 0,
    };
    let sample_count = window_count(counts, pos, width);
    let twice_last: u64 = 2 * ((pos + width - 1) as u64);
    let centre_half_bins: u64 = if twice_last < width as u64 {
        twice_last + 2 * (n_bins as u64) - (width as u64)
    } else {
        twice_last - (width as u64)
    };
    Some(BoxFit { start: pos, sample_count, centre_half_bins })
}

} // verus!
