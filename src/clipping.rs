//! Which samples of a normalized segment are masked as outliers.
use vstd::prelude::*;
use crate::float_order::{float_lt, is_finite, is_nan, less_than, magnitude, INFINITY_MAGNITUDE, SIGN_BIT};

verus! {

/// A sample (by its bits) is an outlier against `threshold` when it is not
/// finite or its absolute value is strictly above the threshold. A NaN
/// threshold lies above nothing.
pub open spec fn is_outlier(value: u64, threshold: u64) -> bool {
    !is_finite(value) || (!is_nan(threshold) && float_lt(threshold, magnitude(value)))
}

/// For each sample, whether it is to be masked.
pub fn outlier_mask(values: &Vec<u64>, threshold: u64) -> (r: Vec<bool>)
    ensures
        r.len() == values.len(),
        forall|i: int| 0 <= i < values.len() ==> #[trigger] r[i] == is_outlier(values[i], threshold),
{
    let mut mask: Vec<bool> = Vec::new();
    let mut i: usize = 0;
    while i < values.len()
        invariant
            i <= values.len(),
            mask.len() == i,
            forall|j: int| 0 <= j < i ==> #[trigger] mask[j] == is_outlier(values[j], threshold),
        decreases values.len() - i,
    {
        let v = values[i];
        let abs = if v >= SIGN_BIT { v - SIGN_BIT } else { v };
        let outlier = abs >= INFINITY_MAGNITUDE || less_than(threshold, abs);
        mask.push(outlier);
        i = i + 1;
    }
    mask
}

} // verus!
