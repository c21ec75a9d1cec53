//! Choices of the period sweep: the deepest trial duration of one period,
//! and the strongest candidate over all periods.
use vstd::prelude::*;
use crate::float_order::{
    is_nan, float_lt, key_of, key_value, lemma_key_orders_like_value, order_key,
    NEGATIVE_INFINITY_BITS, POSITIVE_INFINITY_BITS,
};
use crate::selection::{
    all_present, greatest_run, least_present_run, least_run, lemma_greatest_is_first_maximum,
    lemma_least_is_first_minimum, lemma_least_present_is_first_minimum, scan_greatest, scan_least,
};
use crate::box_search::best_window_start;

verus! {

/// Order keys of a sequence of values given by their bits.
pub open spec fn keys_of(bits: Seq<u64>) -> Seq<Option<u64>> {
    bits.map_values(|b: u64| key_of(b))
}

/// None of the values is NaN.
pub open spec fn no_nan(bits: Seq<u64>) -> bool {
    forall|i: int| 0 <= i < bits.len() ==> !is_nan(#[trigger] bits[i])
}

/// Position of the deepest dip among the trial durations of one period:
/// the first strictly smaller one in a scan that starts at positive
/// infinity. `dips[d]` is the key of the dip found for duration `d`, or
/// `None` where the duration gave no result.
pub open spec fn deepest_spec(dips: Seq<Option<u64>>) -> Option<int> {
    least_run(key_of(POSITIVE_INFINITY_BITS), dips).1
}

/// Position of the candidate with the largest signal-to-noise ratio: the
/// first strictly larger one in a scan that starts at negative infinity,
/// or the first candidate when none is larger.
pub open spec fn strongest_spec(snrs: Seq<Option<u64>>) -> Option<int> {
    if snrs.len() == 0 {
        None
    } else {
        match greatest_run(key_of(NEGATIVE_INFINITY_BITS), snrs).1 {
            Some(j) => Some(j),
            None => Some(0),
        }
    }
}

/// The trial duration whose dip is deepest; none when no duration gave a
/// dip below positive infinity.
pub fn deepest_duration(dips: &Vec<Option<u64>>) -> (r: Option<usize>)
    ensures
        r == (match deepest_spec(dips@) {
            Some(j) => Some(j as usize),
            None => None::<usize>,
        }),
        r matches Some(j) ==> j < dips.len(),
{
    let init = order_key(POSITIVE_INFINITY_BITS);
    scan_least(init, dips)
}

/// The candidate with the largest signal-to-noise ratio; none only when
/// there is no candidate.
pub fn strongest_candidate(snrs: &Vec<Option<u64>>) -> (r: Option<usize>)
    ensures
        r == (match strongest_spec(snrs@) {
            Some(j) => Some(j as usize),
            None => None::<usize>,
        }),
        r is None <==> snrs.len() == 0,
        r matches Some(j) ==> j < snrs.len(),
{
    if snrs.len() == 0 {
        return None;
    }
    let init = order_key(NEGATIVE_INFINITY_BITS);
    match scan_greatest(init, snrs) {
        Some(j) => Some(j),
        None => Some(0),
    }
}

proof fn lemma_keys_present(bits: Seq<u64>)
    requires
        no_nan(bits),
    ensures
        all_present(keys_of(bits)),
        forall|i: int| 0 <= i < bits.len() ==> (#[trigger] keys_of(bits)[i]) == key_of(bits[i]),
        forall|i: int| 0 <= i < bits.len() ==> key_value(NEGATIVE_INFINITY_BITS) <= #[trigger] key_value(bits[i]),
{
}

/// Among signal-to-noise ratios none of which is NaN, the strongest
/// candidate has the largest ratio, and every earlier candidate a strictly
/// smaller one: on equal ratios the first candidate wins.
pub proof fn lemma_strongest_is_first_maximum(snrs: Seq<u64>)
    requires
        snrs.len() > 0,
        no_nan(snrs),
    ensures
        strongest_spec(keys_of(snrs)) matches Some(j) && 0 <= j < snrs.len()
            && (forall|i: int| 0 <= i < snrs.len() ==> !float_lt(snrs[j], #[trigger] snrs[i]))
            && (forall|i: int| 0 <= i < j ==> float_lt(#[trigger] snrs[i], snrs[j])),
{
    let keys = keys_of(snrs);
    lemma_keys_present(snrs);
    let init = key_value(NEGATIVE_INFINITY_BITS) as u64;
    lemma_greatest_is_first_maximum(init, keys);
    let j = match greatest_run(Some(init), keys).1 {
        Some(j) => j,
        None => 0,
    };
    assert(key_of(NEGATIVE_INFINITY_BITS) == Some(init));
    assert(keys[j] == key_of(snrs[j]));
    assert forall|i: int| 0 <= i < snrs.len() implies !float_lt(snrs[j], #[trigger] snrs[i]) by {
        lemma_key_orders_like_value(snrs[j], snrs[i]);
        assert(keys[i] == key_of(snrs[i]));
        assert(key_value(NEGATIVE_INFINITY_BITS) <= key_value(snrs[j]));
    }
    assert forall|i: int| 0 <= i < j implies float_lt(#[trigger] snrs[i], snrs[j]) by {
        lemma_key_orders_like_value(snrs[i], snrs[j]);
        assert(keys[i] == key_of(snrs[i]));
    }
}

/// When some window mean is not NaN, the chosen window's mean is not NaN,
/// it is the smallest of the means that are not NaN, and every earlier such
/// mean is strictly larger: on equal means the first window wins. When all
/// are NaN, the first window is chosen.
pub proof fn lemma_deepest_window_is_first_minimum(means: Seq<u64>)
    requires
        means.len() > 0,
    ensures
        ({
            let j = best_window_start(keys_of(means));
            &&& 0 <= j < means.len()
            &&& (exists|i: int| 0 <= i < means.len() && !is_nan(#[trigger] means[i])) ==> {
                &&& !is_nan(means[j])
                &&& forall|i: int| 0 <= i < means.len() && !is_nan(#[trigger] means[i]) ==> !float_lt(means[i], means[j])
                &&& forall|i: int| 0 <= i < j && !is_nan(#[trigger] means[i]) ==> float_lt(means[j], means[i])
            }
            &&& (forall|i: int| 0 <= i < means.len() ==> is_nan(#[trigger] means[i])) ==> j == 0
        }),
{
    let keys = keys_of(means);
    lemma_least_present_is_first_minimum(keys);
    assert forall|i: int| 0 <= i < means.len() implies (#[trigger] keys[i]) == key_of(means[i]) by {}
    let j = best_window_start(keys);
    match least_present_run(keys).1 {
        Some(jj) => {
            assert(j == jj);
            assert(keys[j] is Some);
            assert(!is_nan(means[j]));
            assert forall|i: int| 0 <= i < means.len() && !is_nan(#[trigger] means[i]) implies !float_lt(means[i], means[j]) by {
                lemma_key_orders_like_value(means[i], means[j]);
                assert(keys[i] is Some);
            }
            assert forall|i: int| 0 <= i < j && !is_nan(#[trigger] means[i]) implies float_lt(means[j], means[i]) by {
                lemma_key_orders_like_value(means[j], means[i]);
                assert(keys[i] is Some);
            }
        },
        None => {
            assert forall|i: int| 0 <= i < means.len() implies is_nan(#[trigger] means[i]) by {
                assert(keys[i] is None);
            }
        },
    }
}

/// Among dips none of which is NaN, the chosen duration has the smallest
/// dip, below positive infinity, and every earlier duration a strictly
/// larger one; none is chosen only when every dip is positive infinity.
pub proof fn lemma_deepest_duration_is_first_minimum(dips: Seq<u64>)
    requires
        no_nan(dips),
    ensures
        match deepest_spec(keys_of(dips)) {
            Some(j) => {
                &&& 0 <= j < dips.len()
                &&& float_lt(dips[j], POSITIVE_INFINITY_BITS)
                &&& forall|i: int| 0 <= i < dips.len() ==> !float_lt(#[trigger] dips[i], dips[j])
                &&& forall|i: int| 0 <= i < j ==> float_lt(dips[j], #[trigger] dips[i])
            },
            None => forall|i: int| 0 <= i < dips.len() ==> !float_lt(#[trigger] dips[i], POSITIVE_INFINITY_BITS),
        },
{
    let keys = keys_of(dips);
    lemma_keys_present(dips);
    let init = key_value(POSITIVE_INFINITY_BITS) as u64;
    lemma_least_is_first_minimum(init, keys);
    assert(key_of(POSITIVE_INFINITY_BITS) == Some(init));
    match deepest_spec(keys) {
        Some(j) => {
            lemma_key_orders_like_value(dips[j], POSITIVE_INFINITY_BITS);
            assert(keys[j] == key_of(dips[j]));
            assert forall|i: int| 0 <= i < dips.len() implies !float_lt(#[trigger] dips[i], dips[j]) by {
                lemma_key_orders_like_value(dips[i], dips[j]);
                assert(keys[i] == key_of(dips[i]));
            }
            assert forall|i: int| 0 <= i < j implies float_lt(dips[j], #[trigger] dips[i]) by {
                lemma_key_orders_like_value(dips[j], dips[i]);
                assert(keys[i] == key_of(dips[i]));
            }
        },
        None => {
            assert forall|i: int| 0 <= i < dips.len() implies !float_lt(#[trigger] dips[i], POSITIVE_INFINITY_BITS) by {
                lemma_key_orders_like_value(dips[i], POSITIVE_INFINITY_BITS);
                assert(keys[i] == key_of(dips[i]));
            }
        },
    }
}

} // verus!
