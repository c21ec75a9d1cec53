use transit_search::statistics::{finite_keys, median_middle, Middle};

fn bits(values: &[f64]) -> Vec<u64> {
    values.iter().map(|v| v.to_bits()).collect()
}

/// Mean of two finite values that cannot overflow.
fn mean_of_two(a: f64, b: f64) -> f64 {
    if (a < 0.0) == (b < 0.0) {
        a + (b - a) * 0.5
    } else {
        (a + b) * 0.5
    }
}

fn median(values: &[f64]) -> Option<f64> {
    match median_middle(&bits(values))? {
        Middle::One(m) => Some(f64::from_bits(m)),
        Middle::Two(a, b) => Some(mean_of_two(f64::from_bits(a), f64::from_bits(b))),
    }
}

#[test]
fn middle_of_odd_count() {
    assert_eq!(median_middle(&bits(&[3.0, 1.0, 2.0])), Some(Middle::One(2.0f64.to_bits())));
    assert_eq!(median(&[1.0, 2.0, 3.0]), Some(2.0));
}

#[test]
fn middles_of_even_count() {
    assert_eq!(
        median_middle(&bits(&[4.0, 1.0, 3.0, 2.0])),
        Some(Middle::Two(2.0f64.to_bits(), 3.0f64.to_bits()))
    );
    assert_eq!(median(&[1.0, 2.0, 3.0, 4.0]), Some(2.5));
}

#[test]
fn no_finite_sample_has_no_middle() {
    assert_eq!(median_middle(&bits(&[f64::NAN, f64::NAN])), None);
    assert_eq!(median_middle(&Vec::new()), None);
    assert_eq!(median_middle(&bits(&[f64::INFINITY, f64::NAN, f64::NEG_INFINITY])), None);
}

#[test]
fn non_finite_samples_are_left_out() {
    assert_eq!(median(&[f64::NAN, 5.0, f64::INFINITY, -1.0, 2.0]), Some(2.0));
}

#[test]
fn negative_values_and_zeros() {
    assert_eq!(median(&[-5.0, -1.0, -3.0]), Some(-3.0));
    assert_eq!(median(&[-0.0, 0.0, -0.0]), Some(0.0));
}

#[test]
fn deviations_of_equal_values_are_zero() {
    let values = [1.0, 1.0, 1.0, 1.0];
    let med = median(&values).unwrap();
    let deviations: Vec<f64> = values.iter().map(|v| (v - med).abs()).collect();
    assert_eq!(median(&deviations), Some(0.0));
}

#[test]
fn median_lies_between_extremes() {
    let values = [9.5, -2.0, 3.25, 7.0, 0.5, 100.0];
    let m = median(&values).unwrap();
    assert!(m >= -2.0 && m <= 100.0);
    assert_eq!(m, (3.25 + 7.0) * 0.5);
}

#[test]
fn median_of_huge_values_stays_finite() {
    assert_eq!(median(&[f64::MAX, f64::MAX]), Some(f64::MAX));
    assert_eq!(median(&[-f64::MAX, f64::MAX]), Some(0.0));
}

#[test]
fn finite_keys_keep_sample_order() {
    let keys = finite_keys(&bits(&[2.0, f64::NAN, -1.0]));
    assert_eq!(keys.len(), 2);
    assert!(keys[0] > keys[1]);
}
