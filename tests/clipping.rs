use transit_search::clipping::outlier_mask;

fn bits(values: &[f64]) -> Vec<u64> {
    values.iter().map(|v| v.to_bits()).collect()
}

#[test]
fn masks_values_beyond_the_threshold() {
    let values = [0.0, 0.5, -0.5, 0.7, -0.7, 0.6, -0.6];
    let mask = outlier_mask(&bits(&values), 0.6f64.to_bits());
    assert_eq!(mask, vec![false, false, false, true, true, false, false]);
}

#[test]
fn masks_non_finite_values() {
    let values = [f64::NAN, f64::INFINITY, f64::NEG_INFINITY, 1.0];
    let mask = outlier_mask(&bits(&values), 10.0f64.to_bits());
    assert_eq!(mask, vec![true, true, true, false]);
}

#[test]
fn zero_threshold_masks_every_nonzero_value() {
    let values = [0.0, -0.0, 1e-300, -1e-300];
    let mask = outlier_mask(&bits(&values), 0.0f64.to_bits());
    assert_eq!(mask, vec![false, false, true, true]);
}

#[test]
fn nan_threshold_masks_only_non_finite_values() {
    let values = [1e10, f64::NAN];
    let mask = outlier_mask(&bits(&values), f64::NAN.to_bits());
    assert_eq!(mask, vec![false, true]);
}
