use transit_search::float_order::order_key;
use transit_search::sweep::{deepest_duration, strongest_candidate};

fn keys(values: &[f64]) -> Vec<Option<u64>> {
    values.iter().map(|v| order_key(v.to_bits())).collect()
}

#[test]
fn deepest_duration_takes_the_smallest_dip() {
    assert_eq!(deepest_duration(&keys(&[-0.1, -0.3, -0.2])), Some(1));
}

#[test]
fn deepest_duration_keeps_the_first_on_ties() {
    assert_eq!(deepest_duration(&keys(&[-0.1, -0.3, -0.3])), Some(1));
}

#[test]
fn deepest_duration_skips_missing_results() {
    let dips = vec![None, order_key((-0.2f64).to_bits()), None, order_key(f64::NAN.to_bits())];
    assert_eq!(deepest_duration(&dips), Some(1));
}

#[test]
fn deepest_duration_of_no_result_is_none() {
    assert_eq!(deepest_duration(&vec![None, None]), None);
    assert_eq!(deepest_duration(&Vec::new()), None);
    assert_eq!(deepest_duration(&keys(&[f64::INFINITY])), None);
}

#[test]
fn positive_dips_still_count() {
    assert_eq!(deepest_duration(&keys(&[0.4, 0.2])), Some(1));
}

#[test]
fn strongest_candidate_takes_the_largest_ratio() {
    assert_eq!(strongest_candidate(&keys(&[1.0, 7.5, 3.0])), Some(1));
}

#[test]
fn strongest_candidate_keeps_the_first_on_ties() {
    assert_eq!(strongest_candidate(&keys(&[1.0, 7.5, 7.5, 0.0])), Some(1));
}

#[test]
fn strongest_candidate_of_none_is_none() {
    assert_eq!(strongest_candidate(&Vec::new()), None);
}

#[test]
fn strongest_candidate_defaults_to_the_first() {
    assert_eq!(strongest_candidate(&keys(&[f64::NAN, f64::NEG_INFINITY])), Some(0));
    assert_eq!(strongest_candidate(&keys(&[f64::NAN, -1.0])), Some(1));
}
