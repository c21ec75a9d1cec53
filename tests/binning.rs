use transit_search::binning::{bin_counts, bin_index};

#[test]
fn bin_index_clamps() {
    assert_eq!(bin_index(-3, 10), 0);
    assert_eq!(bin_index(0, 10), 0);
    assert_eq!(bin_index(7, 10), 7);
    assert_eq!(bin_index(10, 10), 9);
    assert_eq!(bin_index(i64::MAX, 10), 9);
}

#[test]
fn bin_index_of_a_phase() {
    let n_bins = 200;
    let phase: f64 = 0.9999999999999999;
    assert_eq!(bin_index((phase * n_bins as f64).floor() as i64, n_bins), 199);
    let phase: f64 = 0.25;
    assert_eq!(bin_index((phase * n_bins as f64).floor() as i64, n_bins), 50);
}

#[test]
fn counts_per_bin() {
    let counts = bin_counts(&vec![0, 2, 2, 4, 2, 0], 5);
    assert_eq!(counts, vec![2, 0, 3, 0, 1]);
    assert_eq!(counts.iter().sum::<u32>(), 6);
}

#[test]
fn counts_of_no_sample() {
    assert_eq!(bin_counts(&Vec::new(), 3), vec![0, 0, 0]);
    assert_eq!(bin_counts(&Vec::new(), 0), Vec::<u32>::new());
}
