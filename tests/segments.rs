use transit_search::segments::segment_bounds;

fn gaps(times: &[f64], threshold: f64) -> Vec<bool> {
    (0..times.len()).map(|i| i > 0 && times[i] - times[i - 1] > threshold).collect()
}

#[test]
fn splits_at_a_long_gap() {
    let times = [0.0, 1.0, 2.0, 10.0, 11.0, 12.0];
    let dt_med = 1.0;
    let gap_factor = 5.0;
    let segs = segment_bounds(&gaps(&times, dt_med * gap_factor));
    assert_eq!(segs, vec![(0, 3), (3, 6)]);
}

#[test]
fn no_gap_gives_one_segment() {
    let times = [0.0, 1.0, 2.0, 3.0];
    assert_eq!(segment_bounds(&gaps(&times, 5.0)), vec![(0, 4)]);
}

#[test]
fn empty_series_has_no_segment() {
    assert_eq!(segment_bounds(&Vec::new()), Vec::<(usize, usize)>::new());
}

#[test]
fn single_sample_is_one_segment() {
    assert_eq!(segment_bounds(&vec![true]), vec![(0, 1)]);
}

#[test]
fn every_step_a_gap_gives_single_samples() {
    let segs = segment_bounds(&vec![false, true, true]);
    assert_eq!(segs, vec![(0, 1), (1, 2), (2, 3)]);
}

#[test]
fn segments_partition_the_indices() {
    let flags = vec![true, false, true, false, false, true, true, false];
    let segs = segment_bounds(&flags);
    let mut covered = vec![0usize; flags.len()];
    for &(s, e) in segs.iter() {
        assert!(s < e);
        for c in covered[s..e].iter_mut() {
            *c += 1;
        }
    }
    assert!(covered.iter().all(|&c| c == 1));
    assert_eq!(segs, vec![(0, 2), (2, 5), (5, 6), (6, 8)]);
}
