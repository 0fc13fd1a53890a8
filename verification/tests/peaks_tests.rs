use peakfinder::peaks::{group_runs, reduce_run, DispersionMode, Peak, Peakfinder};
use peakfinder::stats::{Ratio, StatsError};

fn half() -> Ratio {
    Ratio { num: 1, den: 2 }
}

fn unit_threshold() -> Ratio {
    Ratio { num: 1, den: 1 }
}

#[test]
fn three_runs() {
    let runs = group_runs(&vec![2, 3, 4, 9, 10, 15]);
    assert_eq!(runs, vec![(2, 4), (9, 10), (15, 15)]);
}

#[test]
fn run_widths() {
    let data: Vec<i128> = (0..16).map(|i| i as i128).collect();
    assert_eq!(reduce_run(&data, 2, 4).peak_width, 2);
    assert_eq!(reduce_run(&data, 9, 10).peak_width, 1);
    assert_eq!(reduce_run(&data, 15, 15).peak_width, 0);
}

#[test]
fn tie_breaks_to_the_lower_index() {
    let data: Vec<i128> = vec![0, 1, 7, 3, 7, 2];
    let peak = reduce_run(&data, 1, 5);
    assert_eq!(peak.peak_idx, 2);
    assert_eq!(peak.peak_magnitude, 7);
    assert_eq!(peak.start_idx, 1);
    assert_eq!(peak.end_idx, 5);
    assert_eq!(peak.peak_width, 4);
}

#[test]
fn spike_in_the_first_block() {
    let mut pf = Peakfinder::new(8, 2, half()).unwrap();
    let block: Vec<i128> = vec![0, 0, 0, 0, 100, 0, 0, 0];
    pf.index_peaks(&block, unit_threshold()).unwrap();
    assert_eq!(pf.peak_indices(), &vec![4usize]);
    assert_eq!(pf.peaks(), &vec![Peak {
        start_idx: 4,
        end_idx: 4,
        peak_idx: 4,
        peak_magnitude: 100,
        peak_width: 0,
    }]);
}

#[test]
fn quiet_second_block_adds_nothing() {
    let mut pf = Peakfinder::new(8, 2, half()).unwrap();
    let block: Vec<i128> = vec![0, 0, 0, 0, 100, 0, 0, 0];
    pf.index_peaks(&block, unit_threshold()).unwrap();
    let quiet: Vec<i128> = vec![0; 8];
    pf.index_peaks(&quiet, unit_threshold()).unwrap();
    assert_eq!(pf.peaks().len(), 1);
    assert_eq!(pf.peak_indices(), &vec![4usize]);
}

#[test]
fn smoothing_feeds_back_into_the_baseline() {
    // in the second block the triggered sample at index 1 is blended down
    // to 50 before it enters the statistics, so index 2 still clears the
    // adaptive threshold and joins the run; without the blend it would not
    let mut pf = Peakfinder::new(4, 2, half()).unwrap();
    pf.index_peaks(&vec![0, 0, 0, 0], unit_threshold()).unwrap();
    let block: Vec<i128> = vec![0, 100, 100, 0];
    pf.index_peaks(&block, unit_threshold()).unwrap();
    assert_eq!(pf.peak_indices(), &vec![1usize, 2]);
    assert_eq!(pf.peaks(), &vec![Peak {
        start_idx: 1,
        end_idx: 2,
        peak_idx: 1,
        peak_magnitude: 100,
        peak_width: 1,
    }]);
}

#[test]
fn stdev_mode_detects_the_same_spike() {
    let mut pf = Peakfinder::new(8, 2, half()).unwrap();
    pf.set_dispersion_mode(DispersionMode::StdevRelative);
    let block: Vec<i128> = vec![0, 0, 0, 0, 100, 0, 0, 0];
    pf.index_peaks(&block, unit_threshold()).unwrap();
    assert_eq!(pf.peak_indices(), &vec![4usize]);
}

#[test]
fn identical_streams_give_identical_peaks() {
    let block_a: Vec<i128> = vec![3, 1, 4, 1, 5, 9, 2, 6];
    let block_b: Vec<i128> = vec![5, 3, 5, 8, 9, 7, 9, 3];
    let mut first = Peakfinder::new(8, 3, half()).unwrap();
    first.index_peaks(&block_a, unit_threshold()).unwrap();
    first.index_peaks(&block_b, unit_threshold()).unwrap();
    let mut second = Peakfinder::new(8, 3, half()).unwrap();
    second.index_peaks(&block_a, unit_threshold()).unwrap();
    second.index_peaks(&block_b, unit_threshold()).unwrap();
    assert_eq!(first.peaks(), second.peaks());
    assert_eq!(first.peak_indices(), second.peak_indices());
}

#[test]
fn mismatched_block_is_rejected_without_mutation() {
    let mut pf = Peakfinder::new(8, 2, half()).unwrap();
    let short: Vec<i128> = vec![1, 2, 3];
    assert_eq!(pf.index_peaks(&short, unit_threshold()), Err(StatsError::BlockSizeMismatch));
    assert_eq!(pf.peaks().len(), 0);
    assert_eq!(pf.peak_indices().len(), 0);
    // the failed call left no trace: the stream behaves as a fresh one
    let block: Vec<i128> = vec![0, 0, 0, 0, 100, 0, 0, 0];
    pf.index_peaks(&block, unit_threshold()).unwrap();
    let mut fresh = Peakfinder::new(8, 2, half()).unwrap();
    fresh.index_peaks(&block, unit_threshold()).unwrap();
    assert_eq!(pf.peaks(), fresh.peaks());
}

#[test]
fn bad_configurations_are_rejected() {
    assert!(matches!(
        Peakfinder::new(8, 1, half()),
        Err(StatsError::InvalidConfiguration)
    ));
    assert!(matches!(
        Peakfinder::new(8, 9, half()),
        Err(StatsError::InvalidConfiguration)
    ));
    assert!(matches!(
        Peakfinder::new(8, 2, Ratio { num: 0, den: 2 }),
        Err(StatsError::InvalidConfiguration)
    ));
    assert!(matches!(
        Peakfinder::new(8, 2, Ratio { num: 2, den: 2 }),
        Err(StatsError::InvalidConfiguration)
    ));
}

#[test]
fn negative_threshold_lowers_the_bar() {
    // with threshold -1 in max mode the bar at a flat 10 is
    // avg - max == 10 - 10 == 0, so every tested index triggers
    let mut pf = Peakfinder::new(4, 2, half()).unwrap();
    let block: Vec<i128> = vec![10, 10, 10, 10];
    pf.index_peaks(&block, Ratio { num: -1, den: 1 }).unwrap();
    assert_eq!(pf.peak_indices(), &vec![1usize, 2, 3]);
    assert_eq!(pf.peaks(), &vec![Peak {
        start_idx: 1,
        end_idx: 3,
        peak_idx: 1,
        peak_magnitude: 10,
        peak_width: 2,
    }]);
}

#[test]
fn negative_threshold_with_zero_spread_is_a_strict_bar() {
    // in stdev mode a flat signal has zero spread: the bar is exactly the
    // average, and equality does not trigger
    let mut pf = Peakfinder::new(4, 2, half()).unwrap();
    pf.set_dispersion_mode(DispersionMode::StdevRelative);
    let block: Vec<i128> = vec![10, 10, 10, 10];
    pf.index_peaks(&block, Ratio { num: -1, den: 1 }).unwrap();
    assert_eq!(pf.peak_indices().len(), 0);
    assert_eq!(pf.peaks().len(), 0);
}

#[test]
fn empty_trigger_list_groups_to_nothing() {
    assert_eq!(group_runs(&Vec::new()), Vec::new());
}
