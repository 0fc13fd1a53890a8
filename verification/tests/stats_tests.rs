use peakfinder::stats::{BufferStats, Ratio, StatsError};

fn block() -> Vec<i128> {
    vec![12, 5, 9, 6, 32, 15, 8, 1, 50, 76, 150, 65, 3, 1, 3, 9]
}

#[test]
fn batch_mean_is_exact() {
    let mut stats = BufferStats::new(16, 2).unwrap();
    stats.batch_stats(&block()).unwrap();
    // 445 / 16 == 27.8125
    assert_eq!(stats.total_avg, Ratio { num: 445, den: 16 });
}

#[test]
fn batch_variance_and_stdev() {
    let mut stats = BufferStats::new(16, 2).unwrap();
    stats.batch_stats(&block()).unwrap();
    assert_eq!(stats.total_variance, Ratio { num: 6227056, den: 4096 });
    // floor(sqrt(variance)) in the same denominator, then / count
    assert_eq!(stats.total_stdev, Ratio { num: 9981, den: 4096 });
}

#[test]
fn batch_of_nothing_has_no_data() {
    let mut stats = BufferStats::new(16, 2).unwrap();
    assert_eq!(stats.batch_stats(&Vec::new()), Err(StatsError::NoData));
}

#[test]
fn moving_average_window_two() {
    let mut stats = BufferStats::new(16, 2).unwrap();
    stats.init_moving_avg(&block());
    let expected: [i128; 16] = [17, 17, 14, 15, 38, 47, 23, 9, 51, 126, 226, 215, 68, 4, 4, 12];
    for (i, num) in expected.iter().enumerate() {
        // numerator over the window size: 17/2 == 8.5, 14/2 == 7, ...
        assert_eq!(stats.moving_avg_at(i).unwrap(), Ratio { num: *num, den: 2 });
    }
}

#[test]
fn moving_average_window_four() {
    let mut stats = BufferStats::new(16, 4).unwrap();
    stats.init_moving_avg(&block());
    let expected: [i128; 16] =
        [32, 32, 32, 32, 52, 62, 61, 56, 74, 135, 277, 341, 294, 219, 72, 16];
    for (i, num) in expected.iter().enumerate() {
        assert_eq!(stats.moving_avg_at(i).unwrap(), Ratio { num: *num, den: 4 });
    }
}

#[test]
fn invalid_window_size() {
    assert_eq!(BufferStats::new(16, 1).err(), Some(StatsError::InvalidConfiguration));
}

#[test]
fn window_size_too_large() {
    assert_eq!(BufferStats::new(16, 17).err(), Some(StatsError::InvalidConfiguration));
}

#[test]
fn moving_variance_seeding_and_update() {
    let mut stats = BufferStats::new(4, 2).unwrap();
    let data: Vec<i128> = vec![1, 2, 3, 4];
    stats.init_moving_avg(&data);
    stats.init_moving_variance(&data);
    // running seed for the first two entries, incremental afterwards,
    // numerators over window_size cubed
    let expected: [i128; 4] = [1, 2, 2, 2];
    for (i, num) in expected.iter().enumerate() {
        assert_eq!(stats.moving_variance_at(i).unwrap(), Ratio { num: *num, den: 8 });
    }
}

#[test]
fn moving_max_seeding() {
    let mut stats = BufferStats::new(6, 3).unwrap();
    let data: Vec<i128> = vec![5, 1, 4, 9, 2, 3];
    stats.init_moving_max(&data);
    let expected: [i128; 6] = [5, 5, 5, 9, 9, 9];
    for (i, val) in expected.iter().enumerate() {
        assert_eq!(stats.moving_max_at(i).unwrap(), *val);
    }
}

#[test]
fn incremental_updates_slide_the_window() {
    let mut stats = BufferStats::new(4, 2).unwrap();
    let data: Vec<i128> = vec![1, 2, 3, 4];
    stats.init_moving_avg(&data);
    stats.init_moving_variance(&data);
    stats.init_moving_max(&data);
    // slide in a 6 while the 1 leaves the buffer; the window that the new
    // average covers is [4, 6]
    stats.update_moving_variance(3, 6);
    stats.update_moving_avg(3, 6);
    assert_eq!(stats.moving_avg_at(3).unwrap(), Ratio { num: 10, den: 2 });
    stats.update_moving_max(&vec![4, 6]);
    assert_eq!(stats.moving_max_at(3).unwrap(), 6);
}

#[test]
fn track_access_before_seeding() {
    let stats = BufferStats::new(16, 2).unwrap();
    assert_eq!(stats.moving_avg_at(0), Err(StatsError::UninitializedAccess));
    assert_eq!(stats.moving_variance_at(0), Err(StatsError::UninitializedAccess));
    assert_eq!(stats.moving_max_at(5), Err(StatsError::UninitializedAccess));
}
