use typeracer::history::Record;
use typeracer::resampler::get_improvement;

fn rec(cpm_milli: u64) -> Record {
    Record { time_s: 0, accuracy_milli: 1000, wpm_milli: 0, cpm_milli }
}

#[test]
fn no_data_on_empty_series() {
    assert_eq!(get_improvement(&vec![], 10, 10), None);
}

#[test]
fn no_data_on_flat_zero_series() {
    assert_eq!(get_improvement(&vec![rec(0), rec(0)], 10, 10), None);
}

#[test]
fn exact_buckets_when_lengths_match() {
    let records = vec![rec(100), rec(200), rec(400)];
    // Each bucket is floor(cpm / max * height).
    assert_eq!(get_improvement(&records, 3, 8), Some(vec![2, 4, 8]));
}

#[test]
fn single_point_gives_a_flat_series() {
    let records = vec![rec(7)];
    assert_eq!(get_improvement(&records, 4, 10), Some(vec![10, 10, 10, 10]));
}

#[test]
fn upsample_interpolates_linearly() {
    let records = vec![rec(0), rec(300)];
    // Buckets at fractions 0, 1/2, 1 of the series.
    assert_eq!(get_improvement(&records, 3, 3), Some(vec![0, 1, 3]));
}

#[test]
fn downsample_averages_a_window() {
    let records = vec![rec(100), rec(200), rec(300), rec(400)];
    // Every window covers the whole series here: average 250 of max 400.
    assert_eq!(get_improvement(&records, 2, 4), Some(vec![2, 2]));
}

#[test]
fn single_bucket_shows_most_recent() {
    let records = vec![rec(100), rec(400), rec(200)];
    assert_eq!(get_improvement(&records, 1, 10), Some(vec![5]));
}

#[test]
fn zero_width_gives_empty_buffer() {
    let records = vec![rec(100)];
    assert_eq!(get_improvement(&records, 0, 10), Some(vec![]));
}

#[test]
fn buckets_stay_within_height() {
    let records = vec![rec(1), rec(999), rec(5), rec(700), rec(3)];
    for width in 1..8usize {
        if let Some(buckets) = get_improvement(&records, width, 6) {
            assert_eq!(buckets.len(), width);
            for b in buckets {
                assert!(b <= 6);
            }
        } else {
            panic!("expected a series");
        }
    }
}
