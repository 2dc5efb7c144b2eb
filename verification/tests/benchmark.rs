use std::cell::Cell;

use knipsa::benchmark::{MAX_ITERATIONS_PER_SAMPLE, MIN_SAMPLE_TIME_NS, measure, next_iterations, sort_timings, summarize};

#[test]
fn calibration_doubles_until_long_enough_or_capped() {
    assert_eq!(next_iterations(1, 0), Some(2));
    assert_eq!(next_iterations(4, MIN_SAMPLE_TIME_NS - 1), Some(8));
    assert_eq!(next_iterations(4, MIN_SAMPLE_TIME_NS), None);
    assert_eq!(next_iterations(MAX_ITERATIONS_PER_SAMPLE, 0), None);
    assert_eq!(next_iterations(MAX_ITERATIONS_PER_SAMPLE / 2 + 1, 0), Some(MAX_ITERATIONS_PER_SAMPLE));
}

#[test]
fn summary_takes_median_and_95th_percentile_of_sorted_samples() {
    let timings: Vec<u128> = (0..25).rev().collect();
    assert_eq!(summarize(timings), (12, 23));
    assert_eq!(summarize(vec![7]), (7, 7));
    assert_eq!(summarize(vec![5, 1]), (5, 5));
    let mut values = vec![3, 1, 2, 3, 0];
    sort_timings(&mut values);
    assert_eq!(values, vec![0, 1, 2, 3, 3]);
}

#[test]
fn measurement_reports_the_last_output_and_the_first_error() {
    let calls = Cell::new(0_u64);
    let measured = measure(|| {
        calls.set(calls.get() + 1);
        Ok::<u64, ()>(calls.get())
    })
    .unwrap();
    assert_eq!(measured.output, calls.get());
    assert!(measured.median_ns <= measured.p95_ns);
    assert!(measured.iterations_per_sample >= 1);
    assert_eq!(measure(|| Err::<u64, &str>("failed")).err(), Some("failed"));
}
