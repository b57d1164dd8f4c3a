use leo_sim::bench::{BenchmarkHarness, BenchmarkReport};

#[test]
fn report_of_no_steps_is_zero() {
    let h = BenchmarkHarness::new();
    let r = h.report();
    assert_eq!(r.total_steps, 0);
    assert_eq!(r.mean_step_time_ms, 0);
    assert_eq!(r.p95_step_time_ms, 0);
    assert_eq!(r.p99_step_time_ms, 0);
}

#[test]
fn report_of_hundred_steps_in_reverse_order() {
    let mut h = BenchmarkHarness::new();
    for t in (1..=100u128).rev() {
        h.record_step(t);
    }
    let r = h.report();
    assert_eq!(r.total_steps, 100);
    assert_eq!(r.mean_step_time_ms, 50);
    assert_eq!(r.p95_step_time_ms, 96);
    assert_eq!(r.p99_step_time_ms, 100);
}

#[test]
fn report_of_single_step() {
    let mut h = BenchmarkHarness::new();
    h.record_step(7);
    let r = h.report();
    assert_eq!(r.total_steps, 1);
    assert_eq!(r.mean_step_time_ms, 7);
    assert_eq!(r.p95_step_time_ms, 7);
    assert_eq!(r.p99_step_time_ms, 7);
}

#[test]
fn report_mean_rounds_down_and_percentiles_are_ordered() {
    let mut h = BenchmarkHarness::new();
    for t in [5u128, 1, 9, 3, 3, 12, 40, 2, 8, 4] {
        h.record_step(t);
    }
    let r = h.report();
    assert_eq!(r.total_steps, 10);
    // sum 87, mean 8.7 rounded down
    assert_eq!(r.mean_step_time_ms, 8);
    // sorted: 1 2 3 3 4 5 8 9 12 40; ranks 9 and 9
    assert_eq!(r.p95_step_time_ms, 40);
    assert_eq!(r.p99_step_time_ms, 40);
    assert!(r.p95_step_time_ms <= r.p99_step_time_ms);
}

#[test]
fn report_percentile_ranks_for_twenty_one_steps() {
    let mut h = BenchmarkHarness::new();
    for t in 0..21u128 {
        h.record_step(t * 10);
    }
    let r = h.report();
    // ranks 21*95/100 = 19 and 21*99/100 = 20
    assert_eq!(r.p95_step_time_ms, 190);
    assert_eq!(r.p99_step_time_ms, 200);
    assert_eq!(r.mean_step_time_ms, 100);
}

#[test]
fn default_report_is_zero() {
    let r = BenchmarkReport::default();
    assert_eq!(r.total_steps, 0);
    assert_eq!(r.p99_step_time_ms, 0);
}
