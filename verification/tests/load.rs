use sharkbench::load::{aggregate_load_results, LoadTestError, ThreadResult, WorkerState};

fn worker(successes: i32, fails: i32, rps: Vec<i32>, latencies: Vec<u64>, time: u64) -> ThreadResult {
    ThreadResult {
        success_count: successes,
        fail_count: fails,
        rps_per_second: rps,
        latency_us: latencies,
        total_time: time,
    }
}

#[test]
fn sums_counters_and_keeps_worst_second() {
    let results = vec![
        worker(10, 1, vec![3, 4, 3], vec![100, 200, 300], 3000),
        worker(20, 2, vec![7, 6, 7], vec![150, 250], 3100),
    ];
    let merged = aggregate_load_results(&results, false).unwrap();
    assert_eq!(merged.success_count, 30);
    assert_eq!(merged.fail_count, 3);
    assert_eq!(merged.success_count + merged.fail_count, 33);
    assert_eq!(merged.total_time, 3100);
    // summed series [10, 10, 10]: every second equal
    assert_eq!(merged.rps_median, 10);
    assert_eq!(merged.rps_p99, 10);
    // pooled sorted latencies: [100, 150, 200, 250, 300]
    assert_eq!(merged.latency_median, 150);
    assert_eq!(merged.latency_p99, 250);
}

#[test]
fn low_tail_never_beats_the_median() {
    let results = vec![worker(
        50,
        0,
        vec![5, 9, 12, 11, 13, 14, 15, 16, 17, 18],
        vec![10, 20, 30, 40, 50],
        5000,
    )];
    let merged = aggregate_load_results(&results, false).unwrap();
    assert!(merged.rps_p99 <= merged.rps_median);
    // sorted series [5, 9, 11, 12, 13, 14, 15, 16, 17, 18]
    assert_eq!(merged.rps_p99, 9);
    assert_eq!(merged.rps_median, 13);
}

#[test]
fn refuses_a_run_without_successes() {
    let results = vec![worker(0, 5, vec![], vec![], 1000)];
    assert_eq!(aggregate_load_results(&results, false), Err(LoadTestError::NoSuccessfulRequests));
}

#[test]
fn refuses_failures_when_they_are_fatal() {
    let results = vec![worker(5, 1, vec![5], vec![10], 1000)];
    assert_eq!(aggregate_load_results(&results, true), Err(LoadTestError::RequestsFailed));
    assert!(aggregate_load_results(&results, false).is_ok());
}

#[test]
fn thirty_two_clean_workers_merge_without_failures() {
    let mut results = Vec::new();
    for _ in 0..32 {
        results.push(worker(45, 0, vec![3, 3, 3], vec![500, 600, 700], 15000));
    }
    let merged = aggregate_load_results(&results, true).unwrap();
    assert_eq!(merged.fail_count, 0);
    assert!(merged.success_count > 0);
    assert_eq!(merged.success_count, 32 * 45);
    assert_eq!(merged.rps_median, 96);
}

#[test]
fn worker_records_attempts_and_second_boundaries() {
    let mut w = WorkerState::new();
    w.record_success(1000);
    w.record_success(1200);
    w.record_failure();
    assert_eq!(w.success_count + w.fail_count, 3);

    // first second boundary: two successes so far
    assert!(!w.second_boundary(1, 15));
    assert_eq!(w.rps_per_second, vec![2]);

    w.record_success(900);
    assert!(!w.second_boundary(2, 15));
    assert_eq!(w.rps_per_second, vec![2, 1]);

    // nothing happens before the next boundary
    assert!(!w.second_boundary(2, 15));
    assert_eq!(w.rps_per_second, vec![2, 1]);

    // a validation failure moves one attempt from success to failure
    w.validation_failed();
    assert_eq!(w.success_count, 2);
    assert_eq!(w.fail_count, 2);

    let result = w.into_result(15000);
    assert_eq!(result.success_count + result.fail_count, 4);
    assert_eq!(result.latency_us, vec![1000, 1200, 900]);
}

#[test]
fn worker_stops_at_the_configured_duration() {
    let mut w = WorkerState::new();
    for second in 1..15u64 {
        w.record_success(100);
        assert!(!w.second_boundary(second, 15));
    }
    w.record_success(100);
    assert!(w.second_boundary(15, 15));
    assert_eq!(w.rps_per_second.len(), 14);
}
