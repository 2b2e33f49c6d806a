use sharkbench::controller::{
    take_bigger_rps, take_lower_time_median, update_docker_file_with_version, ControllerAction,
    ControllerState,
};
use sharkbench::memory::MemoryUsage;

fn strings(values: &[&str]) -> Vec<String> {
    values.iter().map(|v| v.to_string()).collect()
}

#[test]
fn swaps_the_version_only_on_from_lines() {
    let content = "FROM rust:1.74\nRUN echo 1.74\nFROM rust:1.74 AS builder\n";
    let updated = update_docker_file_with_version(content, "1.74", "1.86");
    assert_eq!(updated, "FROM rust:1.86\nRUN echo 1.74\nFROM rust:1.86 AS builder\n");
}

#[test]
fn keeps_files_without_from_lines() {
    let content = "RUN echo hello\n";
    assert_eq!(update_docker_file_with_version(content, "1", "2"), "RUN echo hello\n");
}

#[test]
fn retries_then_aborts_after_too_many_failures() {
    let mut state = ControllerState::new();
    for _ in 0..10 {
        assert_eq!(state.record_failure(), ControllerAction::Retry);
    }
    assert_eq!(state.record_failure(), ControllerAction::Abort);
}

#[test]
fn warmup_rounds_are_measured_but_discarded() {
    let mut state = ControllerState::new();
    let memory = MemoryUsage { median: 50, p99: 70 };
    assert!(state.record_iteration(1, 999, MemoryUsage { median: 1, p99: 2 }, Vec::new()));
    assert!(!state.record_iteration(1, 100, memory, vec![("rps".to_string(), 10)]));
    assert!(state.needs_more_rounds(2));
    assert!(!state.record_iteration(
        1,
        200,
        MemoryUsage { median: 60, p99: 80 },
        vec![("rps".to_string(), 30)]
    ));
    assert!(!state.needs_more_rounds(2));

    let result = state.reduce();
    assert_eq!(result.time_median, 200);
    assert_eq!(result.memory_median, 50);
    assert_eq!(result.memory_p99, 70);
    assert_eq!(result.additional_data, vec![("rps".to_string(), 30)]);
}

#[test]
fn metric_absent_in_a_round_is_simply_excluded() {
    let mut state = ControllerState::new();
    let memory = MemoryUsage { median: 1, p99: 1 };
    assert!(!state.record_iteration(0, 10, MemoryUsage { median: 1, p99: 1 }, vec![
        ("rps".to_string(), 5),
        ("errors".to_string(), 0),
    ]));
    assert!(!state.record_iteration(0, 20, memory, vec![("rps".to_string(), 9)]));
    let result = state.reduce();
    // rps over [5, 9] -> 9 at the middle index; errors only ever reported once
    assert_eq!(result.additional_data, vec![
        ("rps".to_string(), 9),
        ("errors".to_string(), 0),
    ]);
}

#[test]
fn resolver_keeps_the_larger_first_value() {
    let old_values = strings(&["10", "20"]);
    assert_eq!(take_bigger_rps(&old_values, &strings(&["5", "20"])), strings(&["10", "20"]));
    assert_eq!(take_bigger_rps(&old_values, &strings(&["15", "20"])), strings(&["15", "20"]));
}

#[test]
fn resolver_keeps_the_smaller_first_value() {
    let old_values = strings(&["10", "20"]);
    assert_eq!(take_lower_time_median(&old_values, &strings(&["15", "9"])), strings(&["10", "20"]));
    assert_eq!(take_lower_time_median(&old_values, &strings(&["5", "9"])), strings(&["5", "9"]));
}
