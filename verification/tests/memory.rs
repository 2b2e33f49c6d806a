use sharkbench::memory::{
    parse_mem_usage, process_stats_line, MemParseError, SamplerState, StatsLineOutcome,
};

#[test]
fn parses_used_memory_with_limit() {
    assert_eq!(parse_mem_usage("1.5GiB / 16GiB"), Ok(1610612736));
}

#[test]
fn parses_bare_used_memory() {
    assert_eq!(parse_mem_usage("1.5GiB"), Ok(1610612736));
}

#[test]
fn parses_each_unit() {
    assert_eq!(parse_mem_usage("2KiB"), Ok(2048));
    assert_eq!(parse_mem_usage("3MiB"), Ok(3145728));
    assert_eq!(parse_mem_usage("1GiB"), Ok(1073741824));
    assert_eq!(parse_mem_usage("0.5KiB"), Ok(512));
}

#[test]
fn rejects_unknown_unit() {
    assert_eq!(parse_mem_usage("1.5TiB"), Err(MemParseError::UnknownUnit("TiB".to_string())));
}

#[test]
fn rejects_malformed_number() {
    assert_eq!(parse_mem_usage("GiB"), Err(MemParseError::Malformed));
    assert_eq!(parse_mem_usage(""), Err(MemParseError::Malformed));
}

#[test]
fn samples_tracked_container_lines() {
    let line = "\u{1b}[2J\u{1b}[H{\"Name\":\"benchmark\",\"MemUsage\":\"2KiB / 16GiB\"}";
    match process_stats_line(line, "benchmark", true) {
        StatsLineOutcome::Sample(bytes) => assert_eq!(bytes, 2048),
        _ => panic!("expected a sample"),
    }
}

#[test]
fn skips_other_containers_and_untracked_lines() {
    let line = "{\"Name\":\"other\",\"MemUsage\":\"2KiB\"}";
    assert!(matches!(process_stats_line(line, "benchmark", true), StatsLineOutcome::Skipped));
    let line = "{\"Name\":\"benchmark\",\"MemUsage\":\"2KiB\"}";
    assert!(matches!(process_stats_line(line, "benchmark", false), StatsLineOutcome::Skipped));
    assert!(matches!(process_stats_line("not json", "benchmark", true), StatsLineOutcome::Skipped));
}

#[test]
fn flags_format_changes_as_fatal() {
    let line = "{\"Name\":\"benchmark\",\"MemUsage\":\"2QiB\"}";
    assert!(matches!(
        process_stats_line(line, "benchmark", true),
        StatsLineOutcome::Invalid(MemParseError::UnknownUnit(_))
    ));
}

#[test]
fn sampler_reduces_sorted_buffer() {
    let mut sampler = SamplerState::new();
    sampler.start();
    sampler.record(300);
    sampler.record(100);
    sampler.record(200);
    sampler.stop();
    sampler.record(999);
    let usage = sampler.get_memory_usage();
    assert_eq!(usage.median, 100);
    assert_eq!(usage.p99, 200);
}

#[test]
fn sampler_is_zero_on_an_empty_round() {
    let mut sampler = SamplerState::new();
    sampler.start();
    sampler.stop();
    let usage = sampler.get_memory_usage();
    assert_eq!(usage.median, 0);
    assert_eq!(usage.p99, 0);
}
