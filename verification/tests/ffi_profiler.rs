use ipfrs_tensorlogic::ffi_profiler::{
    FfiCallStats, FfiProfiler, OverheadSummary, ProfilingReport, MAX_DURATION_NANOS,
};

const MICRO: u128 = 1_000;
const MILLI: u128 = 1_000_000;

#[test]
fn test_exceeds_target() {
    let mut stats = FfiCallStats::new("test".to_string());
    stats.record(500 * MICRO);

    assert!(!stats.exceeds_target(1000));
    assert!(stats.exceeds_target(100));
}

#[test]
fn new_stats_are_empty() {
    let s = FfiCallStats::new("f".to_string());
    assert_eq!(s.name, "f");
    assert_eq!(s.call_count, 0);
    assert_eq!(s.total_duration, 0);
    assert_eq!(s.min_duration, MAX_DURATION_NANOS);
    assert_eq!(s.max_duration, 0);
    assert_eq!(s.avg_duration, 0);
}

#[test]
fn record_tracks_min_max_and_average() {
    let mut s = FfiCallStats::new("f".to_string());
    s.record(300);
    s.record(100);
    s.record(200);
    assert_eq!(s.call_count, 3);
    assert_eq!(s.total_duration, 600);
    assert_eq!(s.min_duration, 100);
    assert_eq!(s.max_duration, 300);
    assert_eq!(s.avg_duration, 200);
}

#[test]
fn average_rounds_down() {
    let mut s = FfiCallStats::new("f".to_string());
    s.record(1);
    s.record(2);
    assert_eq!(s.avg_duration, 1);
}

#[test]
fn exceeds_target_uses_whole_microseconds() {
    let mut s = FfiCallStats::new("f".to_string());
    s.record(1_999); // 1 µs and 999 ns
    assert!(!s.exceeds_target(1));
    assert!(s.exceeds_target(0));
}

#[test]
fn test_multiple_calls() {
    let mut profiler = FfiProfiler::new();
    for _ in 0..5 {
        profiler.record("multi_call", 5 * MILLI);
    }
    let stats = profiler.get_stats("multi_call").expect("recorded");
    assert_eq!(stats.call_count, 5);
    assert!(stats.avg_duration >= 5 * MILLI);
}

#[test]
fn test_enable_disable() {
    let mut profiler = FfiProfiler::new();
    profiler.disable();
    assert!(!profiler.is_enabled());
    profiler.record("disabled", 5 * MILLI);
    assert!(profiler.get_stats("disabled").is_none());

    profiler.enable();
    assert!(profiler.is_enabled());
    profiler.record("enabled", 5 * MILLI);
    assert!(profiler.get_stats("enabled").is_some());
}

#[test]
fn test_reset() {
    let mut profiler = FfiProfiler::new();
    profiler.record("test", 5 * MILLI);
    assert!(profiler.get_stats("test").is_some());
    profiler.reset();
    assert!(profiler.get_stats("test").is_none());
    assert!(profiler.get_all_stats().is_empty());
}

#[test]
fn test_hotspots() {
    let mut profiler = FfiProfiler::new();
    profiler.record("fast", MILLI);
    profiler.record("slow", 10 * MILLI);
    let hotspots = profiler.get_hotspots();
    assert_eq!(hotspots.len(), 2);
    assert_eq!(hotspots[0].name, "slow");
    assert_eq!(hotspots[1].name, "fast");
}

#[test]
fn hotspots_keep_order_of_equal_averages() {
    let mut profiler = FfiProfiler::new();
    profiler.record("a", 7);
    profiler.record("b", 9);
    profiler.record("c", 7);
    let names: Vec<String> = profiler.get_hotspots().into_iter().map(|s| s.name).collect();
    assert_eq!(names, vec!["b".to_string(), "a".to_string(), "c".to_string()]);
}

#[test]
fn test_profiling_report() {
    let mut profiler = FfiProfiler::new();
    for i in 0..3 {
        profiler.record(&format!("func_{}", i), 5 * MILLI);
    }
    let report = profiler.report();
    assert_eq!(report.total_calls, 3);
    assert_eq!(report.total_duration, 15 * MILLI);
    assert_eq!(report.function_stats.len(), 3);

    let summary = report.summary();
    assert_eq!(summary.total_calls, 3);
    assert_eq!(summary.functions_profiled, 3);
    assert_eq!(summary.avg_call_duration, 5 * MILLI);
    assert_eq!(summary.max_call_duration, 5 * MILLI);
}

#[test]
fn test_identify_bottlenecks() {
    let mut profiler = FfiProfiler::new();
    profiler.record("fast", 100 * MICRO);
    profiler.record("slow", 10 * MILLI);
    let report = profiler.report();
    // Target: 1ms (1000 µs). "fast" avg=100µs, "slow" avg=10000µs.
    let bottlenecks = report.identify_bottlenecks(1000);
    assert!(bottlenecks.contains(&"slow".to_string()));
    assert!(!bottlenecks.contains(&"fast".to_string()));
}

#[test]
fn entries_are_kept_per_name_in_first_record_order() {
    let mut profiler = FfiProfiler::default();
    profiler.record("x", 10);
    profiler.record("y", 20);
    profiler.record("x", 30);
    let all = profiler.get_all_stats();
    assert_eq!(all.len(), 2);
    assert_eq!(all[0].name, "x");
    assert_eq!(all[0].call_count, 2);
    assert_eq!(all[0].total_duration, 40);
    assert_eq!(all[1].name, "y");
    assert_eq!(profiler.total_overhead(), 60);
}

#[test]
fn empty_report_summary() {
    let report = ProfilingReport { total_calls: 0, total_duration: 0, function_stats: vec![] };
    let summary = report.summary();
    assert_eq!(
        summary,
        OverheadSummary {
            total_calls: 0,
            total_duration: 0,
            avg_call_duration: 0,
            max_call_duration: 0,
            functions_profiled: 0,
        }
    );
    assert!(summary.meets_target(0));
}

#[test]
fn summary_meets_target_in_whole_microseconds() {
    let mut profiler = FfiProfiler::new();
    profiler.record("f", 2_500);
    profiler.record("g", 3_500);
    let summary = profiler.report().summary();
    assert_eq!(summary.avg_call_duration, 3_000);
    assert!(summary.meets_target(3));
    assert!(!summary.meets_target(2));
    assert_eq!(summary.max_call_duration, 3_500);
}
