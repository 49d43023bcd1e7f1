//! Times of phases.

use clash_prism_core::perf::{format_us, PerfTracker};
use std::time::{Duration, Instant};

#[test]
fn test_perf_tracker_new() {
    let tracker = PerfTracker::new();
    assert_eq!(tracker.phase_count(), 0);
    assert!(tracker.phases().is_empty());
}

#[test]
fn test_perf_tracker_measure() {
    let mut tracker = PerfTracker::new();

    let result = tracker.measure("测试阶段", || {
        // 模拟一些工作
        let start = Instant::now();
        while start.elapsed() < Duration::from_millis(10) {}
        42
    });

    assert_eq!(result, 42);
    assert_eq!(tracker.phase_count(), 1);
    assert_eq!(tracker.phases()[0].name, "测试阶段");
    // 至少 10000 us (10ms)
    assert!(tracker.phases()[0].duration_us >= 10_000);
}

#[test]
fn test_perf_tracker_measure_multiple() {
    let mut tracker = PerfTracker::new();

    tracker.measure("阶段1", || {});
    tracker.measure("阶段2", || {});
    tracker.measure("阶段3", || {});

    assert_eq!(tracker.phase_count(), 3);
}

#[test]
fn test_perf_tracker_record() {
    let mut tracker = PerfTracker::new();
    tracker.record("手动记录", Duration::from_micros(1234).as_micros());

    assert_eq!(tracker.phase_count(), 1);
    assert_eq!(tracker.phases()[0].duration_us, 1234);
}

#[test]
fn test_perf_tracker_total_duration() {
    let mut tracker = PerfTracker::new();
    tracker.record("a", Duration::from_micros(100).as_micros());
    tracker.record("b", Duration::from_micros(200).as_micros());
    tracker.record("c", Duration::from_micros(300).as_micros());

    assert_eq!(
        Duration::from_micros(tracker.total_duration()),
        Duration::from_micros(600)
    );
}

#[test]
fn test_perf_tracker_report() {
    let mut tracker = PerfTracker::new();
    tracker.record("解析", Duration::from_micros(1234).as_micros());
    tracker.record("编译", Duration::from_micros(567).as_micros());

    let report = tracker.report();
    assert!(report.contains("性能报告:"));
    assert!(report.contains("解析"));
    assert!(report.contains("编译"));
    assert!(report.contains("总计"));
}

#[test]
fn test_perf_tracker_report_empty() {
    let tracker = PerfTracker::new();
    let report = tracker.report();
    assert_eq!(report, "性能报告: 无记录阶段");
}

#[test]
fn test_perf_tracker_display() {
    let mut tracker = PerfTracker::new();
    tracker.record("测试", Duration::from_micros(100).as_micros());
    let display = tracker.report();
    assert!(display.contains("性能报告:"));
}

#[test]
fn test_perf_tracker_default() {
    let tracker = PerfTracker::default();
    assert_eq!(tracker.phase_count(), 0);
}

#[test]
fn test_format_us() {
    assert_eq!(format_us(0), "0");
    assert_eq!(format_us(1), "1");
    assert_eq!(format_us(999), "999");
    assert_eq!(format_us(1000), "1,000");
    assert_eq!(format_us(12345), "12,345");
    assert_eq!(format_us(1234567), "1,234,567");
}
