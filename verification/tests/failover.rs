//! Switching away from nodes, and durations in words.

use clash_prism_core::duration::{parse_human_duration, read_human_duration, HumanDuration};
use clash_prism_core::failover::{FailoverTracker, NodeFailPolicy};
use std::time::Duration;

#[test]
fn test_default_policy() {
    let policy = NodeFailPolicy::default();
    assert_eq!(policy.threshold, 3);
    assert_eq!(policy.fallback_group, "next");
    assert_eq!(policy.cooldown, Duration::from_secs(30).as_nanos());
    assert!(policy.enabled);
}

#[test]
fn test_failover_trigger_on_threshold() {
    let policy = NodeFailPolicy::new().with_threshold(3).with_cooldown(0); // 无冷却
    let mut tracker = FailoverTracker::new(policy);

    // 前两次失败不应触发
    assert!(tracker.report("node-a", false).is_none());
    assert_eq!(tracker.failure_count("node-a"), 1);

    assert!(tracker.report("node-a", false).is_none());
    assert_eq!(tracker.failure_count("node-a"), 2);

    // 第三次失败应触发切换
    let action = tracker
        .report("node-a", false)
        .expect("should trigger failover");
    assert_eq!(action.failed_node, "node-a");
    assert_eq!(action.failure_count, 3);
    assert_eq!(action.target, "next");

    // 触发后计数应重置
    assert_eq!(tracker.failure_count("node-a"), 0);
}

#[test]
fn test_success_resets_count() {
    let policy = NodeFailPolicy::new().with_threshold(3);
    let mut tracker = FailoverTracker::new(policy);

    tracker.report("node-a", false);
    tracker.report("node-a", false);
    assert_eq!(tracker.failure_count("node-a"), 2);

    // 成功重置
    tracker.report("node-a", true);
    assert_eq!(tracker.failure_count("node-a"), 0);
}

#[test]
fn test_cooldown_prevents_rapid_switch() {
    let policy = NodeFailPolicy::new().with_threshold(1).with_cooldown(60); // 60秒冷却
    let mut tracker = FailoverTracker::new(policy);

    // 第一次触发
    let action1 = tracker.report("node-a", false);
    assert!(action1.is_some());

    // 立即再次触发应在冷却期内被抑制
    let action2 = tracker.report("node-b", false);
    assert!(action2.is_none(), "should be suppressed by cooldown");
}

#[test]
fn test_disabled_policy_no_action() {
    let policy = NodeFailPolicy {
        enabled: false,
        ..Default::default()
    };
    let mut tracker = FailoverTracker::new(policy);

    // 即使超过阈值也不触发
    for _ in 0..5 {
        assert!(tracker.report("node-a", false).is_none());
    }
}

#[test]
fn test_custom_fallback_group() {
    let policy = NodeFailPolicy::new()
        .with_threshold(2)
        .with_fallback("DIRECT")
        .with_cooldown(0);
    let mut tracker = FailoverTracker::new(policy);

    tracker.report("proxy-node", false);
    let action = tracker.report("proxy-node", false).expect("should trigger");
    assert_eq!(action.target, "DIRECT");
}

#[test]
fn test_multiple_nodes_independent() {
    let policy = NodeFailPolicy::new().with_threshold(2).with_cooldown(0);
    let mut tracker = FailoverTracker::new(policy);

    // node-a 失败 1 次
    tracker.report("node-a", false);
    // node-b 失败 2 次 → 应触发
    let action = tracker.report("node-b", false);
    assert!(action.is_none()); // node-b 只失败了 1 次

    let action = tracker.report("node-b", false);
    assert!(action.is_some());
    assert_eq!(action.as_ref().unwrap().failed_node, "node-b");

    // node-a 不受影响，仍为 1
    assert_eq!(tracker.failure_count("node-a"), 1);
}

#[test]
fn test_parse_human_duration_fractional_seconds() {
    // 支持小数秒格式
    assert_eq!(
        parse_human_duration("1.5s"),
        Some(Duration::from_millis(1500).as_nanos())
    );
    assert_eq!(
        parse_human_duration("0.5s"),
        Some(Duration::from_millis(500).as_nanos())
    );
    assert_eq!(
        parse_human_duration("0.001s"),
        Some(Duration::from_micros(1000).as_nanos())
    );
}

#[test]
fn test_parse_human_duration_fractional_minutes() {
    assert_eq!(parse_human_duration("1.5m"), Some(Duration::from_secs(90).as_nanos()));
    assert_eq!(
        parse_human_duration("0.1m"),
        Some(Duration::from_millis(6000).as_nanos())
    );
}

#[test]
fn test_parse_human_duration_combined_fractional() {
    // "1h30m15.5s" = 3600 + 1800 + 15.5 = 5415.5s
    let result = parse_human_duration("1h30m15.5s").unwrap();
    assert_eq!(
        result,
        (Duration::from_secs(5415) + Duration::from_millis(500)).as_nanos()
    );
}

#[test]
fn test_parse_human_duration_edge_cases() {
    assert_eq!(parse_human_duration("0s"), None); // 零值拒绝
    assert_eq!(parse_human_duration(""), None);
    assert_eq!(parse_human_duration("abc"), None);
    assert_eq!(parse_human_duration("1x"), None); // 无效单位
    assert_eq!(parse_human_duration("s"), None); // 缺少数值
}

#[test]
fn human_durations_in_any_order_and_form() {
    let hour: u128 = 3_600_000_000_000;
    assert_eq!(parse_human_duration(" 30m1h "), Some(hour + hour / 2));
    assert_eq!(parse_human_duration("1h30m"), parse_human_duration("30m1h"));
    assert_eq!(parse_human_duration(".5s"), Some(500_000_000));
    assert_eq!(parse_human_duration("5.s"), Some(5_000_000_000));
    assert_eq!(parse_human_duration("0.0000000006s"), Some(1));
    assert_eq!(parse_human_duration("0h0.0s"), None);
    assert_eq!(parse_human_duration("1.2.3s"), None);
    assert_eq!(parse_human_duration(".s"), None);
    assert_eq!(parse_human_duration("1"), None);
    assert_eq!(parse_human_duration("1 s"), None);
}

#[test]
fn durations_that_are_too_long() {
    assert_eq!(
        read_human_duration("18446744073709551615s"),
        HumanDuration::Nanos(18_446_744_073_709_551_615_000_000_000)
    );
    assert_eq!(read_human_duration("18446744073709551616s"), HumanDuration::TooLong);
    assert_eq!(
        read_human_duration("99999999999999999999999999999999999999999h"),
        HumanDuration::TooLong
    );
    assert_eq!(
        read_human_duration("99999999999999999999999999999999999999999h1x"),
        HumanDuration::Invalid
    );
}

#[test]
fn the_cooldown_of_the_group_and_of_the_node() {
    let policy = NodeFailPolicy::new().with_threshold(1).with_cooldown(10);
    let mut tracker = FailoverTracker::new(policy);
    let second: u128 = 1_000_000_000;

    assert!(tracker.report_at("a", false, 0).is_some());
    assert!(tracker.report_at("b", false, 9 * second).is_none());
    assert_eq!(tracker.failure_count("b"), 1);
    // 冷却期结束后，失败次数继续累计并触发切换
    let action = tracker.report_at("b", false, 10 * second).unwrap();
    assert_eq!(action.failed_node, "b");
    assert_eq!(action.failure_count, 2);
    assert_eq!(tracker.failure_count("b"), 0);
    assert!(tracker.report_at("a", false, 19 * second).is_none());

    tracker.reset_all();
    assert_eq!(tracker.failure_count("a"), 0);
    assert!(tracker.report_at("a", false, 19 * second).is_some());
    assert_eq!(tracker.policy().threshold, 1);
}

#[test]
fn a_disabled_tracker_notes_nothing() {
    let mut policy = NodeFailPolicy::default();
    policy.enabled = false;
    let mut tracker = FailoverTracker::new(policy);
    tracker.report("a", false);
    assert_eq!(tracker.failure_count("a"), 0);
}
