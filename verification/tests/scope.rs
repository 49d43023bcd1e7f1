//! Scopes and times of day.

use clash_prism_core::scope::{Platform, Scope, ScopedBuilder, TimeRange};

// ─── Scope 构造器 ───

#[test]
fn test_scope_global() {
    let scope = Scope::global();
    assert!(scope.is_global());
    assert_eq!(scope.priority(), 1);
}

#[test]
fn test_scope_profile() {
    let scope = Scope::profile("work");
    assert!(!scope.is_global());
    assert_eq!(scope.priority(), 0);
    match scope {
        Scope::Profile(name) => assert_eq!(name, "work"),
        _ => panic!("Expected Profile variant"),
    }
}

#[test]
fn test_scope_runtime() {
    let scope = Scope::runtime();
    assert!(!scope.is_global());
    assert_eq!(scope.priority(), 3);
}

#[test]
fn test_scope_default_is_global() {
    let scope = Scope::default();
    assert!(scope.is_global());
    assert_eq!(scope.priority(), 1);
}

#[test]
fn test_scope_scoped_builder() {
    let scope = Scope::scoped().build();
    assert!(!scope.is_global());
    assert_eq!(scope.priority(), 2);
}

// ─── Scope::is_global ───

#[test]
fn test_is_global_true_for_global() {
    assert!(Scope::global().is_global());
}

#[test]
fn test_is_global_false_for_others() {
    assert!(!Scope::profile("x").is_global());
    assert!(!Scope::runtime().is_global());
    assert!(!Scope::scoped().build().is_global());
}

// ─── Scope::priority ───

#[test]
fn test_priority_values() {
    assert_eq!(Scope::global().priority(), 1);
    assert_eq!(Scope::profile("x").priority(), 0);
    assert_eq!(Scope::scoped().build().priority(), 2);
    assert_eq!(Scope::runtime().priority(), 3);
}

// ─── Scope Display ───

#[test]
fn test_scope_display_global() {
    assert_eq!(Scope::global().to_text(), "Global");
}

#[test]
fn test_scope_display_profile() {
    assert_eq!(Scope::profile("work").to_text(), "Profile(work)");
}

#[test]
fn test_scope_display_runtime() {
    assert_eq!(Scope::runtime().to_text(), "Runtime");
}

#[test]
fn test_scope_display_scoped() {
    let scope = ScopedBuilder::new()
        .with_core("clash")
        .platform(vec![Platform::MacOS])
        .profile("home")
        .build();
    let display = scope.to_text();
    assert!(display.starts_with("Scoped("));
    assert!(display.contains("core=clash"));
    assert!(display.contains("profile=home"));
    assert!(display.contains("platform=[macos]"));
}

// ─── ScopedBuilder 完整链式调用 ───

#[test]
fn test_scoped_builder_full_chain() {
    let tr = TimeRange::parse("09:00-17:00").unwrap();
    let scope = ScopedBuilder::new()
        .with_core("clash")
        .platform(vec![Platform::MacOS, Platform::Linux])
        .time(tr)
        .profile("work")
        .enabled(true)
        .ssid("OfficeWiFi")
        .build();

    match scope {
        Scope::Scoped {
            profile,
            platform,
            core,
            time_range,
            enabled,
            ssid,
        } => {
            assert_eq!(profile.as_deref(), Some("work"));
            assert_eq!(platform.as_deref().map(|v| v.len()), Some(2));
            assert!(platform.as_ref().unwrap().contains(&Platform::MacOS));
            assert!(platform.as_ref().unwrap().contains(&Platform::Linux));
            assert_eq!(core.as_deref(), Some("clash"));
            assert_eq!(time_range.as_ref().unwrap().start, (9, 0));
            assert_eq!(time_range.as_ref().unwrap().end, (17, 0));
            assert_eq!(enabled, Some(true));
            assert_eq!(ssid.as_deref(), Some("OfficeWiFi"));
        }
        _ => panic!("Expected Scoped variant"),
    }
}

#[test]
fn test_scoped_builder_enabled_false() {
    let scope = ScopedBuilder::new().enabled(false).build();
    match scope {
        Scope::Scoped { enabled, .. } => assert_eq!(enabled, Some(false)),
        _ => panic!("Expected Scoped variant"),
    }
}

#[test]
fn test_scoped_builder_default_all_none() {
    let scope = ScopedBuilder::new().build();
    match scope {
        Scope::Scoped {
            profile,
            platform,
            core,
            time_range,
            enabled,
            ssid,
        } => {
            assert!(profile.is_none());
            assert!(platform.is_none());
            assert!(core.is_none());
            assert!(time_range.is_none());
            assert!(enabled.is_none());
            assert!(ssid.is_none());
        }
        _ => panic!("Expected Scoped variant"),
    }
}

// ─── TimeRange::parse ───

#[test]
fn test_time_range_parse_normal() {
    let tr = TimeRange::parse("09:00-17:00").unwrap();
    assert_eq!(tr.start, (9, 0));
    assert_eq!(tr.end, (17, 0));
}

#[test]
fn test_time_range_parse_midnight_crossover() {
    let tr = TimeRange::parse("23:00-06:00").unwrap();
    assert_eq!(tr.start, (23, 0));
    assert_eq!(tr.end, (6, 0));
}

#[test]
fn test_time_range_parse_full_day() {
    let tr = TimeRange::parse("00:00-00:00").unwrap();
    assert_eq!(tr.start, (0, 0));
    assert_eq!(tr.end, (0, 0));
}

#[test]
fn test_time_range_parse_invalid_format() {
    let result = TimeRange::parse("invalid");
    assert!(result.is_err());
}

#[test]
fn test_time_range_parse_invalid_hours() {
    let result = TimeRange::parse("25:00-26:00");
    assert!(result.is_err());
    let err = result.unwrap_err();
    assert!(err.contains("小时值超出范围"), "错误信息: {}", err);
}

#[test]
fn test_time_range_parse_invalid_minutes() {
    let result = TimeRange::parse("10:60-12:00");
    assert!(result.is_err());
    let err = result.unwrap_err();
    assert!(err.contains("分钟值超出范围"), "错误信息: {}", err);
}

#[test]
fn test_time_range_parse_missing_dash() {
    let result = TimeRange::parse("09:00");
    assert!(result.is_err());
}

#[test]
fn test_time_range_parse_non_numeric() {
    let result = TimeRange::parse("ab:cd-ef:gh");
    assert!(result.is_err());
}

#[test]
fn test_time_range_parse_single_digit_hour() {
    let tr = TimeRange::parse("9:5-18:30").unwrap();
    assert_eq!(tr.start, (9, 5));
    assert_eq!(tr.end, (18, 30));
}

// ─── TimeRange::contains ───

#[test]
fn test_contains_normal_range() {
    let tr = TimeRange::parse("09:00-17:00").unwrap();
    // 09:00 = 540 min, 12:00 = 720 min, 17:00 = 1020 min
    assert!(tr.contains(540)); // 09:00 边界
    assert!(tr.contains(720)); // 12:00 中间
    assert!(tr.contains(1020)); // 17:00 边界
    assert!(!tr.contains(539)); // 08:59 不在范围内
    assert!(!tr.contains(1021)); // 17:01 不在范围内
}

#[test]
fn test_contains_midnight_crossover() {
    let tr = TimeRange::parse("23:00-06:00").unwrap();
    // 23:00 = 1380 min, 00:00 = 0 min, 06:00 = 360 min
    assert!(tr.contains(1380)); // 23:00
    assert!(tr.contains(0)); // 00:00
    assert!(tr.contains(360)); // 06:00
    assert!(tr.contains(1439)); // 23:59
    assert!(!tr.contains(720)); // 12:00 不在范围内
    assert!(!tr.contains(361)); // 06:01 不在范围内
}

#[test]
fn test_contains_full_day() {
    let tr = TimeRange::parse("00:00-00:00").unwrap();
    // 00:00-00:00: start == end → treated as all day
    assert!(tr.contains(0));
    assert!(tr.contains(1));
    assert!(tr.contains(720)); // 12:00
    assert!(tr.contains(1439)); // 23:59
}

#[test]
fn test_contains_edge_case_2359() {
    let tr = TimeRange::parse("00:00-23:59").unwrap();
    assert!(tr.contains(0));
    assert!(tr.contains(1439)); // 23:59
    assert!(!tr.contains(1440)); // 不可能值但测试边界
}

// ─── TimeRange Display ───

#[test]
fn test_time_range_display() {
    let tr = TimeRange::parse("09:00-17:00").unwrap();
    assert_eq!(tr.to_text(), "09:00-17:00");
}

#[test]
fn test_time_range_display_midnight() {
    let tr = TimeRange::parse("23:00-06:00").unwrap();
    assert_eq!(tr.to_text(), "23:00-06:00");
}

// ─── Platform Display ───

#[test]
fn test_platform_display() {
    assert_eq!(Platform::Windows.name(), "windows");
    assert_eq!(Platform::MacOS.name(), "macos");
    assert_eq!(Platform::Linux.name(), "linux");
}

// ─── ScopedBuilder Default ───

#[test]
fn test_scoped_builder_default() {
    let builder = ScopedBuilder::default();
    let scope = builder.build();
    match scope {
        Scope::Scoped {
            profile,
            platform,
            core,
            time_range,
            enabled,
            ssid,
        } => {
            assert!(profile.is_none());
            assert!(platform.is_none());
            assert!(core.is_none());
            assert!(time_range.is_none());
            assert!(enabled.is_none());
            assert!(ssid.is_none());
        }
        _ => panic!("Expected Scoped variant"),
    }
}

// ══════════════════════════════════════════════════════════
// 边界测试 — 刁难、临界、对抗性情况
// ══════════════════════════════════════════════════════════

/// 1. 正常时间范围 08:00-23:00
#[test]
fn test_time_range_normal() {
    let tr = TimeRange::parse("08:00-23:00").unwrap();
    assert_eq!(tr.start, (8, 0));
    assert_eq!(tr.end, (23, 0));
    // 08:00 = 480, 12:00 = 720, 23:00 = 1380
    assert!(tr.contains(480), "08:00 应在范围内");
    assert!(tr.contains(720), "12:00 应在范围内");
    assert!(tr.contains(1380), "23:00 应在范围内");
    assert!(!tr.contains(479), "07:59 不应在范围内");
    assert!(!tr.contains(1381), "23:01 不应在范围内");
}

/// 2. 跨午夜 23:00-06:00
#[test]
fn test_time_range_cross_midnight() {
    let tr = TimeRange::parse("23:00-06:00").unwrap();
    assert_eq!(tr.start, (23, 0));
    assert_eq!(tr.end, (6, 0));
    // 23:00 = 1380, 00:00 = 0, 03:00 = 180, 06:00 = 360
    assert!(tr.contains(1380), "23:00 应在范围内");
    assert!(tr.contains(0), "00:00 应在范围内");
    assert!(tr.contains(180), "03:00 应在范围内");
    assert!(tr.contains(360), "06:00 应在范围内");
    assert!(tr.contains(1439), "23:59 应在范围内");
    assert!(!tr.contains(480), "08:00 不应在范围内");
    assert!(!tr.contains(361), "06:01 不应在范围内");
}

/// 3. 全天 00:00-23:59
#[test]
fn test_time_range_full_day() {
    let tr = TimeRange::parse("00:00-23:59").unwrap();
    assert_eq!(tr.start, (0, 0));
    assert_eq!(tr.end, (23, 59));
    // start < end → normal range, covers 0..1439
    assert!(tr.contains(0), "00:00 应在范围内");
    assert!(tr.contains(1439), "23:59 应在范围内");
    assert!(tr.contains(720), "12:00 应在范围内");
}

/// 4. 单分钟 12:30-12:30
#[test]
fn test_time_range_single_minute() {
    let tr = TimeRange::parse("12:30-12:30").unwrap();
    assert_eq!(tr.start, (12, 30));
    assert_eq!(tr.end, (12, 30));
    // start == end → treated as all day (per spec)
    assert!(tr.contains(0), "00:00 应匹配（start==end 视为全天）");
    assert!(tr.contains(750), "12:30 应匹配");
    assert!(tr.contains(1439), "23:59 应匹配");
}

/// 5. 反转范围 23:00-08:00（等同于跨午夜）
#[test]
fn test_time_range_inverted() {
    let tr = TimeRange::parse("23:00-08:00").unwrap();
    assert_eq!(tr.start, (23, 0));
    assert_eq!(tr.end, (8, 0));
    // start > end → cross-midnight
    assert!(tr.contains(1380), "23:00 应在范围内");
    assert!(tr.contains(0), "00:00 应在范围内");
    assert!(tr.contains(480), "08:00 应在范围内");
    assert!(tr.contains(1439), "23:59 应在范围内");
    assert!(!tr.contains(540), "09:00 不应在范围内");
    assert!(!tr.contains(481), "08:01 不应在范围内");
}

/// 6. 精确平台匹配
#[test]
fn test_platform_match_exact() {
    let scope = Scope::scoped().platform(vec![Platform::MacOS]).build();
    match scope {
        Scope::Scoped { platform, .. } => {
            let platforms = platform.unwrap();
            assert_eq!(platforms.len(), 1);
            assert_eq!(platforms[0], Platform::MacOS);
        }
        _ => panic!("Expected Scoped variant"),
    }
}

/// 7. 多平台匹配
#[test]
fn test_platform_match_multiple() {
    let scope = Scope::scoped()
        .platform(vec![Platform::Windows, Platform::Linux, Platform::MacOS])
        .build();
    match scope {
        Scope::Scoped { platform, .. } => {
            let platforms = platform.unwrap();
            assert_eq!(
                platforms,
                &[Platform::Windows, Platform::Linux, Platform::MacOS]
            );
        }
        _ => panic!("Expected Scoped variant"),
    }
}

/// 8. 默认作用域是 Global
#[test]
fn test_scope_default_is_global_boundary() {
    let scope = Scope::default();
    assert!(scope.is_global(), "Default scope 应为 Global");
    assert_eq!(scope.priority(), 1, "Global 优先级应为 1");
    // 验证 Display 输出
    assert_eq!(scope.to_text(), "Global");
}

/// 9. Scoped builder 链式调用
#[test]
fn test_scoped_builder_chaining() {
    let tr = TimeRange::parse("08:00-23:00").unwrap();
    let scope = Scope::scoped()
        .with_core("mihomo")
        .platform(vec![Platform::MacOS, Platform::Linux])
        .time(tr.clone())
        .profile("work")
        .enabled(true)
        .ssid("OfficeWiFi")
        .build();

    // 验证所有字段通过链式调用正确设置
    match &scope {
        Scope::Scoped {
            profile,
            platform,
            core,
            time_range,
            enabled,
            ssid,
        } => {
            assert_eq!(profile.as_deref(), Some("work"));
            assert_eq!(platform.as_ref().map(|v| v.len()), Some(2));
            assert_eq!(core.as_deref(), Some("mihomo"));
            assert_eq!(time_range.as_ref().unwrap().start, (8, 0));
            assert_eq!(time_range.as_ref().unwrap().end, (23, 0));
            assert_eq!(*enabled, Some(true));
            assert_eq!(ssid.as_deref(), Some("OfficeWiFi"));
        }
        _ => panic!("Expected Scoped variant"),
    }

    // 验证 Display 输出包含关键信息
    let display = scope.to_text();
    assert!(display.starts_with("Scoped("));
    assert!(display.contains("core=mihomo"));
    assert!(display.contains("work"));
}

#[test]
fn written_ranges_are_read_back() {
    for text in ["00:00-23:59", "09:05-17:30", "23:00-06:00", "12:30-12:30"] {
        assert_eq!(TimeRange::parse(text).unwrap().to_text(), text);
    }
    let odd = TimeRange::parse("9:5-+18:030").unwrap();
    assert_eq!(odd.to_text(), "09:05-18:30");
    assert_eq!(TimeRange::parse(&odd.to_text()).unwrap(), odd);
}
