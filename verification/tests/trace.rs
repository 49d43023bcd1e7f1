//! Traces of executions.

use clash_prism_core::executor::ExecutionContext;
use clash_prism_core::ir::{Patch, PatchId, PatchOp};
use clash_prism_core::json_text::to_json_text;
use clash_prism_core::number::{read_number, to_json_number, Number};
use clash_prism_core::scope::Scope;
use clash_prism_core::source::{PatchSource, SourceKind};
use clash_prism_core::trace::{
    apply_patch_simple, ExecutionTrace, TraceManager, TraceSummary,
};
use clash_prism_core::value::{Document, Object};

/// The document that a JSON text denotes.
fn json(text: &str) -> serde_json::Value {
    serde_json::from_str(text).unwrap()
}

/// The same document for the library.
fn lib(v: &serde_json::Value) -> Document {
    match v {
        serde_json::Value::Null => Document::Null,
        serde_json::Value::Bool(b) => Document::Bool(*b),
        serde_json::Value::Number(n) => {
            if let Some(i) = n.as_i64() {
                Document::Number(Number::Int(i))
            } else if let Some(u) = n.as_u64() {
                Document::Number(Number::UInt(u))
            } else {
                let text: Vec<char> = n.to_string().chars().collect();
                Document::Number(to_json_number(read_number(&text).unwrap()))
            }
        }
        serde_json::Value::String(s) => Document::String(s.clone()),
        serde_json::Value::Array(items) => Document::Array(items.iter().map(lib).collect()),
        serde_json::Value::Object(map) => {
            let mut out = Object::new();
            for (k, v) in map {
                out.insert(k.clone(), lib(v));
            }
            Document::Object(out)
        }
    }
}

/// A document of the library as `serde_json` has it.
fn plain(v: &Document) -> serde_json::Value {
    serde_json::from_str(&to_json_text(v)).unwrap()
}

fn new_patch(
    source: PatchSource,
    scope: Scope,
    path: &str,
    op: PatchOp,
    value: serde_json::Value,
) -> Patch {
    Patch::new(source, scope, path, op, lib(&value))
}

fn make_test_trace(
    _id: &str,
    file: Option<&str>,
    op: PatchOp,
    matched: bool,
    summary: TraceSummary,
) -> ExecutionTrace {
    ExecutionTrace::new(
        PatchId::new(),
        PatchSource {
            kind: SourceKind::YamlFile,
            file: file.map(|s| s.to_string()),
            line: None,
            plugin_id: None,
        },
        op,
        42,
        matched,
        summary,
        vec![],
    )
}

#[test]
fn test_statistics_empty() {
    let mgr = TraceManager::new();
    let stats = mgr.statistics();
    assert_eq!(stats.total_patches, 0);
    assert_eq!(stats.succeeded, 0);
    assert_eq!(stats.skipped, 0);
}

#[test]
fn test_statistics_mixed_results() {
    let mut mgr = TraceManager::new();
    mgr.push(
        make_test_trace(
            "1",
            Some("a.yaml"),
            PatchOp::DeepMerge,
            true,
            TraceSummary::new(1, 0, 2, 5, 8, 10),
        ),
        new_patch(
            PatchSource {
                kind: SourceKind::Builtin,
                file: None,
                line: None,
                plugin_id: None,
            },
            Scope::Global,
            "dns",
            PatchOp::DeepMerge,
            json(r#"{}"#),
        ),
    );
    mgr.push(
        make_test_trace(
            "2",
            Some("b.yaml"),
            PatchOp::Append,
            false,
            TraceSummary::new(0, 0, 0, 3, 3, 3),
        ),
        new_patch(
            PatchSource {
                kind: SourceKind::Builtin,
                file: None,
                line: None,
                plugin_id: None,
            },
            Scope::Global,
            "rules",
            PatchOp::Append,
            json(r#"[]"#),
        ),
    );
    mgr.push(
        make_test_trace(
            "3",
            Some("a.yaml"),
            PatchOp::SetDefault,
            true,
            TraceSummary::new(0, 0, 1, 0, 0, 1),
        ),
        new_patch(
            PatchSource {
                kind: SourceKind::Builtin,
                file: None,
                line: None,
                plugin_id: None,
            },
            Scope::Global,
            "tun",
            PatchOp::SetDefault,
            json(r#"{}"#),
        ),
    );

    let stats = mgr.statistics();
    assert_eq!(stats.total_patches, 3);
    assert_eq!(stats.succeeded, 2);
    assert_eq!(stats.skipped, 1);
    assert_eq!(stats.total_added, 1);
    assert_eq!(stats.total_modified, 3); // 2 + 1
    assert_eq!(stats.total_duration_us, 126); // 42 * 3
}

#[test]
fn test_filter_by_source_file() {
    let mut mgr = TraceManager::new();
    mgr.push(
        make_test_trace(
            "1",
            Some("/path/to/base-dns.yaml"),
            PatchOp::DeepMerge,
            true,
            TraceSummary::new(0, 0, 0, 0, 0, 0),
        ),
        new_patch(
            PatchSource {
                kind: SourceKind::Builtin,
                file: None,
                line: None,
                plugin_id: None,
            },
            Scope::Global,
            "dns",
            PatchOp::DeepMerge,
            json(r#"{}"#),
        ),
    );
    mgr.push(
        make_test_trace(
            "2",
            Some("/path/to/rules.yaml"),
            PatchOp::Append,
            true,
            TraceSummary::new(0, 0, 0, 0, 0, 0),
        ),
        new_patch(
            PatchSource {
                kind: SourceKind::Builtin,
                file: None,
                line: None,
                plugin_id: None,
            },
            Scope::Global,
            "rules",
            PatchOp::Append,
            json(r#"[]"#),
        ),
    );

    let filtered = mgr.filter_by_source_file("base-dns");
    assert_eq!(filtered.len(), 1);

    let all = mgr.filter_by_source_file(".yaml");
    assert_eq!(all.len(), 2);
}

#[test]
fn test_filter_by_op() {
    let mut mgr = TraceManager::new();
    mgr.push(
        make_test_trace(
            "1",
            None,
            PatchOp::DeepMerge,
            true,
            TraceSummary::new(0, 0, 0, 0, 0, 0),
        ),
        new_patch(
            PatchSource {
                kind: SourceKind::Builtin,
                file: None,
                line: None,
                plugin_id: None,
            },
            Scope::Global,
            "a",
            PatchOp::DeepMerge,
            json(r#"{}"#),
        ),
    );
    mgr.push(
        make_test_trace(
            "2",
            None,
            PatchOp::DeepMerge,
            true,
            TraceSummary::new(0, 0, 0, 0, 0, 0),
        ),
        new_patch(
            PatchSource {
                kind: SourceKind::Builtin,
                file: None,
                line: None,
                plugin_id: None,
            },
            Scope::Global,
            "b",
            PatchOp::DeepMerge,
            json(r#"{}"#),
        ),
    );
    mgr.push(
        make_test_trace(
            "3",
            None,
            PatchOp::Append,
            true,
            TraceSummary::new(0, 0, 0, 0, 0, 0),
        ),
        new_patch(
            PatchSource {
                kind: SourceKind::Builtin,
                file: None,
                line: None,
                plugin_id: None,
            },
            Scope::Global,
            "c",
            PatchOp::Append,
            json(r#"[]"#),
        ),
    );

    let merges = mgr.filter_by_op(&PatchOp::DeepMerge);
    assert_eq!(merges.len(), 2);

    let appends = mgr.filter_by_op(&PatchOp::Append);
    assert_eq!(appends.len(), 1);
}

#[test]
fn test_affected_paths_dedup() {
    let mut mgr = TraceManager::new();
    // 同一路径被多个 patch 修改 → 去重后只出现一次
    for _ in 0..3 {
        mgr.push(
            make_test_trace(
                "x",
                None,
                PatchOp::DeepMerge,
                true,
                TraceSummary::new(0, 0, 0, 0, 0, 0),
            ),
            new_patch(
                PatchSource {
                    kind: SourceKind::Builtin,
                    file: None,
                    line: None,
                    plugin_id: None,
                },
                Scope::Global,
                "dns",
                PatchOp::DeepMerge,
                json(r#"{}"#),
            ),
        );
    }
    mgr.push(
        make_test_trace(
            "y",
            None,
            PatchOp::Append,
            true,
            TraceSummary::new(0, 0, 0, 0, 0, 0),
        ),
        new_patch(
            PatchSource {
                kind: SourceKind::Builtin,
                file: None,
                line: None,
                plugin_id: None,
            },
            Scope::Global,
            "rules",
            PatchOp::Append,
            json(r#"[]"#),
        ),
    );

    let paths = mgr.affected_paths();
    assert_eq!(paths.len(), 2); // dns + rules（去重）
    assert!(paths.contains(&"dns".to_string()));
    assert!(paths.contains(&"rules".to_string()));
}

#[test]
fn test_full_report_contains_header() {
    let mgr = TraceManager::new();
    let report = mgr.full_report();
    assert!(report.contains("Prism Engine 执行追踪报告"));
    assert!(report.contains("总览"));
}

/// 验证 replay_at_step 与手动 apply_patch_simple 的一致性。
///
/// 确保 replay 机制能正确复现单步 Patch 执行的结果，
/// 这是 Explain View 和 Diff View 功能正确性的基础。
#[test]
fn test_replay_consistency_basic() {

    // 1. 创建简单的 base_config
    let base_config = json(r#"{ "dns": { "enable": false }, "mixed-port": 7890 }"#);

    // 2. 创建一个简单的 Patch（DeepMerge 操作）
    let patch = new_patch(
        PatchSource {
            kind: SourceKind::Builtin,
            file: None,
            line: None,
            plugin_id: None,
        },
        Scope::Global,
        "dns",
        PatchOp::DeepMerge,
        json(r#"{ "enable": true, "nameserver": ["8.8.8.8"] }"#),
    );

    // 3. 手动执行 apply_patch_simple 得到结果 A
    let mut config_a = base_config.clone();
    let mut applied = lib(&config_a);
    apply_patch_simple(&mut applied, &patch);
    config_a = plain(&applied);

    // 4. 创建 TraceManager 并 push patch，然后使用 replay_at_step(0) 得到结果 B
    let mut mgr = TraceManager::new();
    let trace = ExecutionTrace::new(
        patch.id.clone(),
        PatchSource {
            kind: SourceKind::Builtin,
            file: None,
            line: None,
            plugin_id: None,
        },
        PatchOp::DeepMerge,
        0,
        true,
        TraceSummary::new(0, 0, 1, 1, 1, 2),
        vec![],
    );
    mgr.push(trace, patch.clone());

    let context = ExecutionContext::default();
    let config_b = mgr
        .replay_at_step(0, &lib(&base_config), &context)
        .expect("replay_at_step(0) 应返回 Some");
    let config_b = plain(&config_b);

    // 5. 断言 A == B
    assert_eq!(
        config_a, config_b,
        "手动 apply_patch_simple 结果应与 replay_at_step(0) 一致"
    );

    // 额外验证：DeepMerge 应正确合并字段
    assert_eq!(config_a["dns"]["enable"], true);
    assert_eq!(
        config_a["dns"]["nameserver"],
        json(r#"["8.8.8.8"]"#)
    );
    // 原始字段不受影响
    assert_eq!(config_a["mixed-port"], 7890);
}
