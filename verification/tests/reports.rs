//! Reports on executions, and answers about them.

use clash_prism_core::error::PrismError;
use clash_prism_core::ir::{Patch, PatchId, PatchOp};
use clash_prism_core::scope::Scope;
use clash_prism_core::source::PatchSource;
use clash_prism_core::trace::{
    AffectedItem, ExecutionTrace, TraceAction, TraceManager, TraceSummary,
};
use clash_prism_core::value::Document;

fn trace(id: &str, items: Vec<AffectedItem>, summary: TraceSummary) -> ExecutionTrace {
    ExecutionTrace::new(
        PatchId::from_identifier(id),
        PatchSource::yaml_file("a.yaml", Some(3)),
        PatchOp::Append,
        5,
        true,
        summary,
        items,
    )
}

fn patch(id: &str, path: &str) -> Patch {
    let mut p = Patch::new(
        PatchSource::yaml_file("a.yaml", Some(3)),
        Scope::global(),
        path,
        PatchOp::Append,
        Document::Null,
    );
    p.id = PatchId::from_identifier(id);
    p
}

fn manager() -> TraceManager {
    let mut m = TraceManager::new();
    m.push(
        trace("p1", vec![AffectedItem::added(2, "r")], TraceSummary::new(1, 0, 0, 2, 2, 3)),
        patch("p1", "rules"),
    );
    m.push(
        trace(
            "p2",
            vec![
                AffectedItem::removed(0, "x"),
                AffectedItem::modified(1, "old", "new"),
            ],
            TraceSummary::new(0, 1, 1, 0, 2, 1),
        ),
        patch("p2", "dns.nameserver"),
    );
    m.push(trace("p3", vec![], TraceSummary::new(0, 0, 0, 0, 0, 0)), patch("p3", "rules"));
    m
}

const LINES: &str = "  [1] a.yaml — Append — +1 -0 ~0 (5μs)\n      + r (新增)\n      摘要: +1 -0 ~0 [2 unchanged]\n  [2] a.yaml — Append — +0 -1 ~1 (5μs)\n      - x (删除)\n      ~ old → new\n      摘要: +0 -1 ~1 [0 unchanged]\n  [3] a.yaml — Append — +0 -0 ~0 (5μs)\n";

#[test]
fn the_report_on_changes() {
    assert_eq!(manager().diff_view_report(), LINES);
    assert_eq!(TraceManager::new().diff_view_report(), "(无执行记录)");
}

#[test]
fn the_report_on_everything() {
    let rule = "─".repeat(50);
    let expected = format!(
        "╔══ Prism Engine 执行追踪报告 ══╗\n\n📊 总览: 3 个 Patch | ✅ 成功 3 | ⏭️ 跳过 0\n📝 变更: +1 -1 ~1 | ⏱️ 总耗时 15μs (均 5μs/patch)\n\n📂 影响范围:\n   • rules\n   • dns.nameserver\n\n{}\n{}{}\nPowered by Prism Engine — Apache 2.0\nCopyright 2026 Juwan Hwang (黄治文)\n",
        rule, LINES, rule
    );
    assert_eq!(manager().full_report(), expected);
}

#[test]
fn paths_are_listed_once_where_they_appear_first() {
    assert_eq!(manager().affected_paths(), vec!["rules", "dns.nameserver"]);
}

#[test]
fn fields_are_explained_by_the_patches_on_their_line() {
    let m = manager();
    let found = |path: &str, key: Option<&str>| -> Vec<String> {
        m.explain_field(path, key).iter().map(|e| e.detail.clone()).collect()
    };
    assert_eq!(
        found("rules", None),
        vec!["Append — +1 -0 ~0 (5μs)", "Append — +0 -0 ~0 (5μs)"]
    );
    assert_eq!(found("dns", None), vec!["Append — +0 -1 ~1 (5μs)"]);
    assert_eq!(found("dns.nameserver.0", None), vec!["Append — +0 -1 ~1 (5μs)"]);
    assert!(found("dns.name", None).is_empty());
    assert_eq!(found("rules", Some("r")).len(), 1);
    assert!(found("rules", Some("other")).is_empty());
    let e = &m.explain_field("dns", None)[0];
    assert_eq!(e.op_name, "Append");
    assert_eq!(e.source.short_description(), "a.yaml");
}

#[test]
fn traces_about_a_path() {
    let t = trace("p", vec![AffectedItem::added(0, "dns.x")], TraceSummary::new(1, 0, 0, 0, 0, 1));
    assert!(t.affects_path("dns", None));
    assert!(t.affects_path("dns.x.y", None));
    assert!(!t.affects_path("dn", Some("dn")));
    let bare = trace("p", vec![], TraceSummary::new(0, 0, 0, 0, 0, 0));
    assert!(bare.affects_path("dns.x", Some("dns")));
    assert!(!bare.affects_path("dns.x", Some("dnsx")));
    assert!(!bare.affects_path("dns.x", None));
}

#[test]
fn statistics_add_up() {
    let mut m = manager();
    let mut skipped = trace("p4", vec![], TraceSummary::new(0, 0, 0, 0, 0, 0));
    skipped.condition_matched = false;
    skipped.duration_us = 1;
    m.push(skipped, patch("p4", "x"));
    let s = m.statistics();
    assert_eq!(s.total_patches, 4);
    assert_eq!(s.succeeded + s.skipped, 4);
    assert_eq!(s.skipped, 1);
    assert_eq!(s.total_duration_us, 16);
    assert_eq!(s.avg_duration_us, 5);
}

#[test]
fn traces_need_their_patches() {
    let mut m = TraceManager::new();
    let e = m.import(vec![], vec![patch("p", "x")]).unwrap_err();
    match e {
        PrismError::PatchExecutionFailed { patch_id, reason } => {
            assert_eq!(patch_id, "TraceManager::import");
            assert_eq!(reason, "traces 与 patches 长度不一致: traces=0 patches=1");
        }
        other => panic!("{:?}", other),
    }
    assert!(m.traces.is_empty());
}

#[test]
fn actions_in_words() {
    assert_eq!(TraceAction::Added.to_text(), "新增");
    assert_eq!(TraceAction::Removed.to_text(), "删除");
    assert_eq!(TraceAction::Modified.to_text(), "修改");
}

#[test]
fn sources_in_words() {
    assert_eq!(PatchSource::script("s").short_description(), "脚本: s");
    assert_eq!(PatchSource::plugin("p").short_description(), "插件: p");
    assert_eq!(PatchSource::builtin().short_description(), "引擎内建");
    assert_eq!(PatchSource::visual_editor("e").unwrap().short_description(), "编辑器(e)");
    let refused = |s: &str| -> String {
        match PatchSource::visual_editor(s) {
            Err(PrismError::Validation { message, .. }) => message,
            other => panic!("{:?}", other),
        }
    };
    assert_eq!(refused("  "), "VisualEditor.source 不能为空字符串");
    assert_eq!(
        refused(&"界".repeat(257)),
        "VisualEditor.source 长度不能超过 256 字符 (当前 257 字符)"
    );
    assert_eq!(refused("a\0b"), "VisualEditor.source 不能包含 null 字节");
    assert_eq!(refused("a\u{7f}b"), "VisualEditor.source 不能包含控制字符");
    assert!(PatchSource::visual_editor(&"界".repeat(256)).is_ok());
}
