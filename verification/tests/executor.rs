//! Execution of patches.

use clash_prism_core::error::{PrismError, TransformWarning};
use clash_prism_core::executor::{ExecutionContext, PatchExecutor};
use clash_prism_core::ir::{CompiledPredicate, Patch, PatchOp, SubOp};
use clash_prism_core::json_text::to_json_text;
use clash_prism_core::number::{read_number, to_json_number, Number};
use clash_prism_core::scope::Scope;
use clash_prism_core::source::{PatchSource, SourceKind};
use clash_prism_core::value::{Document, Object};

/// The document that a JSON text denotes.
fn json(text: &str) -> serde_json::Value {
    serde_json::from_str(text).unwrap()
}

/// The same document for the library.
fn lib(v: &serde_json::Value) -> Document {
    match v {
        serde_json::Value::Null => Document::Null,
        serde_json::Value::Bool(b) => Document::Bool(*b),
        serde_json::Value::Number(n) => {
            if let Some(i) = n.as_i64() {
                Document::Number(Number::Int(i))
            } else if let Some(u) = n.as_u64() {
                Document::Number(Number::UInt(u))
            } else {
                let text: Vec<char> = n.to_string().chars().collect();
                Document::Number(to_json_number(read_number(&text).unwrap()))
            }
        }
        serde_json::Value::String(s) => Document::String(s.clone()),
        serde_json::Value::Array(items) => Document::Array(items.iter().map(lib).collect()),
        serde_json::Value::Object(map) => {
            let mut out = Object::new();
            for (k, v) in map {
                out.insert(k.clone(), lib(v));
            }
            Document::Object(out)
        }
    }
}

/// A document of the library as `serde_json` has it.
fn plain(v: &Document) -> serde_json::Value {
    serde_json::from_str(&to_json_text(v)).unwrap()
}

fn new_patch(
    source: PatchSource,
    scope: Scope,
    path: &str,
    op: PatchOp,
    value: serde_json::Value,
) -> Patch {
    Patch::new(source, scope, path, op, lib(&value))
}

/// Execution on documents of `serde_json`.
trait Run {
    fn run(
        &mut self,
        config: serde_json::Value,
        patches: &[Patch],
    ) -> Result<serde_json::Value, PrismError>;
}

impl Run for PatchExecutor {
    fn run(
        &mut self,
        config: serde_json::Value,
        patches: &[Patch],
    ) -> Result<serde_json::Value, PrismError> {
        self.execute_owned(lib(&config), patches).map(|v| plain(&v))
    }
}

fn deep_merge_json(base: &mut serde_json::Value, overlay: &serde_json::Value) {
    let mut merged = lib(base);
    clash_prism_core::merge::deep_merge_json(&mut merged, &lib(overlay));
    *base = plain(&merged);
}

fn count_merge_diff(base: &serde_json::Value, merged: &serde_json::Value) -> (usize, usize) {
    clash_prism_core::merge::count_merge_diff(&lib(base), &lib(merged))
}

fn validate_transform_results(
    original: &[serde_json::Value],
    results: &[serde_json::Value],
) -> Vec<TransformWarning> {
    let original: Vec<Document> = original.iter().map(lib).collect();
    let results: Vec<Document> = results.iter().map(lib).collect();
    clash_prism_core::ops::validate_transform_results(&original, &results)
}

fn make_set_default_patch(path: &str, value: serde_json::Value) -> Patch {
    new_patch(
        PatchSource {
            kind: SourceKind::Builtin,
            file: None,
            line: None,
            plugin_id: None,
        },
        Scope::Global,
        path,
        PatchOp::SetDefault,
        value,
    )
}

/// §2.7 边界测试：字段不存在时应注入默认值
#[test]
fn test_set_default_field_not_exists() {
    let mut executor = PatchExecutor::new();
    let config = json(r#"{}"#);
    let patch = make_set_default_patch("dns", json(r#"{"enable": true}"#));

    let result = executor.run(config.clone(), &[patch]).unwrap();
    assert!(executor.traces.last().unwrap().condition_matched);
    assert_eq!(result["dns"]["enable"], true);
}

/// §2.7 边界测试：字段为 null 时应注入默认值
#[test]
fn test_set_default_field_is_null() {
    let mut executor = PatchExecutor::new();
    let config = json(r#"{"dns": null}"#);
    let patch = make_set_default_patch("dns", json(r#"{"enable": true}"#));

    let result = executor.run(config.clone(), &[patch]).unwrap();
    assert!(executor.traces.last().unwrap().condition_matched);
    assert_eq!(result["dns"]["enable"], true);
}

/// §2.7 边界测试：空数组 [] 不触发默认值注入（核心边界！）
#[test]
fn test_set_default_empty_array_no_trigger() {
    let mut executor = PatchExecutor::new();
    let config = json(r#"{"rules": []}"#);
    let patch = make_set_default_patch("rules", json(r#"["MATCH,DIRECT"]"#));

    let _result = executor.run(config.clone(), &[patch]).unwrap();
    // 空数组是有效值，不应触发注入（modified=0, added=0 表示未触发）
    assert_eq!(executor.traces.last().unwrap().summary.modified, 0);
    assert_eq!(executor.traces.last().unwrap().summary.added, 0);
}

/// §2.7 边界测试：空字典 {} 不触发默认值注入（核心边界！）
#[test]
fn test_set_default_empty_object_no_trigger() {
    let mut executor = PatchExecutor::new();
    let config = json(r#"{"dns": {}}"#);
    let patch = make_set_default_patch(
        "dns",
        json(r#"{"enable": true, "enhanced-mode": "fake-ip"}"#),
    );

    let _result = executor.run(config.clone(), &[patch]).unwrap();
    // 空字典是有效值，不应触发注入（modified=0, added=0 表示未触发）
    assert_eq!(executor.traces.last().unwrap().summary.modified, 0);
    assert_eq!(executor.traces.last().unwrap().summary.added, 0);
}

/// §2.7 边界测试：已有非空值时不覆盖
#[test]
fn test_set_default_existing_value_no_override() {
    let mut executor = PatchExecutor::new();
    let config = json(r#"{"dns": {"enable": false, "enhanced-mode": "redir-host"}}"#);
    let patch = make_set_default_patch(
        "dns",
        json(r#"{"enable": true, "enhanced-mode": "fake-ip"}"#),
    );

    let result = executor.run(config.clone(), &[patch]).unwrap();
    // 原有值应保留
    assert_eq!(result["dns"]["enable"], false);
    assert_eq!(result["dns"]["enhanced-mode"], "redir-host");
}

// ══════════════════════════════════════════════════════════
// deep_merge_json 测试
// ══════════════════════════════════════════════════════════

#[test]
fn test_deep_merge_basic() {
    let mut base = json(r#"{"a": 1, "b": 2}"#);
    let overlay = json(r#"{"c": 3, "d": 4}"#);
    deep_merge_json(&mut base, &overlay);
    assert_eq!(base["a"], 1);
    assert_eq!(base["b"], 2);
    assert_eq!(base["c"], 3);
    assert_eq!(base["d"], 4);
}

#[test]
fn test_deep_merge_nested_object() {
    let mut base = json(r#"{"dns": {"enable": false, "port": 53}}"#);
    let overlay = json(r#"{"dns": {"enable": true, "nameservers": ["8.8.8.8"]}}"#);
    deep_merge_json(&mut base, &overlay);
    assert_eq!(base["dns"]["enable"], true); // overwritten
    assert_eq!(base["dns"]["port"], 53); // preserved
    assert_eq!(base["dns"]["nameservers"][0], "8.8.8.8"); // added
}

#[test]
fn test_deep_merge_array_replacement() {
    // Arrays are replaced, not concatenated
    let mut base = json(r#"{"rules": ["a", "b"]}"#);
    let overlay = json(r#"{"rules": ["c", "d", "e"]}"#);
    deep_merge_json(&mut base, &overlay);
    assert_eq!(base["rules"].as_array().unwrap().len(), 3);
    assert_eq!(base["rules"][0], "c");
}

#[test]
fn test_deep_merge_null_overwrites_value() {
    // null in overlay replaces the base value (it's a valid JSON value)
    let mut base = json(r#"{"key": "value"}"#);
    let overlay = json(r#"{"key": null}"#);
    deep_merge_json(&mut base, &overlay);
    assert!(base["key"].is_null());
}

#[test]
fn test_deep_merge_scalar_replaces_object() {
    let mut base = json(r#"{"key": {"nested": true}}"#);
    let overlay = json(r#"{"key": "now-a-string"}"#);
    deep_merge_json(&mut base, &overlay);
    assert_eq!(base["key"], "now-a-string");
}

#[test]
fn test_deep_merge_object_replaces_scalar() {
    let mut base = json(r#"{"key": "a-string"}"#);
    let overlay = json(r#"{"key": {"nested": true}}"#);
    deep_merge_json(&mut base, &overlay);
    assert_eq!(base["key"]["nested"], true);
}

#[test]
fn test_deep_merge_empty_overlay_no_change() {
    let mut base = json(r#"{"a": 1, "b": 2}"#);
    let overlay = json(r#"{}"#);
    deep_merge_json(&mut base, &overlay);
    assert_eq!(base["a"], 1);
    assert_eq!(base["b"], 2);
}

// ══════════════════════════════════════════════════════════
// count_merge_diff 测试
// ══════════════════════════════════════════════════════════

#[test]
fn test_count_merge_diff_no_changes() {
    let base = json(r#"{"a": 1, "b": 2, "c": 3}"#);
    let merged = base.clone();
    let (modified, total) = count_merge_diff(&base, &merged);
    assert_eq!(modified, 0);
    assert_eq!(total, 3);
}

#[test]
fn test_count_merge_diff_partial_changes() {
    let base = json(r#"{"a": 1, "b": 2, "c": 3}"#);
    let merged = json(r#"{"a": 1, "b": 99, "c": 3, "d": 4}"#);
    let (modified, total) = count_merge_diff(&base, &merged);
    assert_eq!(modified, 2); // b changed + d added
    assert_eq!(total, 4);
}

#[test]
fn test_count_merge_diff_all_new_keys() {
    let base = json(r#"{}"#);
    let merged = json(r#"{"x": 1, "y": 2}"#);
    let (modified, total) = count_merge_diff(&base, &merged);
    assert_eq!(modified, 2);
    assert_eq!(total, 2);
}

#[test]
fn test_count_merge_diff_non_object() {
    let base = json(r#""old""#);
    let merged = json(r#""new""#);
    let (modified, total) = count_merge_diff(&base, &merged);
    assert_eq!(modified, 1);
    assert_eq!(total, 1);
}

#[test]
fn test_count_merge_diff_non_object_same() {
    let base = json(r#"42"#);
    let merged = json(r#"42"#);
    let (modified, total) = count_merge_diff(&base, &merged);
    assert_eq!(modified, 0);
    assert_eq!(total, 0);
}

// ══════════════════════════════════════════════════════════
// profile_matches 测试 (wildcard / exact / regex)
// ══════════════════════════════════════════════════════════

#[test]
fn test_profile_matches_exact() {
    assert!(PatchExecutor::profile_matches("hello", "hello"));
    assert!(!PatchExecutor::profile_matches("hello", "world"));
}

#[test]
fn test_profile_matches_star_matches_anything() {
    assert!(PatchExecutor::profile_matches("anything", "*"));
    assert!(PatchExecutor::profile_matches("", "*"));
    assert!(PatchExecutor::profile_matches("some.long.domain.name", "*"));
}

#[test]
fn test_profile_matches_domain_prefix() {
    assert!(PatchExecutor::profile_matches("DOMAIN-KEYWORD", "DOMAIN-*"));
    assert!(PatchExecutor::profile_matches("DOMAIN-SUFFIX", "DOMAIN-*"));
    assert!(!PatchExecutor::profile_matches(
        "domain-lowercase",
        "DOMAIN-*"
    )); // case-sensitive
}

#[test]
fn test_profile_matches_subdomain_pattern() {
    assert!(PatchExecutor::profile_matches(
        "www.google.com",
        "*.google.com"
    ));
    assert!(PatchExecutor::profile_matches(
        "mail.google.com",
        "*.google.com"
    ));
    assert!(!PatchExecutor::profile_matches(
        "google.com",
        "*.google.com"
    ));
    assert!(!PatchExecutor::profile_matches(
        "notgoogle.com",
        "*.google.com"
    ));
}

#[test]
fn test_profile_matches_question_mark() {
    assert!(PatchExecutor::profile_matches("abc", "a?c"));
    assert!(PatchExecutor::profile_matches("axc", "a?c"));
    assert!(!PatchExecutor::profile_matches("abbc", "a?c"));
}

#[test]
fn test_profile_matches_multiple_stars() {
    assert!(PatchExecutor::profile_matches("a-b-c", "*-*-*"));
    assert!(PatchExecutor::profile_matches("x-y-z", "*-*-*"));
}

#[test]
fn test_profile_matches_plain_exact_only() {
    // plain mode uses exact match, NOT substring
    assert!(PatchExecutor::profile_matches("mihomo", "mihomo"));
    assert!(!PatchExecutor::profile_matches("mihomo-core", "mihomo")); // no substring
    assert!(!PatchExecutor::profile_matches(
        "prefix-mihomo-suffix",
        "mihomo"
    )); // no substring
    assert!(!PatchExecutor::profile_matches("clash", "mihomo"));
}

#[test]
fn test_profile_matches_full_regex() {
    assert!(PatchExecutor::profile_matches("proxy-123", r"/proxy-\d+/"));
    assert!(!PatchExecutor::profile_matches("proxy-abc", r"/proxy-\d+/"));
}

#[test]
fn test_profile_matches_invalid_regex_returns_false() {
    // invalid regex returns false (no silent fallback to substring)
    assert!(!PatchExecutor::profile_matches("hello[world", "[world"));
}

// ══════════════════════════════════════════════════════════
// validate_transform_results 测试
// ══════════════════════════════════════════════════════════

#[test]
fn test_validate_transform_results_valid_no_warnings() {
    let original =
        vec![json(r#"{"name": "p1", "type": "ss", "server": "1.1.1.1", "port": 443}"#)];
    let results = vec![
        json(r#"{"name": "p1-mod", "type": "ss", "server": "2.2.2.2", "port": 8080}"#),
    ];
    let warnings = validate_transform_results(&original, &results);
    assert!(warnings.is_empty());
}

#[test]
fn test_validate_transform_results_missing_name() {
    let original = vec![json(r#"{"name": "p1"}"#)];
    let results = vec![json(r#"{"type": "ss"}"#)]; // missing name
    let warnings = validate_transform_results(&original, &results);
    assert!(!warnings.is_empty());
    assert!(warnings.iter().any(|w| w.field == "name"));
}

#[test]
fn test_validate_transform_results_missing_type() {
    let original = vec![json(r#"{"name": "p1"}"#)];
    let results = vec![json(r#"{"name": "p1"}"#)]; // missing type
    let warnings = validate_transform_results(&original, &results);
    assert!(warnings.iter().any(|w| w.field == "type"));
}

#[test]
fn test_validate_transform_results_missing_server_and_port() {
    let original = vec![json(r#"{"name": "p1"}"#)];
    let results = vec![json(r#"{"name": "p1", "type": "ss"}"#)];
    let warnings = validate_transform_results(&original, &results);
    assert!(warnings.iter().any(|w| w.field == "server"));
    assert!(warnings.iter().any(|w| w.field == "port"));
}

#[test]
fn test_validate_transform_results_empty_no_warnings() {
    let original = vec![];
    let results = vec![];
    let warnings = validate_transform_results(&original, &results);
    assert!(warnings.is_empty());
}

#[test]
fn test_validate_transform_results_hint_contains_spread() {
    let original = vec![json(r#"{"name": "p1"}"#)];
    let results = vec![json(r#"{"name": "new-name"}"#)];
    let warnings = validate_transform_results(&original, &results);
    assert!(!warnings.is_empty());
    assert!(warnings[0].hint.contains("spread"));
}

#[test]
fn transform_warnings_stand_in_the_trace() {
    let mut executor = PatchExecutor::new();
    let config = json(
        r#"{"proxies": [
            {"name": "a", "type": "ss", "server": "s", "port": 1},
            {"name": "b", "type": "ss", "server": "s", "port": 2}
        ]}"#,
    );
    let whole = make_transform_patch("proxies", "{...p, name: p.name + '!'}");
    let partial = make_transform_patch("proxies", "{type: p.type, port: p.port}");
    executor.run(config, &[whole, partial]).unwrap();
    assert!(executor.traces[0].warnings.is_empty());
    let found: Vec<(usize, &str, &str)> = executor.traces[1]
        .warnings
        .iter()
        .map(|w| (w.node_index, w.node_name.as_str(), w.field.as_str()))
        .collect();
    assert_eq!(
        found,
        [(0, "a!", "name"), (0, "a!", "server"), (1, "b!", "name"), (1, "b!", "server")]
    );
    assert_eq!(
        executor.traces[1].warnings[1].message(),
        "Node #0 'a!' missing required field 'server': Did you forget to spread the original \
         proxy? Use ({...p, name: ...}) instead of ({name: ...})."
    );
    assert_eq!(executor.traces[1].clone().warnings.len(), 4);
}

#[test]
fn transform_warnings_are_about_the_first_five() {
    let mut executor = PatchExecutor::new();
    let config = json(r#"{"proxies": [{}, {}, {}, {}, {}, {}, {}]}"#);
    let patch = make_transform_patch("proxies", "{...p, name: 'n'}");
    executor.run(config, &[patch]).unwrap();
    let nodes: Vec<usize> = executor.traces[0].warnings.iter().map(|w| w.node_index).collect();
    assert_eq!(nodes, [0, 0, 0, 1, 1, 1, 2, 2, 2, 3, 3, 3, 4, 4, 4]);
    assert!(executor.traces[0].warnings.iter().all(|w| w.node_name == "n"));
}

// ══════════════════════════════════════════════════════════
// ExecutionContext 测试
// ══════════════════════════════════════════════════════════

#[test]
fn test_execution_context_defaults() {
    let ctx = ExecutionContext::default();
    assert!(ctx.core_type.is_none());
    assert!(ctx.platform.is_none());
    assert!(ctx.profile_name.is_none());
    assert!(ctx.ssid.is_none());
}

#[test]
fn test_execution_context_with_values() {
    let ctx = ExecutionContext {
        core_type: Some("mihomo".into()),
        platform: Some("macos".into()),
        profile_name: Some("work".into()),
        ssid: Some("HomeWiFi".into()),
    };
    assert_eq!(ctx.core_type.as_deref(), Some("mihomo"));
    assert_eq!(ctx.platform.as_deref(), Some("macos"));
    assert_eq!(ctx.profile_name.as_deref(), Some("work"));
    assert_eq!(ctx.ssid.as_deref(), Some("HomeWiFi"));
}

#[test]
fn test_execution_context_clone() {
    let ctx = ExecutionContext {
        core_type: Some("clash".into()),
        platform: None,
        profile_name: Some("home".into()),
        ssid: None,
    };
    let cloned = ctx.clone();
    assert_eq!(cloned.core_type, ctx.core_type);
    assert_eq!(cloned.profile_name, ctx.profile_name);
    assert_eq!(cloned.platform, ctx.platform);
    assert_eq!(cloned.ssid, ctx.ssid);
}

// ══════════════════════════════════════════════════════════
// PatchExecutor 构造器
// ══════════════════════════════════════════════════════════

#[test]
fn test_executor_new_empty_traces() {
    let executor = PatchExecutor::new();
    assert!(executor.traces.is_empty());
    assert!(executor.context.core_type.is_none());
}

#[test]
fn test_executor_with_context() {
    let ctx = ExecutionContext {
        core_type: Some("mihomo".into()),
        platform: Some("linux".into()),
        profile_name: Some("prod".into()),
        ssid: None,
    };
    let executor = PatchExecutor::with_context(ctx);
    assert_eq!(executor.context.core_type.as_deref(), Some("mihomo"));
    assert_eq!(executor.context.platform.as_deref(), Some("linux"));
    assert_eq!(executor.context.profile_name.as_deref(), Some("prod"));
}

#[test]
fn test_executor_default_trait() {
    let executor = PatchExecutor::default();
    assert!(executor.traces.is_empty());
}

// ══════════════════════════════════════════════════════════
// DeepMerge 执行测试
// ══════════════════════════════════════════════════════════

fn make_deep_merge_patch(path: &str, value: serde_json::Value) -> Patch {
    new_patch(
        PatchSource {
            kind: SourceKind::Builtin,
            file: None,
            line: None,
            plugin_id: None,
        },
        Scope::Global,
        path,
        PatchOp::DeepMerge,
        value,
    )
}

#[test]
fn test_execute_deep_merge_creates_new_key() {
    let mut executor = PatchExecutor::new();
    let config = json(r#"{}"#);
    let patch = make_deep_merge_patch("dns", json(r#"{"enable": true}"#));
    let result = executor.run(config, &[patch]).unwrap();
    assert_eq!(result["dns"]["enable"], true);
}

#[test]
fn test_execute_deep_merge_merges_nested() {
    let mut executor = PatchExecutor::new();
    let config = json(r#"{"dns": {"port": 53}}"#);
    let patch = make_deep_merge_patch("dns", json(r#"{"enable": true}"#));
    let result = executor.run(config, &[patch]).unwrap();
    assert_eq!(result["dns"]["port"], 53);
    assert_eq!(result["dns"]["enable"], true);
}

// ══════════════════════════════════════════════════════════
// Append 执行测试
// ══════════════════════════════════════════════════════════

fn make_append_patch(path: &str, value: serde_json::Value) -> Patch {
    new_patch(
        PatchSource {
            kind: SourceKind::Builtin,
            file: None,
            line: None,
            plugin_id: None,
        },
        Scope::Global,
        path,
        PatchOp::Append,
        value,
    )
}

#[test]
fn test_execute_append_to_array() {
    let mut executor = PatchExecutor::new();
    let config = json(r#"{"rules": ["MATCH,DIRECT"]}"#);
    let patch = make_append_patch("rules", json(r#"["DOMAIN,example.com,DIRECT"]"#));
    let result = executor.run(config, &[patch]).unwrap();
    assert_eq!(result["rules"].as_array().unwrap().len(), 2);
    assert_eq!(result["rules"][1], "DOMAIN,example.com,DIRECT");
}

#[test]
fn test_execute_append_to_nonexistent_array() {
    let mut executor = PatchExecutor::new();
    let config = json(r#"{}"#);
    let patch = make_append_patch("rules", json(r#"["RULE"]"#));
    let result = executor.run(config, &[patch]).unwrap();
    // Path doesn't exist → append is a no-op (result 中无 rules 字段)
    assert!(result.get("rules").is_none());
    assert_eq!(
        executor.traces[0].summary.added, 0,
        "路径不存在时 added 应为 0"
    );
}

// ══════════════════════════════════════════════════════════
// Prepend 执行测试
// ══════════════════════════════════════════════════════════

fn make_prepend_patch(path: &str, value: serde_json::Value) -> Patch {
    new_patch(
        PatchSource {
            kind: SourceKind::Builtin,
            file: None,
            line: None,
            plugin_id: None,
        },
        Scope::Global,
        path,
        PatchOp::Prepend,
        value,
    )
}

#[test]
fn test_execute_prepend_to_array() {
    let mut executor = PatchExecutor::new();
    let config = json(r#"{"rules": ["MATCH,DIRECT"]}"#);
    let patch = make_prepend_patch("rules", json(r#"["DOMAIN,example.com,DIRECT"]"#));
    let result = executor.run(config, &[patch]).unwrap();
    assert_eq!(result["rules"].as_array().unwrap().len(), 2);
    assert_eq!(result["rules"][0], "DOMAIN,example.com,DIRECT");
    assert_eq!(result["rules"][1], "MATCH,DIRECT");
}

// ══════════════════════════════════════════════════════════
// Override 执行测试
// ══════════════════════════════════════════════════════════

fn make_override_patch(path: &str, value: serde_json::Value) -> Patch {
    new_patch(
        PatchSource {
            kind: SourceKind::Builtin,
            file: None,
            line: None,
            plugin_id: None,
        },
        Scope::Global,
        path,
        PatchOp::Override,
        value,
    )
}

#[test]
fn test_execute_override_replaces_value() {
    let mut executor = PatchExecutor::new();
    let config = json(r#"{"dns": {"enable": false, "port": 53}}"#);
    let patch = make_override_patch("dns", json(r#"{"enable": true}"#));
    let result = executor.run(config, &[patch]).unwrap();
    assert_eq!(result["dns"]["enable"], true);
    // port should be gone since Override replaces the entire value
    assert!(result["dns"].get("port").is_none());
}

// ══════════════════════════════════════════════════════════
// 条件匹配测试
// ══════════════════════════════════════════════════════════

#[test]
fn test_global_scope_always_matches() {
    let mut executor = PatchExecutor::new();
    let config = json(r#"{}"#);
    let patch = make_deep_merge_patch("dns", json(r#"{"enable": true}"#));
    let result = executor.run(config, &[patch]).unwrap();
    assert_eq!(result["dns"]["enable"], true);
    assert!(executor.traces[0].condition_matched);
}

#[test]
fn test_scoped_disabled_never_matches() {
    let ctx = ExecutionContext::default();
    let mut executor = PatchExecutor::with_context(ctx);
    let config = json(r#"{}"#);
    let patch = new_patch(
        PatchSource {
            kind: SourceKind::Builtin,
            file: None,
            line: None,
            plugin_id: None,
        },
        Scope::Scoped {
            profile: None,
            platform: None,
            core: None,
            time_range: None,
            enabled: Some(false),
            ssid: None,
        },
        "dns",
        PatchOp::DeepMerge,
        json(r#"{"enable": true}"#),
    );
    let result = executor.run(config, &[patch]).unwrap();
    // Patch should be skipped
    assert!(result.get("dns").is_none());
    assert!(!executor.traces[0].condition_matched);
}

// ══════════════════════════════════════════════════════════
// 多 Patch 顺序执行测试
// ══════════════════════════════════════════════════════════

#[test]
fn test_multiple_patches_execute_in_order() {
    let mut executor = PatchExecutor::new();
    let config = json(r#"{"dns": {"port": 53}}"#);
    let patches = vec![
        make_deep_merge_patch("dns", json(r#"{"enable": true}"#)),
        make_deep_merge_patch("dns", json(r#"{"enhanced-mode": "fake-ip"}"#)),
    ];
    let result = executor.run(config, &patches).unwrap();
    assert_eq!(result["dns"]["port"], 53);
    assert_eq!(result["dns"]["enable"], true);
    assert_eq!(result["dns"]["enhanced-mode"], "fake-ip");
    assert_eq!(executor.traces.len(), 2);
}

#[test]
fn test_execute_clears_previous_traces() {
    let mut executor = PatchExecutor::new();
    let config = json(r#"{}"#);
    let patch = make_deep_merge_patch("a", json(r#"1"#));
    executor
        .run(config.clone(), std::slice::from_ref(&patch))
        .unwrap();
    assert_eq!(executor.traces.len(), 1);

    // Second execution should clear previous traces
    executor.run(config.clone(), &[patch]).unwrap();
    assert_eq!(executor.traces.len(), 1);
}

// ══════════════════════════════════════════════════════════
// 边界测试 — 刁难、临界、对抗性情况
// ══════════════════════════════════════════════════════════

fn make_filter_patch(path: &str, expr: &str) -> Patch {
    new_patch(
        PatchSource {
            kind: SourceKind::Builtin,
            file: None,
            line: None,
            plugin_id: None,
        },
        Scope::Global,
        path,
        PatchOp::Filter {
            expr: CompiledPredicate::new(expr, vec![]),
        },
        serde_json::Value::Null,
    )
}

fn make_transform_patch(path: &str, expr: &str) -> Patch {
    new_patch(
        PatchSource {
            kind: SourceKind::Builtin,
            file: None,
            line: None,
            plugin_id: None,
        },
        Scope::Global,
        path,
        PatchOp::Transform {
            expr: CompiledPredicate::new(expr, vec![]),
        },
        serde_json::Value::Null,
    )
}

fn make_remove_patch(path: &str, expr: &str) -> Patch {
    new_patch(
        PatchSource {
            kind: SourceKind::Builtin,
            file: None,
            line: None,
            plugin_id: None,
        },
        Scope::Global,
        path,
        PatchOp::Remove {
            expr: CompiledPredicate::new(expr, vec![]),
        },
        serde_json::Value::Null,
    )
}

fn make_composite_patch(path: &str, sub_ops: Vec<SubOp>) -> Patch {
    let primary_op = sub_ops
        .first()
        .map(|s| s.op.clone())
        .unwrap_or(PatchOp::DeepMerge);
    let primary_val = sub_ops
        .first()
        .map(|s| plain(&s.value))
        .unwrap_or(serde_json::Value::Null);
    new_patch(
        PatchSource {
            kind: SourceKind::Builtin,
            file: None,
            line: None,
            plugin_id: None,
        },
        Scope::Global,
        path,
        primary_op,
        primary_val,
    )
    .with_sub_ops(sub_ops)
    .unwrap()
}

/// 1. 空 patches 列表执行，验证配置不变
#[test]
fn test_empty_patches_execution() {
    let mut executor = PatchExecutor::new();
    let config = json(r#"{"dns": {"enable": true}, "rules": ["MATCH,DIRECT"]}"#);
    let original = config.clone();
    let result = executor.run(config, &[]).unwrap();
    assert_eq!(result, original, "空 patches 列表不应修改配置");
    assert!(executor.traces.is_empty(), "空 patches 应产生 0 条 trace");
}

/// 2. 嵌套路径的深度合并（如 "dns.nameserver"）
#[test]
fn test_nested_path_deep_merge() {
    let mut executor = PatchExecutor::new();
    let config = json(r#"{ "dns": { "enable": true, "port": 53 } }"#);
    let patch =
        make_deep_merge_patch("dns.nameserver", json(r#"["8.8.8.8", "1.1.1.1"]"#));
    let result = executor.run(config, &[patch]).unwrap();
    assert_eq!(result["dns"]["enable"], true, "原有字段应保留");
    assert_eq!(result["dns"]["port"], 53, "原有字段应保留");
    assert_eq!(result["dns"]["nameserver"].as_array().unwrap().len(), 2);
    assert_eq!(result["dns"]["nameserver"][0], "8.8.8.8");
    assert_eq!(result["dns"]["nameserver"][1], "1.1.1.1");
}

/// 3. 对不存在的路径执行 override，验证创建该路径
#[test]
fn test_override_on_nonexistent_path() {
    let mut executor = PatchExecutor::new();
    let config = json(r#"{"dns": {"enable": true}}"#);
    let patch = make_override_patch("tun.stack", json(r#""mixed""#));
    let result = executor.run(config, &[patch]).unwrap();
    assert_eq!(result["tun"]["stack"], "mixed", "不存在的嵌套路径应被创建");
    assert_eq!(result["dns"]["enable"], true, "无关字段不受影响");
}

/// 4. 过滤器匹配所有元素，验证无删除
#[test]
fn test_filter_all_match() {
    let mut executor = PatchExecutor::new();
    let config = json(r#"{ "proxies": [ {"name": "a", "type": "ss"}, {"name": "b", "type": "ss"}, {"name": "c", "type": "ss"} ] }"#);
    let patch = make_filter_patch("proxies", "p.type == 'ss'");
    let result = executor.run(config, &[patch]).unwrap();
    assert_eq!(
        result["proxies"].as_array().unwrap().len(),
        3,
        "所有元素都匹配，不应删除"
    );
    let trace = &executor.traces[0];
    assert_eq!(trace.summary.removed, 0, "removed 应为 0");
    assert_eq!(trace.summary.total_after, 3);
}

/// 5. 过滤器不匹配任何元素，验证全部删除
#[test]
fn test_filter_none_match() {
    let mut executor = PatchExecutor::new();
    let config = json(r#"{ "proxies": [ {"name": "a", "type": "ss"}, {"name": "b", "type": "vmess"} ] }"#);
    let patch = make_filter_patch("proxies", "p.type == 'trojan'");
    let result = executor.run(config, &[patch]).unwrap();
    assert_eq!(
        result["proxies"].as_array().unwrap().len(),
        0,
        "无匹配应全部删除"
    );
    let trace = &executor.traces[0];
    assert_eq!(trace.summary.removed, 2, "removed 应为 2");
}

/// 6. 对空数组执行 filter，验证无 panic
#[test]
fn test_filter_empty_array() {
    let mut executor = PatchExecutor::new();
    let config = json(r#"{"proxies": []}"#);
    let patch = make_filter_patch("proxies", "p.type == 'ss'");
    let result = executor.run(config, &[patch]).unwrap();
    assert_eq!(result["proxies"].as_array().unwrap().len(), 0);
    let trace = &executor.traces[0];
    assert!(trace.condition_matched);
    assert_eq!(trace.summary.removed, 0, "空数组 filter 不应有删除");
}

/// 7. 对空数组执行 transform，验证无 panic
#[test]
fn test_transform_empty_array() {
    let mut executor = PatchExecutor::new();
    let config = json(r#"{"proxies": []}"#);
    let patch = make_transform_patch("proxies", "{...p, tagged: true}");
    let result = executor.run(config, &[patch]).unwrap();
    assert_eq!(result["proxies"].as_array().unwrap().len(), 0);
    let trace = &executor.traces[0];
    assert!(trace.condition_matched);
    assert_eq!(trace.summary.modified, 0, "空数组 transform 不应有修改");
}

/// 8. 对不存在的数组执行 prepend，验证跳过
#[test]
fn test_prepend_to_nonexistent_array() {
    let mut executor = PatchExecutor::new();
    let config = json(r#"{}"#);
    let patch = make_prepend_patch("rules", json(r#"["RULE-A"]"#));
    let result = executor.run(config, &[patch]).unwrap();
    assert!(result.get("rules").is_none(), "不存在的路径不应被创建");
    assert_eq!(
        executor.traces[0].summary.added, 0,
        "路径不存在时 added 应为 0"
    );
}

/// 9. 对不存在的数组执行 append，验证跳过
#[test]
fn test_append_to_nonexistent_array() {
    let mut executor = PatchExecutor::new();
    let config = json(r#"{}"#);
    let patch = make_append_patch("rules", json(r#"["RULE-A"]"#));
    let result = executor.run(config, &[patch]).unwrap();
    assert!(result.get("rules").is_none(), "不存在的路径不应被创建");
}

/// 10. 验证 guarded field 的 prepend 被阻止
#[test]
fn test_guarded_field_prepend_blocked() {
    let mut executor = PatchExecutor::new();
    let config = json(r#"{"external-controller": "127.0.0.1:9090"}"#);
    let patch = make_prepend_patch("external-controller", json(r#"["0.0.0.0:9090"]"#));
    let result = executor.run(config, &[patch]).unwrap();
    // Guarded field — prepend should be skipped (not an array, so no-op anyway)
    assert_eq!(
        result["external-controller"], "127.0.0.1:9090",
        "guarded field 不应被修改"
    );
    // Guarded field 的非 DeepMerge/Override 操作被跳过，
    // trace 的 condition_matched 仍为 true（表示 patch 被处理了，但操作被拦截）
    let trace = &executor.traces[0];
    assert_eq!(trace.summary.added, 0, "不应添加任何元素");
    assert_eq!(trace.summary.removed, 0, "不应删除任何元素");
}

/// 11. 验证 guarded field 的 filter 被阻止
#[test]
fn test_guarded_field_filter_blocked() {
    let mut executor = PatchExecutor::new();
    let config = json(r#"{"secret": "my-secret"}"#);
    let patch = make_filter_patch("secret", "true");
    let result = executor.run(config, &[patch]).unwrap();
    assert_eq!(result["secret"], "my-secret", "guarded field 不应被修改");
    let trace = &executor.traces[0];
    assert_eq!(trace.summary.removed, 0, "不应删除任何元素");
}

/// 12. null 值触发 default 注入
#[test]
fn test_set_default_null_triggers() {
    let mut executor = PatchExecutor::new();
    let config = json(r#"{"mode": null}"#);
    let patch = make_set_default_patch("mode", json(r#""rule""#));
    let result = executor.run(config, &[patch]).unwrap();
    assert_eq!(result["mode"], "rule", "null 值应触发 default 注入");
    let trace = &executor.traces[0];
    assert_eq!(trace.summary.modified, 1, "应记录 1 次修改");
}

/// 13. 空数组不触发 default
#[test]
fn test_set_default_empty_array_no_trigger_boundary() {
    let mut executor = PatchExecutor::new();
    let config = json(r#"{"proxies": []}"#);
    let patch =
        make_set_default_patch("proxies", json(r#"[{"name": "default-proxy"}]"#));
    let result = executor.run(config, &[patch]).unwrap();
    assert_eq!(
        result["proxies"].as_array().unwrap().len(),
        0,
        "空数组不应触发 default"
    );
    let trace = &executor.traces[0];
    assert_eq!(trace.summary.modified, 0);
}

/// 14. 空对象不触发 default
#[test]
fn test_set_default_empty_object_no_trigger_boundary() {
    let mut executor = PatchExecutor::new();
    let config = json(r#"{"dns": {}}"#);
    let patch = make_set_default_patch("dns", json(r#"{"enable": true}"#));
    let result = executor.run(config, &[patch]).unwrap();
    assert_eq!(
        result["dns"].as_object().unwrap().len(),
        0,
        "空对象不应触发 default"
    );
    let trace = &executor.traces[0];
    assert_eq!(trace.summary.modified, 0);
}

/// 15. 已有值时不覆盖
#[test]
fn test_set_default_existing_value_no_override_boundary() {
    let mut executor = PatchExecutor::new();
    let config = json(r#"{"log-level": "warning"}"#);
    let patch = make_set_default_patch("log-level", json(r#""info""#));
    let result = executor.run(config, &[patch]).unwrap();
    assert_eq!(result["log-level"], "warning", "已有值不应被覆盖");
    let trace = &executor.traces[0];
    assert_eq!(trace.summary.modified, 0);
}

/// 16. remove 删除所有元素
#[test]
fn test_remove_all_elements() {
    let mut executor = PatchExecutor::new();
    let config = json(r#"{ "proxies": [ {"name": "a", "type": "ss"}, {"name": "b", "type": "ss"}, {"name": "c", "type": "ss"} ] }"#);
    let patch = make_remove_patch("proxies", "p.type == 'ss'");
    let result = executor.run(config, &[patch]).unwrap();
    assert_eq!(
        result["proxies"].as_array().unwrap().len(),
        0,
        "所有元素应被删除"
    );
    let trace = &executor.traces[0];
    assert_eq!(trace.summary.removed, 3);
    assert_eq!(trace.summary.total_after, 0);
}

/// 17. 复合操作 filter + prepend
#[test]
fn test_composite_filter_prepend() {
    let mut executor = PatchExecutor::new();
    let config = json(r#"{ "proxies": [ {"name": "hk-1", "type": "ss"}, {"name": "us-old", "type": "vmess"}, {"name": "hk-2", "type": "ss"} ] }"#);
    let sub_ops = vec![
        SubOp {
            op: PatchOp::Filter {
                expr: CompiledPredicate::new("p.type == 'ss'", vec![]),
            },
            value: Document::Null,
        },
        SubOp {
            op: PatchOp::Prepend,
            value: lib(&json(r#"[{"name": "manual", "type": "ss", "server": "1.2.3.4", "port": 443}]"#)),
        },
    ];
    let patch = make_composite_patch("proxies", sub_ops);
    let result = executor.run(config, &[patch]).unwrap();
    let proxies = result["proxies"].as_array().unwrap();
    // filter 保留 2 个 ss 节点 + prepend 添加 1 个 = 3
    assert_eq!(proxies.len(), 3, "filter 保留 2 个 + prepend 添加 1 个 = 3");
    assert_eq!(proxies[0]["name"], "manual", "prepend 的元素应在头部");
    assert_eq!(proxies[1]["name"], "hk-1");
    assert_eq!(proxies[2]["name"], "hk-2");
    // filter 和 prepend 各产生一条 trace
    assert_eq!(executor.traces.len(), 2);
}

/// 18. 复合操作 filter + remove + transform
#[test]
fn test_composite_filter_remove_transform() {
    let mut executor = PatchExecutor::new();
    let config = json(r#"{ "proxies": [ {"name": "hk-1", "type": "ss"}, {"name": "us-1", "type": "vmess"}, {"name": "hk-2", "type": "ss"}, {"name": "jp-old", "type": "ss"}, {"name": "us-2", "type": "vmess"} ] }"#);
    let sub_ops = vec![
        SubOp {
            op: PatchOp::Filter {
                expr: CompiledPredicate::new("p.type == 'ss'", vec![]),
            },
            value: Document::Null,
        },
        SubOp {
            op: PatchOp::Remove {
                expr: CompiledPredicate::new("p.name.includes('old')", vec![]),
            },
            value: Document::Null,
        },
        SubOp {
            op: PatchOp::Transform {
                expr: CompiledPredicate::new("{...p, name: '[HK] ' + p.name}", vec![]),
            },
            value: Document::Null,
        },
    ];
    let patch = make_composite_patch("proxies", sub_ops);
    let result = executor.run(config, &[patch]).unwrap();
    let proxies = result["proxies"].as_array().unwrap();
    // filter: 保留 3 个 ss → remove: 移除 jp-old → 剩 2 个 → transform
    assert_eq!(proxies.len(), 2);
    assert!(proxies[0]["name"].as_str().unwrap().starts_with("[HK]"));
    assert!(proxies[1]["name"].as_str().unwrap().starts_with("[HK]"));
    // 3 sub-operations → 3 traces
    assert_eq!(executor.traces.len(), 3);
}

/// 19. 条件不匹配时跳过 patch
#[test]
fn test_condition_mismatch_skip() {
    let mut executor = PatchExecutor::new();
    let config = json(r#"{"dns": {"enable": false}}"#);
    // Profile scope without matching profile_name in context → skip
    let patch = new_patch(
        PatchSource {
            kind: SourceKind::Builtin,
            file: None,
            line: None,
            plugin_id: None,
        },
        Scope::profile("nonexistent-profile"),
        "dns",
        PatchOp::DeepMerge,
        json(r#"{"enable": true}"#),
    );
    let result = executor.run(config, &[patch]).unwrap();
    assert_eq!(
        result["dns"]["enable"], false,
        "条件不匹配时 patch 应被跳过"
    );
    assert!(!executor.traces[0].condition_matched);
}

/// 20. 验证 trace 数量和统计正确性
#[test]
fn test_execution_trace_counts() {
    let mut executor = PatchExecutor::new();
    let config = json(r#"{ "rules": ["A", "B", "C"], "proxies": [ {"name": "p1", "type": "ss"}, {"name": "p2", "type": "vmess"}, {"name": "p3", "type": "ss"} ] }"#);
    let patches = vec![
        make_append_patch("rules", json(r#"["D"]"#)),
        make_filter_patch("proxies", "p.type == 'ss'"),
        make_deep_merge_patch("dns", json(r#"{"enable": true}"#)),
    ];
    let result = executor.run(config, &patches).unwrap();

    // 3 个 patch → 3 条 trace
    assert_eq!(executor.traces.len(), 3, "应有 3 条 trace");

    // Trace 0: Append — 添加 1 个元素
    assert_eq!(executor.traces[0].summary.added, 1);
    assert_eq!(executor.traces[0].summary.total_after, 4);
    assert!(result["rules"].as_array().unwrap().len() == 4);

    // Trace 1: Filter — 保留 2 个，移除 1 个
    assert_eq!(executor.traces[1].summary.removed, 1);
    assert_eq!(executor.traces[1].summary.total_after, 2);
    assert!(result["proxies"].as_array().unwrap().len() == 2);

    // Trace 2: DeepMerge — 新增 1 个键
    assert_eq!(executor.traces[2].summary.modified, 1);
    assert_eq!(result["dns"]["enable"], true);
}

/// test_filter_affected_items_content -- 验证 $filter 的 affected_items 记录了正确的被移除元素
///
/// retain 模式下，被移除元素的 before 字段应包含原始值。
#[test]
fn test_filter_affected_items_content() {
    let mut executor = PatchExecutor::new();
    let config = json(r#"{ "proxies": [ {"name": "a", "type": "ss", "server": "1.1.1.1"}, {"name": "b", "type": "vmess", "server": "2.2.2.2"}, {"name": "c", "type": "ss", "server": "3.3.3.3"}, {"name": "d", "type": "trojan", "server": "4.4.4.4"} ] }"#);
    let patch = make_filter_patch("proxies", "type == 'ss'");
    let result = executor.run(config, &[patch]).unwrap();

    // 应保留 2 个 ss 节点，移除 2 个
    let proxies = result["proxies"].as_array().unwrap();
    assert_eq!(proxies.len(), 2);

    // trace 应记录 2 个 removed items
    let trace = &executor.traces[0];
    assert_eq!(trace.summary.removed, 2);
    assert_eq!(trace.affected_items.len(), 2);

    // 验证被移除元素的 before 内容（before 存储元素的 name 字段值）
    let removed_names: Vec<&str> = trace
        .affected_items
        .iter()
        .filter_map(|item| item.before.as_deref())
        .collect();
    assert_eq!(
        removed_names,
        vec!["b", "d"],
        "affected_items 应精确记录被移除节点的 name"
    );
}

/// test_remove_affected_items_content -- 验证 $remove 的 affected_items 记录了正确的被移除元素
#[test]
fn test_remove_affected_items_content() {
    let mut executor = PatchExecutor::new();
    let config = json(r#"{ "proxies": [ {"name": "alpha", "type": "ss", "server": "1.1.1.1"}, {"name": "beta", "type": "vmess", "server": "2.2.2.2"}, {"name": "gamma", "type": "trojan", "server": "3.3.3.3"}, {"name": "delta", "type": "ss", "server": "4.4.4.4"} ] }"#);
    let patch = make_remove_patch("proxies", "p.type == 'ss'");
    let result = executor.run(config, &[patch]).unwrap();

    let proxies = result["proxies"].as_array().unwrap();
    assert_eq!(proxies.len(), 2, "应移除 2 个 ss 节点，保留 2 个");

    let trace = &executor.traces[0];
    assert_eq!(trace.summary.removed, 2);
    assert_eq!(trace.affected_items.len(), 2);

    // 验证被移除节点的 name 精确匹配
    let removed_names: Vec<&str> = trace
        .affected_items
        .iter()
        .filter_map(|item| item.before.as_deref())
        .collect();
    assert_eq!(
        removed_names,
        vec!["alpha", "delta"],
        "affected_items 应精确记录被移除节点的 name"
    );
}

/// test_remove_partial_match -- $remove 部分匹配场景
#[test]
fn test_remove_partial_match() {
    let mut executor = PatchExecutor::new();
    let config = json(r#"{ "proxies": [ {"name": "keep-a", "type": "ss"}, {"name": "remove-b", "type": "vmess"}, {"name": "keep-c", "type": "trojan"} ] }"#);
    let patch = make_remove_patch("proxies", "p.type == 'vmess'");
    let result = executor.run(config, &[patch]).unwrap();

    let proxies = result["proxies"].as_array().unwrap();
    assert_eq!(proxies.len(), 2, "应移除 1 条，保留 2 条");

    let trace = &executor.traces[0];
    assert_eq!(trace.summary.removed, 1);
    assert_eq!(trace.affected_items.len(), 1);

    // 验证被移除的是 remove-b（before 存储元素描述，非完整 JSON）
    let removed = &trace.affected_items[0];
    assert_eq!(removed.before.as_deref(), Some("remove-b"));
}
