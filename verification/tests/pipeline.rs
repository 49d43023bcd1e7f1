//! Resolution and execution of patches of several files and profiles.

use clash_prism_core::compiler::{
    compile_and_execute_pipeline, compile_and_execute_pipeline_at, PatchCompiler,
};
use clash_prism_core::error::PrismError;
use clash_prism_core::executor::{
    check_patch_condition, check_patch_condition_at, ExecutionContext, PatchExecutor,
};
use clash_prism_core::graph::{find_cycle, find_left_over, put_in_turn};
use clash_prism_core::ir::{CompiledPredicate, DependencyRef, Patch, PatchId, PatchOp, SubOp};
use clash_prism_core::json_text::to_json_text;
use clash_prism_core::number::{read_number, to_json_number, Number};
use clash_prism_core::scope::{Platform, Scope, TimeOfDay, TimeRange};
use clash_prism_core::source::PatchSource;
use clash_prism_core::trace::TraceManager;
use clash_prism_core::value::{Document, Object};

/// The document that a JSON text denotes.
fn json(text: &str) -> serde_json::Value {
    serde_json::from_str(text).unwrap()
}

/// The same document for the library.
fn lib(v: &serde_json::Value) -> Document {
    match v {
        serde_json::Value::Null => Document::Null,
        serde_json::Value::Bool(b) => Document::Bool(*b),
        serde_json::Value::Number(n) => {
            if let Some(i) = n.as_i64() {
                Document::Number(Number::Int(i))
            } else if let Some(u) = n.as_u64() {
                Document::Number(Number::UInt(u))
            } else {
                let text: Vec<char> = n.to_string().chars().collect();
                Document::Number(to_json_number(read_number(&text).unwrap()))
            }
        }
        serde_json::Value::String(s) => Document::String(s.clone()),
        serde_json::Value::Array(items) => Document::Array(items.iter().map(lib).collect()),
        serde_json::Value::Object(map) => {
            let mut out = Object::new();
            for (k, v) in map {
                out.insert(k.clone(), lib(v));
            }
            Document::Object(out)
        }
    }
}

fn doc(text: &str) -> Document {
    lib(&json(text))
}

/// A document of the library as `serde_json` has it.
fn plain(v: &Document) -> serde_json::Value {
    serde_json::from_str(&to_json_text(v)).unwrap()
}

fn patch(id: &str, file: &str, scope: Scope, path: &str, op: PatchOp, value: &str) -> Patch {
    let mut p = Patch::new(PatchSource::yaml_file(file, None), scope, path, op, doc(value));
    p.id = PatchId::from_identifier(id);
    p
}

fn set(id: &str, file: &str, scope: Scope, path: &str, value: &str) -> Patch {
    patch(id, file, scope, path, PatchOp::Override, value)
}

fn after_patch(p: Patch, id: &str) -> Patch {
    p.with_after(DependencyRef::PatchId(PatchId::from_identifier(id)))
}

fn after_file(p: Patch, name: &str) -> Patch {
    p.with_after(DependencyRef::FileName(name.to_string()))
}

fn message_of(e: PrismError) -> String {
    match e {
        PrismError::DslParse { message, file, line } => {
            assert!(file.is_none());
            assert!(line.is_none());
            message
        }
        PrismError::CircularDependency { cycle } => cycle,
        other => panic!("{:?}", other),
    }
}

fn order(c: &PatchCompiler) -> Vec<String> {
    c.resolve_dependencies()
        .unwrap()
        .iter()
        .map(|id| id.as_str().to_string())
        .collect()
}

#[test]
fn profiles_run_before_shared_patches() {
    let mut c = PatchCompiler::new();
    c.register_patches(
        "a.prism.yaml",
        vec![
            set("r", "a.prism.yaml", Scope::runtime(), "mode", "\"direct\""),
            set("g", "a.prism.yaml", Scope::global(), "mode", "\"rule\""),
            set("p", "a.prism.yaml", Scope::profile("work"), "dns.mode", "\"fake-ip\""),
        ],
    )
    .unwrap();
    let mut base = doc(r#"{"mode": "global", "port": 1}"#);
    let mut executor = PatchExecutor::new();
    let traces = compile_and_execute_pipeline(&c, &mut base, &mut executor).unwrap();
    let ids: Vec<&str> = traces.iter().map(|t| t.patch_id.as_str()).collect();
    assert_eq!(ids, vec!["p", "g", "r"]);
    assert!(traces.iter().all(|t| t.condition_matched));
    assert_eq!(
        plain(&base),
        json(r#"{"mode": "direct", "port": 1, "dns": {"mode": "fake-ip"}}"#)
    );
    assert!(executor.traces.is_empty());
}

#[test]
fn guarded_fields_survive_profiles_and_shared_patches() {
    let file = "a.prism.yaml";
    let other = r#"{"secret": "x", "authentication": ["b"], "mode": "rule"}"#;
    let mut c = PatchCompiler::new();
    c.register_patches(
        file,
        vec![
            patch("p", file, Scope::profile("a"), "", PatchOp::DeepMerge, other),
            set("q", file, Scope::profile("b"), "secret", "1"),
            patch("g", file, Scope::global(), "authentication", PatchOp::Append, "\"c\""),
            patch("h", file, Scope::global(), "", PatchOp::DeepMerge, other),
        ],
    )
    .unwrap();
    let mut base = doc(r#"{"secret": {"z": 1, "y": 2}, "authentication": ["a"]}"#);
    compile_and_execute_pipeline(&c, &mut base, &mut PatchExecutor::new()).unwrap();
    assert_eq!(
        to_json_text(&base),
        r#"{"authentication":["a"],"mode":"rule","secret":{"y":2,"z":1}}"#
    );
}

#[test]
fn profiles_are_merged_in_the_order_of_their_names() {
    let mut c = PatchCompiler::new();
    c.register_patches(
        "x.prism.yaml",
        vec![
            set("b1", "x.prism.yaml", Scope::profile("b"), "v", "\"from b\""),
            set("a1", "x.prism.yaml", Scope::profile("a"), "v", "\"from a\""),
            set("a2", "x.prism.yaml", Scope::profile("a"), "w", "1"),
        ],
    )
    .unwrap();
    let mut base = doc("{}");
    let traces =
        compile_and_execute_pipeline(&c, &mut base, &mut PatchExecutor::new()).unwrap();
    let ids: Vec<&str> = traces.iter().map(|t| t.patch_id.as_str()).collect();
    assert_eq!(ids, vec!["a1", "a2", "b1"]);
    assert_eq!(plain(&base), json(r#"{"v": "from b", "w": 1}"#));
}

#[test]
fn dependencies_within_a_group_are_honoured() {
    let mut c = PatchCompiler::new();
    c.register_patches(
        "a.prism.yaml",
        vec![after_file(
            set("late", "a.prism.yaml", Scope::profile("w"), "v", "2"),
            "z",
        )],
    )
    .unwrap();
    c.register_patches(
        "z.prism.yaml",
        vec![set("early", "z.prism.yaml", Scope::profile("w"), "v", "1")],
    )
    .unwrap();
    assert_eq!(order(&c), vec!["early", "late"]);
    let mut base = doc("{}");
    compile_and_execute_pipeline(&c, &mut base, &mut PatchExecutor::new()).unwrap();
    assert_eq!(plain(&base), json(r#"{"v": 2}"#));
}

#[test]
fn dependencies_between_groups_are_refused() {
    let mut c = PatchCompiler::new();
    c.register_patches(
        "a.prism.yaml",
        vec![
            after_patch(set("pa", "a.prism.yaml", Scope::profile("a"), "v", "1"), "pb"),
            set("pb", "a.prism.yaml", Scope::profile("b"), "v", "2"),
        ],
    )
    .unwrap();
    let mut base = doc(r#"{"v": 0}"#);
    let e = compile_and_execute_pipeline(&c, &mut base, &mut PatchExecutor::new()).unwrap_err();
    assert_eq!(
        message_of(e),
        "跨 Profile 组依赖不允许: Patch 'pa' (Profile 'a') 依赖 Profile 'b' 中的 Patch。Profile 组在 Phase 1 中并发执行，跨组依赖无法保证顺序。请将相关 Patch 移至同一 Profile 组或改用 Shared 级 Scope。"
    );
    assert_eq!(plain(&base), json(r#"{"v": 0}"#));
}

#[test]
fn dependencies_on_shared_patches_are_refused() {
    let mut c = PatchCompiler::new();
    c.register_patches(
        "a.prism.yaml",
        vec![after_file(
            set("pa", "a.prism.yaml", Scope::profile("a"), "v", "1"),
            "shared",
        )],
    )
    .unwrap();
    c.register_patches(
        "shared.prism.yaml",
        vec![set("s", "shared.prism.yaml", Scope::global(), "v", "2")],
    )
    .unwrap();
    let mut base = doc(r#"{"v": 0}"#);
    let e = compile_and_execute_pipeline(&c, &mut base, &mut PatchExecutor::new()).unwrap_err();
    assert_eq!(
        message_of(e),
        "跨阶段依赖不允许: Profile Patch 'pa' (Profile 'a') 依赖 Shared Patch 's'。Profile 在 Phase 1 先于 Phase 2 的 Shared 执行，此依赖无法满足。请将依赖的 Patch 改为 Profile 级 Scope，或将依赖方移至 Shared 级。"
    );
    assert_eq!(plain(&base), json(r#"{"v": 0}"#));
}

#[test]
fn shared_patches_of_one_priority_keep_the_order_of_dependencies() {
    let mut c = PatchCompiler::new();
    c.register_patches(
        "a.prism.yaml",
        vec![
            after_patch(set("g1", "a.prism.yaml", Scope::global(), "v", "1"), "g2"),
            set("g2", "a.prism.yaml", Scope::global(), "v", "2"),
            set("r", "a.prism.yaml", Scope::runtime(), "w", "3"),
            set("s", "a.prism.yaml", Scope::scoped().build(), "w", "4"),
        ],
    )
    .unwrap();
    let mut base = doc("{}");
    let traces =
        compile_and_execute_pipeline(&c, &mut base, &mut PatchExecutor::new()).unwrap();
    let ids: Vec<&str> = traces.iter().map(|t| t.patch_id.as_str()).collect();
    assert_eq!(ids, vec!["g2", "g1", "s", "r"]);
    assert_eq!(plain(&base), json(r#"{"v": 1, "w": 3}"#));
}

#[test]
fn siblings_come_in_the_order_of_file_names() {
    let mut c = PatchCompiler::new();
    c.register_patches("10-b", vec![set("x", "10-b", Scope::global(), "v", "1")]).unwrap();
    c.register_patches(
        "00-a",
        vec![
            set("q", "00-a", Scope::global(), "v", "1"),
            set("p", "00-a", Scope::global(), "v", "1"),
        ],
    )
    .unwrap();
    assert_eq!(order(&c), vec!["p", "q", "x"]);
}

#[test]
fn a_cycle_is_reported_along_its_patches() {
    let mut c = PatchCompiler::new();
    c.register_patches(
        "f",
        vec![
            after_patch(set("start", "f", Scope::global(), "v", "1"), "x"),
            after_patch(set("x", "f", Scope::global(), "v", "1"), "y"),
            after_patch(set("y", "f", Scope::global(), "v", "1"), "x"),
        ],
    )
    .unwrap();
    assert_eq!(message_of(c.resolve_dependencies().unwrap_err()), "x → y → x");
}

#[test]
fn names_that_name_nothing_are_refused() {
    let mut c = PatchCompiler::new();
    c.register_patches(
        "f",
        vec![after_file(set("x", "f", Scope::global(), "v", "1"), "nowhere")],
    )
    .unwrap();
    assert_eq!(
        message_of(c.resolve_dependencies().unwrap_err()),
        "`nowhere` 在文件 `f` 中未找到"
    );
    let mut d = PatchCompiler::new();
    let mut p = after_patch(set("x", "f", Scope::global(), "v", "1"), "y");
    p.source.file = None;
    d.register_patches("f", vec![p]).unwrap();
    assert_eq!(
        message_of(d.resolve_dependencies().unwrap_err()),
        "`y` 在文件 `unknown` 中未找到"
    );
}

#[test]
fn one_short_name_for_two_files_is_refused() {
    let mut c = PatchCompiler::new();
    c.register_patches("foo.prism.yaml", vec![]).unwrap();
    c.register_patches("foo.prism.yml", vec![]).unwrap();
    assert_eq!(
        message_of(c.resolve_dependencies().unwrap_err()),
        "短名称 'foo' 存在歧义：文件 'foo.prism.yml' 与已注册的文件共享同一短名称。依赖引用可能匹配到非预期的文件。请使用完整文件名（如 'foo.prism.yaml'）避免歧义。"
    );
}

#[test]
fn registering_a_file_again_replaces_its_patches() {
    let mut c = PatchCompiler::new();
    c.register_patches("f", vec![set("x", "f", Scope::global(), "v", "1")]).unwrap();
    c.register_patches("f", vec![set("y", "f", Scope::global(), "v", "1")]).unwrap();
    assert_eq!(order(&c), vec!["y"]);
    assert_eq!(c.get_file_patches("f").unwrap().len(), 1);
    assert!(c.get_file_patches("g").is_none());
    assert_eq!(c.get_patch_ids_for_file("f.prism.yaml").unwrap()[0].as_str(), "y");
    assert!(c.get_patch_ids_for_file("g").is_none());
}

#[test]
fn graphs_without_an_order() {
    let keys = |names: &[&str]| -> Vec<(String, String)> {
        names.iter().map(|n| (n.to_string(), n.to_string())).collect()
    };
    let needs: Vec<Vec<usize>> = vec![vec![2], vec![], vec![1]];
    assert_eq!(put_in_turn(&needs, &keys(&["a", "b", "c"])), vec![1, 2, 0]);
    let free: Vec<Vec<usize>> = vec![vec![], vec![], vec![]];
    assert_eq!(put_in_turn(&free, &keys(&["c", "a", "b"])), vec![1, 2, 0]);
    let bad: Vec<Vec<usize>> = vec![vec![1], vec![0], vec![]];
    let done = put_in_turn(&bad, &keys(&["a", "b", "c"]));
    assert_eq!(done, vec![2]);
    let left = find_left_over(&bad, &done);
    assert_eq!(find_cycle(&left, &vec![0, 1]), Some(vec![0, 1, 0]));
    assert_eq!(find_cycle(&free, &vec![0, 1, 2]), None);
}

// ---------------------------------------------------------------------------
// Times of day
// ---------------------------------------------------------------------------

fn at(hour: u32, minute: u32) -> TimeOfDay {
    TimeOfDay::new(hour, minute).unwrap()
}

fn office_hours() -> Scope {
    Scope::scoped().time(TimeRange::parse("09:00-17:00").unwrap()).build()
}

#[test]
fn conditions_at_a_time_of_day() {
    let p = set("x", "f", office_hours(), "v", "1");
    let context = ExecutionContext::default();
    assert!(check_patch_condition_at(&p, &context, at(9, 0)));
    assert!(check_patch_condition_at(&p, &context, at(17, 0)));
    assert!(!check_patch_condition_at(&p, &context, at(17, 1)));
    assert!(!check_patch_condition_at(&p, &context, at(8, 59)));
    let always = set("x", "f", Scope::global(), "v", "1");
    assert!(check_patch_condition(&always, &context));
    assert!(TimeOfDay::new(24, 0).is_none());
    assert!(TimeOfDay::new(0, 60).is_none());
}

#[test]
fn execution_at_a_time_of_day() {
    let p = set("x", "f", office_hours(), "v", "1");
    let q = set("y", "f", Scope::global(), "w", "2");
    let mut executor = PatchExecutor::new();
    let noon = executor.execute_at(doc("{}"), &[&p, &q], at(12, 0)).unwrap();
    assert_eq!(plain(&noon), json(r#"{"v": 1, "w": 2}"#));
    assert_eq!(executor.traces.len(), 2);
    let night = executor.execute_at(doc("{}"), &[&p, &q], at(23, 0)).unwrap();
    assert_eq!(plain(&night), json(r#"{"w": 2}"#));
    assert_eq!(executor.traces.len(), 2);
    assert!(!executor.traces[0].condition_matched);
    assert_eq!(executor.traces[0].summary.modified, 0);
    assert!(executor.traces[1].condition_matched);
}

#[test]
fn pipelines_at_a_time_of_day() {
    let mut c = PatchCompiler::new();
    c.register_patches(
        "f",
        vec![
            set("x", "f", office_hours(), "v", "1"),
            set("y", "f", Scope::profile("p"), "w", "2"),
        ],
    )
    .unwrap();
    let mut early = doc("{}");
    let mut executor = PatchExecutor::new();
    compile_and_execute_pipeline_at(&c, &mut early, &mut executor, at(3, 0)).unwrap();
    assert_eq!(plain(&early), json(r#"{"w": 2}"#));
    let mut noon = doc("{}");
    compile_and_execute_pipeline_at(&c, &mut noon, &mut executor, at(12, 0)).unwrap();
    assert_eq!(plain(&noon), json(r#"{"v": 1, "w": 2}"#));
    let shared = set("z", "f", office_hours(), "v", "3");
    let own = set("o", "f", Scope::profile("p"), "w", "4");
    let (traces, v) = executor
        .execute_pipeline_at(
            &doc("{}"),
            vec![("p".to_string(), vec![&own])],
            vec![&shared],
            at(12, 0),
        )
        .unwrap();
    assert_eq!(traces.len(), 2);
    assert_eq!(plain(&v), json(r#"{"v": 3, "w": 4}"#));
}

#[test]
fn replays_are_executions() {
    let patches = vec![
        set("a", "f", Scope::global(), "v", "1"),
        set("b", "f", office_hours(), "v", "2"),
        set("c", "f", Scope::global(), "w", "3"),
    ];
    let refs: Vec<&Patch> = patches.iter().collect();
    let mut executor = PatchExecutor::new();
    let whole = executor.execute_at(doc("{}"), &refs, at(10, 0)).unwrap();
    let context = ExecutionContext::default();
    let mut manager = TraceManager::new();
    let traces = std::mem::take(&mut executor.traces);
    let copies: Vec<Patch> = patches.iter().map(|p| p.clone()).collect();
    manager.import(traces, copies).unwrap();
    let first = manager.replay_at_time(0, &doc("{}"), &context, at(10, 0)).unwrap();
    assert_eq!(plain(&first), json(r#"{"v": 1}"#));
    let second = manager.replay_at_time(1, &doc("{}"), &context, at(10, 0)).unwrap();
    assert_eq!(plain(&second), json(r#"{"v": 2}"#));
    let night = manager.replay_at_time(1, &doc("{}"), &context, at(22, 0)).unwrap();
    assert_eq!(plain(&night), json(r#"{"v": 1}"#));
    let third = manager.replay_at_time(2, &doc("{}"), &context, at(10, 0)).unwrap();
    assert_eq!(plain(&third), plain(&whole));
    assert!(manager.replay_at_time(3, &doc("{}"), &context, at(10, 0)).is_none());
    assert!(manager.replay_at_step(3, &doc("{}"), &context).is_none());
}

// ---------------------------------------------------------------------------
// Conditions
// ---------------------------------------------------------------------------

fn applies(scope: Scope, context: &ExecutionContext) -> bool {
    check_patch_condition_at(&set("x", "f", scope, "v", "1"), context, at(12, 0))
}

#[test]
fn scopes_and_contexts() {
    let nothing = ExecutionContext::default();
    let known = ExecutionContext {
        core_type: Some("mihomo".to_string()),
        platform: Some("Linux".to_string()),
        profile_name: Some("work-1".to_string()),
        ssid: Some("Office".to_string()),
    };
    assert!(!applies(Scope::profile("work-1"), &nothing));
    assert!(applies(Scope::profile("work-1"), &known));
    assert!(applies(Scope::profile("work-*"), &known));
    assert!(applies(Scope::profile("work-?"), &known));
    assert!(applies(Scope::profile("/^work-[0-9]$/"), &known));
    assert!(!applies(Scope::profile("/^home/"), &known));
    assert!(!applies(Scope::profile("/(/"), &known));
    assert!(!applies(Scope::profile("work"), &known));
    assert!(applies(Scope::scoped().with_core("mihomo").build(), &known));
    assert!(!applies(Scope::scoped().with_core("clash-rs").build(), &known));
    assert!(applies(Scope::scoped().with_core("clash-rs").build(), &nothing));
    assert!(applies(Scope::scoped().platform(vec![Platform::Windows, Platform::Linux]).build(), &known));
    assert!(!applies(Scope::scoped().platform(vec![Platform::Windows]).build(), &known));
    assert!(applies(Scope::scoped().platform(vec![Platform::Windows]).build(), &nothing));
    assert!(applies(Scope::scoped().ssid("Office").build(), &known));
    assert!(!applies(Scope::scoped().ssid("Home").build(), &known));
    assert!(!applies(Scope::scoped().ssid("Office").build(), &nothing));
    assert!(!applies(Scope::scoped().enabled(false).build(), &known));
    assert!(applies(Scope::scoped().enabled(true).build(), &nothing));
    assert!(applies(Scope::scoped().profile("work-1").build(), &known));
    assert!(!applies(Scope::scoped().profile("work-1").build(), &nothing));
    assert!(applies(Scope::runtime(), &nothing));
}

#[test]
fn wildcards_are_no_regular_expressions() {
    assert!(PatchExecutor::profile_matches("a.b", "a.*"));
    assert!(!PatchExecutor::profile_matches("axb", "a.*"));
    assert!(!PatchExecutor::profile_matches("xa.b", "a.*"));
    assert!(PatchExecutor::profile_matches("a+b", "a+?"));
    assert!(PatchExecutor::profile_matches("plain", "plain"));
    assert!(!PatchExecutor::profile_matches("plain", "plai"));
}

#[test]
fn conditions_of_patches() {
    let holds = CompiledPredicate::new("p.mode == \"rule\"", vec![]);
    let fails = CompiledPredicate::new("p.mode ==", vec![]);
    let base = r#"{"mode": "rule"}"#;
    let run = |p: Patch| -> serde_json::Value {
        let v = PatchExecutor::new().execute_owned(doc(base), &[p]).unwrap();
        plain(&v)
    };
    let p = || set("x", "f", Scope::global(), "v", "1");
    assert_eq!(run(p().with_condition(holds)), json(r#"{"mode": "rule", "v": 1}"#));
    assert_eq!(run(p().with_condition(fails)), json(base));
    assert_eq!(run(p().with_condition(CompiledPredicate::constant(true))), json(r#"{"mode": "rule", "v": 1}"#));
    assert_eq!(run(p().with_condition(CompiledPredicate::constant(false))), json(base));
}

#[test]
fn guarded_fields_survive_every_operation() {
    let base = r#"{"secret": "s", "authentication": ["a"], "rules": ["r"]}"#;
    let any = || CompiledPredicate::new("p.name == \"a\"", vec![]);
    let ops = vec![
        PatchOp::DeepMerge,
        PatchOp::Override,
        PatchOp::Prepend,
        PatchOp::Append,
        PatchOp::Filter { expr: any() },
        PatchOp::Remove { expr: any() },
        PatchOp::Transform { expr: CompiledPredicate::new("{...p}", vec![]) },
        PatchOp::SetDefault,
    ];
    for op in ops {
        for path in ["secret", "secret.x", "authentication", "authentication.0", "mixed-port"] {
            let p = patch("x", "f", Scope::global(), path, op.clone(), "[\"new\"]");
            let v = PatchExecutor::new().execute_owned(doc(base), &[p]).unwrap();
            assert_eq!(plain(&v), json(base));
        }
    }
    let merge = patch(
        "x",
        "f",
        Scope::global(),
        "",
        PatchOp::DeepMerge,
        r#"{"secret": "other", "mode": "rule"}"#,
    );
    let v = PatchExecutor::new().execute_owned(doc(base), &[merge]).unwrap();
    assert_eq!(
        plain(&v),
        json(r#"{"secret": "s", "authentication": ["a"], "rules": ["r"], "mode": "rule"}"#)
    );
}

#[test]
fn a_condition_is_asked_once_for_all_operations() {
    let with_two = |expr: &str| {
        let keep = CompiledPredicate::new("p.n > 1", vec![]);
        patch("c", "a.prism.yaml", Scope::global(), "a", PatchOp::DeepMerge, "null")
            .with_sub_ops(vec![
                SubOp { op: PatchOp::Append, value: doc(r#"[{"n": 9}]"#) },
                SubOp { op: PatchOp::Filter { expr: keep }, value: Document::Null },
            ])
            .unwrap()
            .with_condition(CompiledPredicate::new(expr, vec![]))
    };
    let run = |p: &Patch| {
        let mut executor = PatchExecutor::new();
        let config = executor.execute(doc(r#"{"a": [{"n": 1}, {"n": 2}]}"#), &[p]).unwrap();
        let matched: Vec<bool> = executor.traces.iter().map(|t| t.condition_matched).collect();
        (plain(&config), matched)
    };
    let (config, matched) = run(&with_two("p.a | len == 2"));
    assert_eq!(config, json(r#"{"a": [{"n": 2}, {"n": 9}]}"#));
    assert_eq!(matched, vec![true, true]);
    let (config, matched) = run(&with_two("p.a | len == 1"));
    assert_eq!(config, json(r#"{"a": [{"n": 1}, {"n": 2}]}"#));
    assert_eq!(matched, vec![false, false]);
}

#[test]
fn the_order_of_groups_does_not_matter() {
    let a = set("a", "x.prism.yaml", Scope::profile("a"), "v", "1");
    let b = set("b", "x.prism.yaml", Scope::profile("b"), "v", "2");
    let c = set("c", "x.prism.yaml", Scope::profile("c"), "w", "3");
    let groups = |names: [&str; 3]| -> Vec<(String, Vec<&Patch>)> {
        names
            .iter()
            .map(|n| {
                let p = match *n {
                    "a" => &a,
                    "b" => &b,
                    _ => &c,
                };
                (n.to_string(), vec![p])
            })
            .collect()
    };
    let run = |names: [&str; 3]| {
        let mut executor = PatchExecutor::new();
        let (traces, config) =
            executor.execute_pipeline(&doc("{}"), groups(names), vec![]).unwrap();
        let ids: Vec<String> = traces.iter().map(|t| t.patch_id.as_str().to_string()).collect();
        (plain(&config), ids)
    };
    let first = run(["a", "b", "c"]);
    assert_eq!(first.0, json(r#"{"v": 2, "w": 3}"#));
    assert_eq!(run(["c", "b", "a"]), first);
    assert_eq!(run(["b", "a", "c"]), first);
}

#[test]
fn operations_of_one_patch_run_in_a_fixed_order() {
    let keep = CompiledPredicate::new("p.n > 1", vec![]);
    let p = patch("x", "f", Scope::global(), "a", PatchOp::DeepMerge, "null");
    let p = p
        .with_sub_ops(vec![
            SubOp { op: PatchOp::Append, value: doc(r#"[{"n": 0}]"#) },
            SubOp { op: PatchOp::Prepend, value: doc(r#"[{"n": 9}]"#) },
            SubOp { op: PatchOp::Filter { expr: keep }, value: Document::Null },
        ])
        .unwrap();
    let mut executor = PatchExecutor::new();
    let v = executor
        .execute_owned(doc(r#"{"a": [{"n": 1}, {"n": 2}]}"#), &[p])
        .unwrap();
    assert_eq!(plain(&v), json(r#"{"a": [{"n": 9}, {"n": 2}, {"n": 0}]}"#));
    let names: Vec<&str> = executor.traces.iter().map(|t| t.op.display_name()).collect();
    assert_eq!(names, vec!["Filter", "Prepend", "Append"]);
}

#[test]
fn many_items_are_summed_up() {
    let items: Vec<String> = (0..100).map(|i| format!("\"r{}\"", i)).collect();
    let value = format!("[{}]", items.join(","));
    let p = patch("x", "f", Scope::global(), "rules", PatchOp::Append, &value);
    let mut executor = PatchExecutor::new();
    executor.execute_owned(doc(r#"{"rules": ["old"]}"#), &[p]).unwrap();
    let t = &executor.traces[0];
    assert_eq!(t.summary.added, 100);
    assert_eq!(t.summary.total_after, 101);
    assert_eq!(t.affected_items.len(), 1);
    assert_eq!(t.affected_items[0].index, 1);
    assert_eq!(t.affected_items[0].after.as_deref(), Some("100 items appended"));
    assert_eq!(t.bulk_items.as_ref().unwrap()[99], "r99");
}
