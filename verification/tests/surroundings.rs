//! Conditions of files, faults, encodings, identifiers and the rest.

use clash_prism_core::condition::{parse_platform, ConditionPrecompiler};
use clash_prism_core::error::{CompileError, PrismError, TransformWarning};
use clash_prism_core::ir::{DependencyRef, PatchId};
use clash_prism_core::perf::{format_us, PerfTracker};
use clash_prism_core::reload::{HotReloadResult, HotReloadStrategy};
use clash_prism_core::sanitize::{read_config_file, sanitize_config_string};
use clash_prism_core::scope::{Platform, Scope, TimeRange};
use clash_prism_core::value::{Document, Object};
use clash_prism_core::watcher::{
    CompileStats, FileChangeEvent, FileWatcher, WatchCallback, WatchConfig,
};

fn text(s: &str) -> Document {
    Document::String(s.to_string())
}

fn when(members: Vec<(&str, Document)>) -> Result<Scope, CompileError> {
    let mut o = Object::new();
    for (k, v) in members {
        o.insert(k.to_string(), v);
    }
    ConditionPrecompiler::compile_when(&o)
}

#[test]
fn former_names_of_the_core() {
    for (written, meant) in [("clash", "mihomo"), ("meta", "mihomo"), ("mihomo", "mihomo"), ("x", "x")] {
        match when(vec![("core", text(written))]).unwrap() {
            Scope::Scoped { core, .. } => assert_eq!(core.as_deref(), Some(meant)),
            other => panic!("{:?}", other),
        }
    }
}

#[test]
fn all_conditions_of_a_file() {
    let s = when(vec![
        ("platform", Document::Array(vec![text("Win"), Document::Null, text("macos")])),
        ("profile", text("p*")),
        ("time", text("22:00-06:30")),
        ("enabled", Document::Bool(false)),
        ("ssid", text("w")),
        ("other", text("x")),
    ])
    .unwrap();
    match s {
        Scope::Scoped { profile, platform, core, time_range, enabled, ssid } => {
            assert_eq!(profile.as_deref(), Some("p*"));
            assert_eq!(platform, Some(vec![Platform::Windows, Platform::MacOS]));
            assert!(core.is_none());
            assert_eq!(time_range, Some(TimeRange { start: (22, 0), end: (6, 30) }));
            assert_eq!(enabled, Some(false));
            assert_eq!(ssid.as_deref(), Some("w"));
        }
        other => panic!("{:?}", other),
    }
    match when(vec![]).unwrap() {
        Scope::Scoped { profile, platform, core, time_range, enabled, ssid } => {
            assert!(profile.is_none() && platform.is_none() && core.is_none());
            assert!(time_range.is_none() && enabled.is_none() && ssid.is_none());
        }
        other => panic!("{:?}", other),
    }
}

#[test]
fn conditions_that_are_refused() {
    let message = |r: Result<Scope, CompileError>| -> String {
        match r {
            Err(CompileError::ConditionPrecompile(m)) => m,
            other => panic!("{:?}", other),
        }
    };
    assert_eq!(
        message(when(vec![("platform", Document::Bool(true))])),
        "platform 字段类型错误，应为字符串或字符串数组"
    );
    assert_eq!(message(when(vec![("platform", text("BeOS"))])), "Unsupported platform: beos");
    assert_eq!(
        message(when(vec![("time", text("9"))])),
        "时间格式无效「9」，期望 \"HH:mm-HH:mm\""
    );
    assert!(matches!(parse_platform("LIN"), Ok(Platform::Linux)));
    assert!(matches!(parse_platform("iOS"), Ok(Platform::IOS)));
}

#[test]
fn ranges_that_are_refused() {
    let refused = |s: &str| TimeRange::parse(s).unwrap_err();
    assert_eq!(refused("1:2:3-4:5"), "时间部分格式无效「1:2:3」，期望 \"HH:mm\"");
    assert_eq!(refused("x:00-1:00"), "无效的小时值「x」");
    assert_eq!(refused("1:y-1:00"), "无效的分钟值「y」");
    assert_eq!(refused("24:00-1:00"), "小时值超出范围 (0-23): 24");
    assert_eq!(refused("1:00-1:60"), "分钟值超出范围 (0-59): 60");
    let r = TimeRange::parse("7:05-18:30").unwrap();
    assert_eq!(r.to_text(), "07:05-18:30");
    assert!(TimeRange::parse("00:00-23:59").unwrap().is_active_now());
    assert!(TimeRange::parse("08:00-08:00").unwrap().is_active_now());
}

#[test]
fn faults_in_words() {
    let io = || std::io::Error::new(std::io::ErrorKind::NotFound, "gone");
    let faults = vec![
        (
            PrismError::DslParse { message: "m".to_string(), file: None, line: Some(1) },
            "DSL 解析错误: m",
        ),
        (
            PrismError::RuntimeFieldInStaticFilter { field: "f".to_string(), hint: "h".to_string() },
            "运行时字段在静态过滤器中引用: `f`. h",
        ),
        (
            PrismError::ExpressionCompileFailed { expr: "e".to_string(), reason: "r".to_string() },
            "表达式编译失败: e — r",
        ),
        (PrismError::CircularDependency { cycle: "c".to_string() }, "循环依赖检测到: c"),
        (
            PrismError::DependencyNotFound { dep: "d".to_string(), file: "f".to_string() },
            "依赖解析失败: `d` 在文件 `f` 中未找到",
        ),
        (
            PrismError::PatchExecutionFailed { patch_id: "p".to_string(), reason: "r".to_string() },
            "Patch 执行失败 (id=p): r",
        ),
        (PrismError::PathNotFound { path: "p".to_string() }, "路径不存在: p"),
        (
            PrismError::TypeMismatch {
                expected: "e".to_string(),
                actual: "a".to_string(),
                path: "p".to_string(),
            },
            "类型不匹配: 期望 e, 实际 a, 路径: p",
        ),
        (
            PrismError::OverrideConflict { field: "f".to_string() },
            "$override 与其他操作混用: 字段 `f` 不允许同时使用 $override 和其他操作",
        ),
        (PrismError::Validation { message: "m".to_string(), path: None }, "校验失败: m"),
        (
            PrismError::DuplicateProxyName { name: "n".to_string(), count: 2 },
            "代理名称重复: `n` 出现 2 次",
        ),
        (
            PrismError::ProxyGroupMissingProxy { group: "g".to_string(), proxy: "p".to_string() },
            "代理组引用不存在的代理: 组=`g`, 代理=`p`",
        ),
        (PrismError::TargetOutput { message: "m".to_string() }, "配置输出失败: m"),
    ];
    for (fault, words) in faults {
        assert_eq!(fault.message(), words);
    }
    assert!(PrismError::from(io()).message().starts_with("IO 错误: "));
    assert!(PrismError::from(io()).message().contains("gone"));
    let bad_json = serde_json::from_str::<serde_json::Value>("{").unwrap_err();
    let words = format!("序列化错误: {}", bad_json);
    assert_eq!(PrismError::from(bad_json).message(), words);
    let bad_yaml = serde_yml::from_str::<serde_yml::Value>("a: [").unwrap_err();
    let words = format!("YAML 解析错误: {}", bad_yaml);
    assert_eq!(PrismError::from(bad_yaml).message(), words);
}

#[test]
fn faults_of_compilation_in_words() {
    let faults = vec![
        (
            CompileError::RuntimeFieldInStaticContext { field: "f".to_string(), hint: "h".to_string() },
            "运行时字段在静态上下文中引用: `f` — h",
        ),
        (
            CompileError::SyntaxError { expr: "e".to_string(), reason: "r".to_string() },
            "表达式语法错误: `e` — r",
        ),
        (
            CompileError::DuplicateWhenClause,
            "__when__ 重复声明: 一个 .prism.yaml 文件只能有一个 __when__",
        ),
        (CompileError::ConditionPrecompile("m".to_string()), "条件预编译失败: m"),
        (CompileError::CircularDependency("m".to_string()), "循环依赖: m"),
        (CompileError::DependencyNotFound("m".to_string()), "依赖未找到: m"),
        (
            CompileError::from(PrismError::PathNotFound { path: "p".to_string() }),
            "路径不存在: p",
        ),
    ];
    for (fault, words) in faults {
        assert_eq!(fault.message(), words);
    }
    let w = TransformWarning {
        node_index: 1,
        node_name: "n".to_string(),
        field: "f".to_string(),
        hint: "h".to_string(),
    };
    assert!(w.message().contains("n") && w.message().contains("f") && w.message().contains("h"));
}

#[test]
fn files_in_several_encodings() {
    assert_eq!(read_config_file(b"plain"), "plain");
    assert_eq!(read_config_file(&[0xEF, 0xBB, 0xBF, b'a']), "a");
    assert_eq!(read_config_file(&[b'a', 0xFF, b'b']), "a\u{FFFD}b");
    assert_eq!(read_config_file(&[0xFF, 0xFE, b'a', 0, 0x3D, 0xD8, 0x00, 0xDE]), "a\u{1F600}");
    assert_eq!(read_config_file(&[0xFE, 0xFF, 0, b'a', 0xD8, 0x3D, 0, b'b']), "a\u{FFFD}b");
    assert_eq!(read_config_file(&[0xFF, 0xFE, b'a', 0, b'b']), "a");
    assert_eq!(read_config_file(&[]), "");
}

#[test]
fn texts_are_normalised() {
    assert_eq!(sanitize_config_string("\u{FB01}le\u{200B}"), "file");
    assert_eq!(sanitize_config_string("\u{FF21}\u{202E}b"), "Ab");
}

#[test]
fn identifiers() {
    let a = PatchId::new();
    let b = PatchId::new();
    assert_ne!(a.as_str(), b.as_str());
    assert_eq!(a.as_str().len(), 36);
    assert!(PatchId::validate_format(a.as_str()).is_ok());
    assert!(!a.as_str().contains('.'));
    assert_eq!(&a.as_str()[14..15], "4");
    assert_ne!(
        DependencyRef::FileName("x".to_string()),
        DependencyRef::PatchId(PatchId::from_identifier("x"))
    );
}

#[test]
fn measurements() {
    let mut t = PerfTracker::new();
    let x = t.measure("a", || 41 + 1);
    assert_eq!(x, 42);
    let y: Result<u8, String> = t.try_measure("b", || Err("no".to_string()));
    assert_eq!(y, Err("no".to_string()));
    assert_eq!(t.phase_count(), 2);
    t.record("c", 1_500);
    assert_eq!(t.phases()[2].name, "c");
    assert_eq!(format_us(999), format_us(999));
    assert_ne!(format_us(999), format_us(1_000_000));
}

struct Nothing;

impl WatchCallback for Nothing {
    fn on_change(&mut self, _event: &FileChangeEvent) -> Result<CompileStats, String> {
        Err("unused".to_string())
    }
    fn on_batch_change(&mut self, _events: &[FileChangeEvent]) -> Result<CompileStats, String> {
        Err("unused".to_string())
    }
}

#[test]
fn watching_is_not_built_in() {
    let w = FileWatcher::new(WatchConfig::default()).unwrap();
    assert_eq!(w.config.debounce_ms, 300);
    assert_eq!(w.config.skip_dirs, vec!["node_modules", "target"]);
    assert_eq!(w.run(|_, _| Ok(vec![])).unwrap_err(), "watcher feature is not enabled");
    assert_eq!(
        w.run_with_callback(Box::new(Nothing)).unwrap_err(),
        "watcher feature is not enabled"
    );
}

#[test]
fn reloading_in_words() {
    assert_eq!(HotReloadStrategy::Off.to_text(), "none");
    assert_eq!(HotReloadStrategy::Signal { pid: 7 }.to_text(), "signal(pid=7)");
    assert_eq!(
        HotReloadStrategy::HttpApi { url: "u".to_string() }.to_text(),
        "http-api(u)"
    );
    let r = |success: bool| HotReloadResult {
        strategy: "s".to_string(),
        success,
        detail: "d".to_string(),
    };
    assert_eq!(r(true).to_text(), "[✅ s] d");
    assert_eq!(r(false).to_text(), "[❌ s] d");
}
