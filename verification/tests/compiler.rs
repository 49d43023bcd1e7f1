//! Registration, dependencies and conditions.

use clash_prism_core::compiler::PatchCompiler;
use clash_prism_core::condition::{parse_platform, ConditionPrecompiler};
use clash_prism_core::error::CompileError;
use clash_prism_core::ir::{DependencyRef, Patch, PatchOp};
use clash_prism_core::number::{read_number, to_json_number, Number};
use clash_prism_core::scope::{Platform, Scope};
use clash_prism_core::source::PatchSource;
use clash_prism_core::value::{Document, Object};

/// The document that a JSON text denotes.
fn json(text: &str) -> serde_json::Value {
    serde_json::from_str(text).unwrap()
}

/// The same document for the library.
fn lib(v: &serde_json::Value) -> Document {
    match v {
        serde_json::Value::Null => Document::Null,
        serde_json::Value::Bool(b) => Document::Bool(*b),
        serde_json::Value::Number(n) => {
            if let Some(i) = n.as_i64() {
                Document::Number(Number::Int(i))
            } else if let Some(u) = n.as_u64() {
                Document::Number(Number::UInt(u))
            } else {
                let text: Vec<char> = n.to_string().chars().collect();
                Document::Number(to_json_number(read_number(&text).unwrap()))
            }
        }
        serde_json::Value::String(s) => Document::String(s.clone()),
        serde_json::Value::Array(items) => Document::Array(items.iter().map(lib).collect()),
        serde_json::Value::Object(map) => {
            let mut out = Object::new();
            for (k, v) in map {
                out.insert(k.clone(), lib(v));
            }
            Document::Object(out)
        }
    }
}

fn new_patch(
    source: PatchSource,
    scope: Scope,
    path: &str,
    op: PatchOp,
    value: serde_json::Value,
) -> Patch {
    Patch::new(source, scope, path, op, lib(&value))
}

/// The scope that a YAML mapping states.
fn compile_when(when: &serde_yml::Mapping) -> Result<Scope, CompileError> {
    let text = serde_json::to_value(when).unwrap();
    match lib(&text) {
        Document::Object(members) => ConditionPrecompiler::compile_when(&members),
        _ => panic!("a mapping is an object"),
    }
}

/// Helper: create a minimal Patch for testing
fn make_patch(file: &str, path: &str, after: Vec<DependencyRef>) -> Patch {
    let mut patch = new_patch(
        PatchSource::yaml_file(file, None),
        Scope::Global,
        path,
        PatchOp::DeepMerge,
        json(r#"{"test": true}"#),
    );
    patch.after = after;
    patch
}

// ─── PatchCompiler 基础构造 ───

#[test]
fn test_compiler_new_is_empty() {
    let compiler = PatchCompiler::new();
    assert!(compiler.get_all_patches().is_empty());
    assert!(compiler.get_file_patches("nonexistent").is_none());
}

#[test]
fn test_compiler_default_trait() {
    let compiler = PatchCompiler::default();
    assert!(compiler.get_all_patches().is_empty());
}

// ─── register_patches ───

#[test]
fn test_register_patches_single_file() {
    let mut compiler = PatchCompiler::new();
    let patches = vec![make_patch("a.yaml", "dns", vec![])];
    compiler.register_patches("a.yaml", patches).unwrap();
    assert_eq!(compiler.get_all_patches().len(), 1);
    assert!(compiler.get_file_patches("a.yaml").is_some());
}

#[test]
fn test_register_patches_multiple_files() {
    let mut compiler = PatchCompiler::new();
    compiler
        .register_patches("a.yaml", vec![make_patch("a.yaml", "dns", vec![])])
        .unwrap();
    compiler
        .register_patches("b.yaml", vec![make_patch("b.yaml", "rules", vec![])])
        .unwrap();
    assert_eq!(compiler.get_all_patches().len(), 2);
}

#[test]
fn test_register_patches_overwrites_same_file() {
    let mut compiler = PatchCompiler::new();
    compiler
        .register_patches("a.yaml", vec![make_patch("a.yaml", "dns", vec![])])
        .unwrap();
    compiler
        .register_patches(
            "a.yaml",
            vec![
                make_patch("a.yaml", "dns", vec![]),
                make_patch("a.yaml", "rules", vec![]),
            ],
        )
        .unwrap();
    // Second registration overwrites the first
    assert_eq!(compiler.get_all_patches().len(), 2);
}

// ─── resolve_dependencies 拓扑排序正确性 ───

#[test]
fn test_resolve_no_dependencies_sorted_by_filename() {
    let mut compiler = PatchCompiler::new();
    compiler
        .register_patches("z-last.yaml", vec![make_patch("z-last.yaml", "z", vec![])])
        .unwrap();
    compiler
        .register_patches(
            "a-first.yaml",
            vec![make_patch("a-first.yaml", "a", vec![])],
        )
        .unwrap();
    compiler
        .register_patches("m-mid.yaml", vec![make_patch("m-mid.yaml", "m", vec![])])
        .unwrap();

    let sorted = compiler.resolve_dependencies().unwrap();
    assert_eq!(sorted.len(), 3);
    // 验证按文件名字典序排列
    let a_id = &compiler.get_file_patches("a-first.yaml").unwrap()[0].id;
    let m_id = &compiler.get_file_patches("m-mid.yaml").unwrap()[0].id;
    let z_id = &compiler.get_file_patches("z-last.yaml").unwrap()[0].id;
    assert_eq!(&sorted[0], a_id);
    assert_eq!(&sorted[1], m_id);
    assert_eq!(&sorted[2], z_id);
}

#[test]
fn test_resolve_linear_dependency_chain() {
    let mut compiler = PatchCompiler::new();
    // c depends on b, b depends on a → order: a, b, c
    compiler
        .register_patches("a.yaml", vec![make_patch("a.yaml", "a", vec![])])
        .unwrap();
    compiler
        .register_patches(
            "b.yaml",
            vec![make_patch(
                "b.yaml",
                "b",
                vec![DependencyRef::FileName("a.yaml".into())],
            )],
        )
        .unwrap();
    compiler
        .register_patches(
            "c.yaml",
            vec![make_patch(
                "c.yaml",
                "c",
                vec![DependencyRef::FileName("b.yaml".into())],
            )],
        )
        .unwrap();

    let sorted = compiler.resolve_dependencies().unwrap();
    assert_eq!(sorted.len(), 3);
    let a_id = compiler.get_file_patches("a.yaml").unwrap()[0].id.clone();
    let b_id = compiler.get_file_patches("b.yaml").unwrap()[0].id.clone();
    let c_id = compiler.get_file_patches("c.yaml").unwrap()[0].id.clone();

    let pos_a = sorted.iter().position(|id| *id == a_id).unwrap();
    let pos_b = sorted.iter().position(|id| *id == b_id).unwrap();
    let pos_c = sorted.iter().position(|id| *id == c_id).unwrap();
    assert!(pos_a < pos_b);
    assert!(pos_b < pos_c);
}

#[test]
fn test_resolve_diamond_dependency() {
    // d depends on b and c, b depends on a, c depends on a
    // Valid order: a, b, c, d (or a, c, b, d)
    let mut compiler = PatchCompiler::new();
    compiler
        .register_patches("a.yaml", vec![make_patch("a.yaml", "a", vec![])])
        .unwrap();
    compiler
        .register_patches(
            "b.yaml",
            vec![make_patch(
                "b.yaml",
                "b",
                vec![DependencyRef::FileName("a.yaml".into())],
            )],
        )
        .unwrap();
    compiler
        .register_patches(
            "c.yaml",
            vec![make_patch(
                "c.yaml",
                "c",
                vec![DependencyRef::FileName("a.yaml".into())],
            )],
        )
        .unwrap();
    compiler
        .register_patches(
            "d.yaml",
            vec![make_patch(
                "d.yaml",
                "d",
                vec![
                    DependencyRef::FileName("b.yaml".into()),
                    DependencyRef::FileName("c.yaml".into()),
                ],
            )],
        )
        .unwrap();

    let sorted = compiler.resolve_dependencies().unwrap();
    assert_eq!(sorted.len(), 4);
    let a_id = compiler.get_file_patches("a.yaml").unwrap()[0].id.clone();
    let d_id = compiler.get_file_patches("d.yaml").unwrap()[0].id.clone();
    let pos_a = sorted.iter().position(|id| *id == a_id).unwrap();
    let pos_d = sorted.iter().position(|id| *id == d_id).unwrap();
    assert!(pos_a < pos_d);
}

// ─── 循环依赖检测 ───

#[test]
fn test_circular_dependency_two_nodes() {
    let mut compiler = PatchCompiler::new();
    compiler
        .register_patches(
            "a.yaml",
            vec![make_patch(
                "a.yaml",
                "a",
                vec![DependencyRef::FileName("b.yaml".into())],
            )],
        )
        .unwrap();
    compiler
        .register_patches(
            "b.yaml",
            vec![make_patch(
                "b.yaml",
                "b",
                vec![DependencyRef::FileName("a.yaml".into())],
            )],
        )
        .unwrap();

    let result = compiler.resolve_dependencies();
    assert!(result.is_err());
    let err_msg = result.unwrap_err().message();
    assert!(
        err_msg.contains("循环依赖"),
        "错误信息应包含'循环依赖': {}",
        err_msg
    );
}

#[test]
fn test_circular_dependency_three_nodes() {
    let mut compiler = PatchCompiler::new();
    // a → b → c → a
    compiler
        .register_patches(
            "a.yaml",
            vec![make_patch(
                "a.yaml",
                "a",
                vec![DependencyRef::FileName("b.yaml".into())],
            )],
        )
        .unwrap();
    compiler
        .register_patches(
            "b.yaml",
            vec![make_patch(
                "b.yaml",
                "b",
                vec![DependencyRef::FileName("c.yaml".into())],
            )],
        )
        .unwrap();
    compiler
        .register_patches(
            "c.yaml",
            vec![make_patch(
                "c.yaml",
                "c",
                vec![DependencyRef::FileName("a.yaml".into())],
            )],
        )
        .unwrap();

    let result = compiler.resolve_dependencies();
    assert!(result.is_err());
}

// ─── 自依赖检测 ───

#[test]
fn test_self_dependency() {
    let mut compiler = PatchCompiler::new();
    compiler
        .register_patches(
            "a.yaml",
            vec![make_patch(
                "a.yaml",
                "a",
                vec![DependencyRef::FileName("a.yaml".into())],
            )],
        )
        .unwrap();

    let result = compiler.resolve_dependencies();
    assert!(result.is_err());
    let err_msg = result.unwrap_err().message();
    assert!(
        err_msg.contains("循环依赖"),
        "自依赖应报告为循环依赖: {}",
        err_msg
    );
}

// ─── 依赖不存在 ───

#[test]
fn test_dependency_not_found() {
    let mut compiler = PatchCompiler::new();
    compiler
        .register_patches(
            "a.yaml",
            vec![make_patch(
                "a.yaml",
                "a",
                vec![DependencyRef::FileName("nonexistent.yaml".into())],
            )],
        )
        .unwrap();

    let result = compiler.resolve_dependencies();
    assert!(result.is_err());
    let err_msg = result.unwrap_err().message();
    assert!(
        err_msg.contains("nonexistent"),
        "错误信息应包含不存在的依赖名: {}",
        err_msg
    );
}

// ─── __after__ 短名称（不带 .prism.yaml 后缀）───

#[test]
fn test_after_short_name_without_extension() {
    let mut compiler = PatchCompiler::new();
    compiler
        .register_patches(
            "00-base-dns.prism.yaml",
            vec![make_patch("00-base-dns.prism.yaml", "dns", vec![])],
        )
        .unwrap();
    compiler
        .register_patches(
            "01-override.prism.yaml",
            vec![make_patch(
                "01-override.prism.yaml",
                "dns",
                vec![
                    DependencyRef::FileName("00-base-dns".into()), // 短名称
                ],
            )],
        )
        .unwrap();

    let sorted = compiler.resolve_dependencies().unwrap();
    assert_eq!(sorted.len(), 2);
    let base_id = compiler.get_file_patches("00-base-dns.prism.yaml").unwrap()[0]
        .id
        .clone();
    let override_id = compiler.get_file_patches("01-override.prism.yaml").unwrap()[0]
        .id
        .clone();
    let pos_base = sorted.iter().position(|id| *id == base_id).unwrap();
    let pos_override = sorted.iter().position(|id| *id == override_id).unwrap();
    assert!(pos_base < pos_override);
}

#[test]
fn test_after_short_name_strip_prism_yml() {
    let mut compiler = PatchCompiler::new();
    compiler
        .register_patches(
            "base.prism.yml",
            vec![make_patch("base.prism.yml", "dns", vec![])],
        )
        .unwrap();
    compiler
        .register_patches(
            "child.yaml",
            vec![make_patch(
                "child.yaml",
                "dns",
                vec![
                    DependencyRef::FileName("base".into()), // 去掉 .prism.yml 后缀
                ],
            )],
        )
        .unwrap();

    let sorted = compiler.resolve_dependencies().unwrap();
    assert_eq!(sorted.len(), 2);
}

// ─── __after__ 数组形式 ───

#[test]
fn test_after_array_form() {
    let mut compiler = PatchCompiler::new();
    compiler
        .register_patches("a.yaml", vec![make_patch("a.yaml", "a", vec![])])
        .unwrap();
    compiler
        .register_patches("b.yaml", vec![make_patch("b.yaml", "b", vec![])])
        .unwrap();
    compiler
        .register_patches(
            "c.yaml",
            vec![make_patch(
                "c.yaml",
                "c",
                vec![
                    DependencyRef::FileName("a.yaml".into()),
                    DependencyRef::FileName("b.yaml".into()),
                ],
            )],
        )
        .unwrap();

    let sorted = compiler.resolve_dependencies().unwrap();
    let a_id = compiler.get_file_patches("a.yaml").unwrap()[0].id.clone();
    let b_id = compiler.get_file_patches("b.yaml").unwrap()[0].id.clone();
    let c_id = compiler.get_file_patches("c.yaml").unwrap()[0].id.clone();
    let pos_a = sorted.iter().position(|id| *id == a_id).unwrap();
    let pos_b = sorted.iter().position(|id| *id == b_id).unwrap();
    let pos_c = sorted.iter().position(|id| *id == c_id).unwrap();
    assert!(pos_a < pos_c);
    assert!(pos_b < pos_c);
}

// ─── 同优先级按文件名字典序 ───

#[test]
fn test_same_priority_sorted_lexicographically() {
    let mut compiler = PatchCompiler::new();
    compiler
        .register_patches("zzz.yaml", vec![make_patch("zzz.yaml", "z", vec![])])
        .unwrap();
    compiler
        .register_patches("aaa.yaml", vec![make_patch("aaa.yaml", "a", vec![])])
        .unwrap();
    compiler
        .register_patches("mmm.yaml", vec![make_patch("mmm.yaml", "m", vec![])])
        .unwrap();

    let sorted = compiler.resolve_dependencies().unwrap();
    let aaa_id = &compiler.get_file_patches("aaa.yaml").unwrap()[0].id;
    let mmm_id = &compiler.get_file_patches("mmm.yaml").unwrap()[0].id;
    let zzz_id = &compiler.get_file_patches("zzz.yaml").unwrap()[0].id;
    assert_eq!(&sorted[0], aaa_id);
    assert_eq!(&sorted[1], mmm_id);
    assert_eq!(&sorted[2], zzz_id);
}

// ─── ConditionPrecompiler::compile_when ───

#[test]
fn test_compile_when_core_field() {
    let mut when = serde_yml::Mapping::new();
    when.insert(
        serde_yml::Value::String("core".into()),
        serde_yml::Value::String("mihomo".into()),
    );
    let scope = compile_when(&when).unwrap();
    match scope {
        Scope::Scoped { core, .. } => {
            assert_eq!(core.as_deref(), Some("mihomo"));
        }
        _ => panic!("Expected Scoped scope"),
    }
}

#[test]
fn test_compile_when_platform_invalid_string() {
    let mut when = serde_yml::Mapping::new();
    when.insert(
        serde_yml::Value::String("platform".into()),
        serde_yml::Value::String("freebsd".into()),
    );
    // "freebsd" is not a valid platform → error
    let result = compile_when(&when);
    assert!(result.is_err());
}

#[test]
fn test_compile_when_platform_valid() {
    let mut when = serde_yml::Mapping::new();
    when.insert(
        serde_yml::Value::String("platform".into()),
        serde_yml::Value::String("macos".into()),
    );
    let scope = compile_when(&when).unwrap();
    match scope {
        Scope::Scoped { platform, .. } => {
            assert_eq!(platform.as_deref(), Some(&[Platform::MacOS][..]));
        }
        _ => panic!("Expected Scoped scope"),
    }
}

#[test]
fn test_compile_when_platform_array() {
    let mut when = serde_yml::Mapping::new();
    when.insert(
        serde_yml::Value::String("platform".into()),
        serde_yml::Value::Sequence(vec![
            serde_yml::Value::String("windows".into()),
            serde_yml::Value::String("linux".into()),
        ]),
    );
    let scope = compile_when(&when).unwrap();
    match scope {
        Scope::Scoped { platform, .. } => {
            let plats = platform.unwrap();
            assert_eq!(plats.len(), 2);
            assert!(plats.contains(&Platform::Windows));
            assert!(plats.contains(&Platform::Linux));
        }
        _ => panic!("Expected Scoped scope"),
    }
}

#[test]
fn test_compile_when_profile() {
    let mut when = serde_yml::Mapping::new();
    when.insert(
        serde_yml::Value::String("profile".into()),
        serde_yml::Value::String("work".into()),
    );
    let scope = compile_when(&when).unwrap();
    match scope {
        Scope::Scoped { profile, .. } => {
            assert_eq!(profile.as_deref(), Some("work"));
        }
        _ => panic!("Expected Scoped scope"),
    }
}

#[test]
fn test_compile_when_time_valid() {
    let mut when = serde_yml::Mapping::new();
    when.insert(
        serde_yml::Value::String("time".into()),
        serde_yml::Value::String("09:00-17:00".into()),
    );
    let scope = compile_when(&when).unwrap();
    match scope {
        Scope::Scoped { time_range, .. } => {
            let tr = time_range.unwrap();
            assert_eq!(tr.start, (9, 0));
            assert_eq!(tr.end, (17, 0));
        }
        _ => panic!("Expected Scoped scope"),
    }
}

#[test]
fn test_compile_when_time_invalid_format() {
    let mut when = serde_yml::Mapping::new();
    when.insert(
        serde_yml::Value::String("time".into()),
        serde_yml::Value::String("not-a-time".into()),
    );
    let result = compile_when(&when);
    assert!(result.is_err());
}

#[test]
fn test_compile_when_enabled_bool() {
    let mut when = serde_yml::Mapping::new();
    when.insert(
        serde_yml::Value::String("enabled".into()),
        serde_yml::Value::Bool(false),
    );
    let scope = compile_when(&when).unwrap();
    match scope {
        Scope::Scoped { enabled, .. } => {
            assert_eq!(enabled, Some(false));
        }
        _ => panic!("Expected Scoped scope"),
    }
}

#[test]
fn test_compile_when_enabled_string_warns_not_errors() {
    let mut when = serde_yml::Mapping::new();
    // enabled as string "true" — should not error, just warn
    when.insert(
        serde_yml::Value::String("enabled".into()),
        serde_yml::Value::String("true".into()),
    );
    let scope = compile_when(&when);
    // Should succeed (string enabled is warned, not errored)
    assert!(scope.is_ok());
    match scope.unwrap() {
        Scope::Scoped { enabled, .. } => {
            // enabled should be None since string was not a bool
            assert!(enabled.is_none());
        }
        _ => panic!("Expected Scoped scope"),
    }
}

#[test]
fn test_compile_when_ssid() {
    let mut when = serde_yml::Mapping::new();
    when.insert(
        serde_yml::Value::String("ssid".into()),
        serde_yml::Value::String("HomeWiFi".into()),
    );
    let scope = compile_when(&when).unwrap();
    match scope {
        Scope::Scoped { ssid, .. } => {
            assert_eq!(ssid.as_deref(), Some("HomeWiFi"));
        }
        _ => panic!("Expected Scoped scope"),
    }
}

#[test]
fn test_compile_when_empty_mapping() {
    let when = serde_yml::Mapping::new();
    let scope = compile_when(&when).unwrap();
    match scope {
        Scope::Scoped {
            profile,
            platform,
            core,
            time_range,
            enabled,
            ssid,
        } => {
            assert!(profile.is_none());
            assert!(platform.is_none());
            assert!(core.is_none());
            assert!(time_range.is_none());
            assert!(enabled.is_none());
            assert!(ssid.is_none());
        }
        _ => panic!("Expected Scoped scope"),
    }
}

#[test]
fn test_compile_when_platform_invalid_value() {
    let mut when = serde_yml::Mapping::new();
    when.insert(
        serde_yml::Value::String("platform".into()),
        serde_yml::Value::String("freebsd".into()),
    );
    let result = compile_when(&when);
    assert!(result.is_err());
    let err_msg = result.unwrap_err().message();
    assert!(err_msg.contains("Unsupported platform"));
}

#[test]
fn test_compile_when_platform_wrong_type() {
    let mut when = serde_yml::Mapping::new();
    when.insert(
        serde_yml::Value::String("platform".into()),
        serde_yml::Value::Number(42.into()),
    );
    let result = compile_when(&when);
    assert!(result.is_err());
}

// ─── parse_platform 辅助函数 ───

#[test]
fn test_parse_platform_aliases() {
    assert_eq!(parse_platform("windows").unwrap(), Platform::Windows);
    assert_eq!(parse_platform("win").unwrap(), Platform::Windows);
    assert_eq!(parse_platform("macos").unwrap(), Platform::MacOS);
    assert_eq!(parse_platform("mac").unwrap(), Platform::MacOS);
    assert_eq!(parse_platform("linux").unwrap(), Platform::Linux);
    assert_eq!(parse_platform("lin").unwrap(), Platform::Linux);
}

#[test]
fn test_parse_platform_case_insensitive() {
    assert_eq!(parse_platform("Windows").unwrap(), Platform::Windows);
    assert_eq!(parse_platform("MACOS").unwrap(), Platform::MacOS);
    assert_eq!(parse_platform("LiNuX").unwrap(), Platform::Linux);
}

// ─── 空编译器 resolve ───

#[test]
fn test_resolve_empty_compiler() {
    let compiler = PatchCompiler::new();
    let sorted = compiler.resolve_dependencies().unwrap();
    assert!(sorted.is_empty());
}

// ─── 同文件多 patch ───

#[test]
fn test_multiple_patches_same_file() {
    let mut compiler = PatchCompiler::new();
    compiler
        .register_patches(
            "multi.yaml",
            vec![
                make_patch("multi.yaml", "dns", vec![]),
                make_patch("multi.yaml", "rules", vec![]),
            ],
        )
        .unwrap();
    let sorted = compiler.resolve_dependencies().unwrap();
    assert_eq!(sorted.len(), 2);
}

// ─── 短名称歧义检测 ───

#[test]
fn test_short_name_no_ambiguity_same_file() {
    // 完整文件名 == 短名称（无 .prism.yaml 后缀）不应触发歧义错误
    let mut compiler = PatchCompiler::new();
    compiler
        .register_patches("a.yaml", vec![make_patch("a.yaml", "a", vec![])])
        .unwrap();
    compiler
        .register_patches("b.yaml", vec![make_patch("b.yaml", "b", vec![])])
        .unwrap();
    let sorted = compiler.resolve_dependencies().unwrap();
    assert_eq!(sorted.len(), 2);
}

#[test]
fn test_short_name_ambiguity_different_files() {
    // 两个不同文件去掉后缀后产生相同短名称 → 应报错
    // register_patches 本身不检查歧义，歧义在 resolve_dependencies 中检测
    let mut compiler = PatchCompiler::new();
    compiler
        .register_patches(
            "foo.prism.yaml",
            vec![make_patch("foo.prism.yaml", "a", vec![])],
        )
        .unwrap();
    compiler
        .register_patches(
            "foo.prism.yml",
            vec![make_patch("foo.prism.yml", "b", vec![])],
        )
        .unwrap();
    let result = compiler.resolve_dependencies();
    assert!(result.is_err());
    assert!(result.unwrap_err().message().contains("歧义"));
}
