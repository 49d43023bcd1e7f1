//! Patches and their parts.

use clash_prism_core::ir::{
    execution_order, is_runtime_field, is_static_field, CompiledPredicate, DependencyRef, Patch,
    PatchId, PatchOp, SubOp, RUNTIME_PROXY_FIELDS, STATIC_PROXY_FIELDS,
};
use clash_prism_core::json_text::to_json_text;
use clash_prism_core::number::{read_number, to_json_number, Number};
use clash_prism_core::scope::Scope;
use clash_prism_core::source::PatchSource;
use clash_prism_core::value::{Document, Object};
use std::collections::HashSet;

/// The document that a JSON text denotes.
fn json(text: &str) -> serde_json::Value {
    serde_json::from_str(text).unwrap()
}

/// The same document for the library.
fn lib(v: &serde_json::Value) -> Document {
    match v {
        serde_json::Value::Null => Document::Null,
        serde_json::Value::Bool(b) => Document::Bool(*b),
        serde_json::Value::Number(n) => {
            if let Some(i) = n.as_i64() {
                Document::Number(Number::Int(i))
            } else if let Some(u) = n.as_u64() {
                Document::Number(Number::UInt(u))
            } else {
                let text: Vec<char> = n.to_string().chars().collect();
                Document::Number(to_json_number(read_number(&text).unwrap()))
            }
        }
        serde_json::Value::String(s) => Document::String(s.clone()),
        serde_json::Value::Array(items) => Document::Array(items.iter().map(lib).collect()),
        serde_json::Value::Object(map) => {
            let mut out = Object::new();
            for (k, v) in map {
                out.insert(k.clone(), lib(v));
            }
            Document::Object(out)
        }
    }
}

/// A document of the library as `serde_json` has it.
fn plain(v: &Document) -> serde_json::Value {
    serde_json::from_str(&to_json_text(v)).unwrap()
}

fn new_patch(
    source: PatchSource,
    scope: Scope,
    path: &str,
    op: PatchOp,
    value: serde_json::Value,
) -> Patch {
    Patch::new(source, scope, path, op, lib(&value))
}

fn test_source() -> PatchSource {
    PatchSource::builtin()
}

// ─── PatchId ───

#[test]
fn test_patch_id_new_generates_unique() {
    let id1 = PatchId::new();
    let id2 = PatchId::new();
    assert_ne!(id1, id2);
    // UUID v4 format: 8-4-4-4-12
    assert_eq!(id1.as_str().len(), 36);
    assert_eq!(id2.as_str().len(), 36);
}

#[test]
fn test_patch_id_from_identifier_simple() {
    let id = PatchId::from_identifier("my-patch");
    assert_eq!(id.as_str(), "my-patch");
}

#[test]
fn test_patch_id_from_identifier_uuid_format() {
    let uuid_str = "550e8400-e29b-41d4-a716-446655440000";
    let id = PatchId::from_identifier(uuid_str);
    assert_eq!(id.as_str(), uuid_str);
}

#[test]
fn test_patch_id_from_identifier_with_dots_warns() {
    // Contains dots — validate_format returns a warning but does not reject.
    // The debug_assert in from_identifier will panic in debug builds, so we
    // test validate_format directly here to verify the warning behavior.
    let result = PatchId::validate_format("some.path.here");
    assert!(result.is_err(), "dots should produce a validation warning");
}

#[test]
fn test_patch_id_display() {
    let id = PatchId::from_identifier("test-id");
    assert_eq!(id.as_str(), "test-id");
}

#[test]
fn test_patch_id_default() {
    let id = PatchId::default();
    assert_eq!(id.as_str().len(), 36); // UUID v4
}

#[test]
fn test_patch_id_equality() {
    let id1 = PatchId::from_identifier("same");
    let id2 = PatchId::from_identifier("same");
    assert_eq!(id1, id2);
}

#[test]
fn test_patch_id_ordering() {
    let id_a = PatchId::from_identifier("aaa");
    let id_b = PatchId::from_identifier("bbb");
    assert!(id_a < id_b);
}

// ─── Patch::new ───

#[test]
fn test_patch_new_basic() {
    let patch = new_patch(
        test_source(),
        Scope::Global,
        "dns",
        PatchOp::DeepMerge,
        json(r#"{"enable": true}"#),
    );
    assert_eq!(patch.path, "dns");
    assert!(patch.condition.is_none());
    assert!(patch.after.is_empty());
    assert!(patch.sub_ops.is_empty());
    assert!(!patch.is_composite());
}

#[test]
fn test_patch_new_generates_unique_id() {
    let p1 = new_patch(
        test_source(),
        Scope::Global,
        "a",
        PatchOp::DeepMerge,
        json(r#"{}"#),
    );
    let p2 = new_patch(
        test_source(),
        Scope::Global,
        "a",
        PatchOp::DeepMerge,
        json(r#"{}"#),
    );
    assert_ne!(p1.id, p2.id);
}

// ─── Builder chain ───

#[test]
fn test_patch_with_condition() {
    let cond = CompiledPredicate::new("true", vec![]);
    let patch = new_patch(
        test_source(),
        Scope::Global,
        "dns",
        PatchOp::DeepMerge,
        json(r#"{}"#),
    )
    .with_condition(cond.clone());
    assert!(patch.condition.is_some());
    assert_eq!(patch.condition.as_ref().unwrap().expr, "true");
}

#[test]
fn test_patch_with_after() {
    let patch = new_patch(
        test_source(),
        Scope::Global,
        "dns",
        PatchOp::DeepMerge,
        json(r#"{}"#),
    )
    .with_after(DependencyRef::FileName("base.yaml".into()));
    assert_eq!(patch.after.len(), 1);
}

#[test]
fn test_patch_with_deps() {
    let deps = vec![
        DependencyRef::FileName("a.yaml".into()),
        DependencyRef::FileName("b.yaml".into()),
    ];
    let patch = new_patch(
        test_source(),
        Scope::Global,
        "dns",
        PatchOp::DeepMerge,
        json(r#"{}"#),
    )
    .with_deps(deps);
    assert_eq!(patch.after.len(), 2);
}

#[test]
fn test_patch_with_sub_ops() {
    let sub_ops = vec![
        SubOp {
            op: PatchOp::Filter {
                expr: CompiledPredicate::constant(true),
            },
            value: Document::Null,
        },
        SubOp {
            op: PatchOp::Prepend,
            value: lib(&json(r#"[1, 2]"#)),
        },
    ];
    let patch = new_patch(
        test_source(),
        Scope::Global,
        "proxies",
        PatchOp::DeepMerge,
        json(r#"{}"#),
    )
    .with_sub_ops(sub_ops)
    .unwrap();
    assert!(patch.is_composite());
    assert_eq!(patch.sub_ops.len(), 2);
}

// ─── is_composite ───

#[test]
fn test_is_composite_true() {
    let patch = new_patch(
        test_source(),
        Scope::Global,
        "p",
        PatchOp::DeepMerge,
        json(r#"{}"#),
    )
    .with_sub_ops(vec![SubOp {
        op: PatchOp::Prepend,
        value: lib(&json(r#"[1]"#)),
    }])
    .unwrap();
    assert!(patch.is_composite());
}

#[test]
fn test_is_composite_false() {
    let patch = new_patch(
        test_source(),
        Scope::Global,
        "p",
        PatchOp::DeepMerge,
        json(r#"{}"#),
    );
    assert!(!patch.is_composite());
}

// ─── all_ops ───

#[test]
fn test_all_ops_single_returns_primary() {
    let patch = new_patch(
        test_source(),
        Scope::Global,
        "dns",
        PatchOp::DeepMerge,
        json(r#"{"a": 1}"#),
    );
    let ops = patch.all_ops();
    assert_eq!(ops.len(), 1);
    assert_eq!(ops[0].op, PatchOp::DeepMerge);
    assert_eq!(plain(&ops[0].value), json(r#"{"a": 1}"#));
}

#[test]
fn test_all_ops_composite_sorted_order() {
    // Sub ops should be sorted by execution_order:
    // Filter(0) → Remove(1) → Transform(2) → SetDefault(3) → Prepend(4) → Append(5) → DeepMerge(6) → Override(7)
    let sub_ops = vec![
        SubOp {
            op: PatchOp::Append,
            value: lib(&json(r#"[3]"#)),
        },
        SubOp {
            op: PatchOp::Filter {
                expr: CompiledPredicate::constant(true),
            },
            value: Document::Null,
        },
        SubOp {
            op: PatchOp::Prepend,
            value: lib(&json(r#"[1]"#)),
        },
    ];
    let patch = new_patch(
        test_source(),
        Scope::Global,
        "proxies",
        PatchOp::DeepMerge,
        json(r#"{}"#),
    )
    .with_sub_ops(sub_ops)
    .unwrap();
    let ops = patch.all_ops();
    assert_eq!(ops.len(), 3);
    assert_eq!(ops[0].op.display_name(), "Filter");
    assert_eq!(ops[1].op.display_name(), "Prepend");
    assert_eq!(ops[2].op.display_name(), "Append");
}

#[test]
fn test_all_ops_full_execution_order() {
    // Override is exclusive — test non-override ops together
    let sub_ops = vec![
        SubOp {
            op: PatchOp::DeepMerge,
            value: lib(&json(r#"{}"#)),
        },
        SubOp {
            op: PatchOp::Append,
            value: lib(&json(r#"[]"#)),
        },
        SubOp {
            op: PatchOp::Prepend,
            value: lib(&json(r#"[]"#)),
        },
        SubOp {
            op: PatchOp::SetDefault,
            value: lib(&json(r#"null"#)),
        },
        SubOp {
            op: PatchOp::Transform {
                expr: CompiledPredicate::constant(true),
            },
            value: Document::Null,
        },
        SubOp {
            op: PatchOp::Remove {
                expr: CompiledPredicate::constant(true),
            },
            value: Document::Null,
        },
        SubOp {
            op: PatchOp::Filter {
                expr: CompiledPredicate::constant(true),
            },
            value: Document::Null,
        },
    ];
    let patch = new_patch(
        test_source(),
        Scope::Global,
        "p",
        PatchOp::DeepMerge,
        json(r#"{}"#),
    )
    .with_sub_ops(sub_ops)
    .unwrap();
    let ops = patch.all_ops();
    let names: Vec<&str> = ops.iter().map(|o| o.op.display_name()).collect();
    assert_eq!(
        names,
        vec![
            "Filter",
            "Remove",
            "Transform",
            "SetDefault",
            "Prepend",
            "Append",
            "DeepMerge"
        ]
    );
}

#[test]
fn test_all_ops_override_execution_order() {
    // Override alone should work (single sub-op)
    let sub_ops = vec![SubOp {
        op: PatchOp::Override,
        value: lib(&json(r#"{}"#)),
    }];
    let patch = new_patch(
        test_source(),
        Scope::Global,
        "p",
        PatchOp::Override,
        json(r#"{}"#),
    )
    .with_sub_ops(sub_ops)
    .unwrap();
    let ops = patch.all_ops();
    assert_eq!(ops.len(), 1);
    assert_eq!(ops[0].op.display_name(), "Override");
}

#[test]
fn test_with_sub_ops_override_conflict_returns_err() {
    // $override mixed with other ops should return Err
    let sub_ops = vec![
        SubOp {
            op: PatchOp::Override,
            value: lib(&json(r#"{}"#)),
        },
        SubOp {
            op: PatchOp::DeepMerge,
            value: lib(&json(r#"{}"#)),
        },
    ];
    let result = new_patch(
        test_source(),
        Scope::Global,
        "p",
        PatchOp::DeepMerge,
        json(r#"{}"#),
    )
    .with_sub_ops(sub_ops);
    assert!(result.is_err(), "should return Err for override conflict");
    let err = result.unwrap_err().message();
    assert!(
        err.contains("override") || err.contains("Override"),
        "error should mention override: {}",
        err
    );
}

// ─── PatchOp::display_name ───

#[test]
fn test_display_name_all_variants() {
    assert_eq!(PatchOp::DeepMerge.display_name(), "DeepMerge");
    assert_eq!(PatchOp::Override.display_name(), "Override");
    assert_eq!(PatchOp::Prepend.display_name(), "Prepend");
    assert_eq!(PatchOp::Append.display_name(), "Append");
    assert_eq!(
        PatchOp::Filter {
            expr: CompiledPredicate::constant(true)
        }
        .display_name(),
        "Filter"
    );
    assert_eq!(
        PatchOp::Transform {
            expr: CompiledPredicate::constant(true)
        }
        .display_name(),
        "Transform"
    );
    assert_eq!(
        PatchOp::Remove {
            expr: CompiledPredicate::constant(true)
        }
        .display_name(),
        "Remove"
    );
    assert_eq!(PatchOp::SetDefault.display_name(), "SetDefault");
}

// ─── PatchOp::is_array_op / is_map_op ───

#[test]
fn test_is_array_op() {
    assert!(PatchOp::Prepend.is_array_op());
    assert!(PatchOp::Append.is_array_op());
    assert!(
        PatchOp::Filter {
            expr: CompiledPredicate::constant(true)
        }
        .is_array_op()
    );
    assert!(
        PatchOp::Transform {
            expr: CompiledPredicate::constant(true)
        }
        .is_array_op()
    );
    assert!(
        PatchOp::Remove {
            expr: CompiledPredicate::constant(true)
        }
        .is_array_op()
    );
    assert!(!PatchOp::DeepMerge.is_array_op());
    assert!(!PatchOp::Override.is_array_op());
    assert!(!PatchOp::SetDefault.is_array_op());
}

#[test]
fn test_is_map_op() {
    assert!(PatchOp::DeepMerge.is_map_op());
    assert!(PatchOp::Override.is_map_op());
    assert!(PatchOp::SetDefault.is_map_op());
    assert!(!PatchOp::Prepend.is_map_op());
    assert!(!PatchOp::Append.is_map_op());
    assert!(
        !PatchOp::Filter {
            expr: CompiledPredicate::constant(true)
        }
        .is_map_op()
    );
    assert!(
        !PatchOp::Transform {
            expr: CompiledPredicate::constant(true)
        }
        .is_map_op()
    );
    assert!(
        !PatchOp::Remove {
            expr: CompiledPredicate::constant(true)
        }
        .is_map_op()
    );
}

// ─── is_runtime_field / is_static_field ───

#[test]
fn test_is_runtime_field() {
    assert!(is_runtime_field("delay"));
    assert!(is_runtime_field("latency"));
    assert!(is_runtime_field("speed"));
    assert!(is_runtime_field("loss_rate"));
    assert!(is_runtime_field("success_rate"));
    assert!(is_runtime_field("history"));
    assert!(is_runtime_field("alive"));
    assert!(is_runtime_field("last_test"));
    assert!(!is_runtime_field("name"));
    assert!(!is_runtime_field("type"));
    assert!(!is_runtime_field("server"));
}

#[test]
fn test_is_static_field() {
    assert!(is_static_field("name"));
    assert!(is_static_field("type"));
    assert!(is_static_field("server"));
    assert!(is_static_field("port"));
    assert!(is_static_field("uuid"));
    assert!(is_static_field("tls"));
    // "delay" is a runtime field, NOT a static field
    assert!(!is_static_field("delay"));
    assert!(!is_static_field("latency"));
    assert!(!is_static_field("speed"));
}

#[test]
fn test_static_and_runtime_are_disjoint() {
    // Verify no field appears in both lists
    for field in STATIC_PROXY_FIELDS {
        assert!(
            !RUNTIME_PROXY_FIELDS.contains(&field),
            "Field '{}' appears in both static and runtime lists",
            field
        );
    }
}

// ─── execution_order ───

#[test]
fn test_execution_order_priorities() {
    assert_eq!(
        execution_order(&PatchOp::Filter {
            expr: CompiledPredicate::constant(true)
        }),
        0
    );
    assert_eq!(
        execution_order(&PatchOp::Remove {
            expr: CompiledPredicate::constant(true)
        }),
        1
    );
    assert_eq!(
        execution_order(&PatchOp::Transform {
            expr: CompiledPredicate::constant(true)
        }),
        2
    );
    assert_eq!(execution_order(&PatchOp::SetDefault), 3);
    assert_eq!(execution_order(&PatchOp::Prepend), 4);
    assert_eq!(execution_order(&PatchOp::Append), 5);
    assert_eq!(execution_order(&PatchOp::DeepMerge), 6);
    assert_eq!(execution_order(&PatchOp::Override), 7);
}

// ─── SubOp ───

#[test]
fn test_sub_op_construction() {
    let sub = SubOp {
        op: PatchOp::Prepend,
        value: lib(&json(r#"[{"name": "test"}]"#)),
    };
    assert_eq!(sub.op.display_name(), "Prepend");
    assert_eq!(sub.value.as_array().unwrap().len(), 1);
}

#[test]
fn test_sub_op_filter_value_is_null() {
    let sub = SubOp {
        op: PatchOp::Filter {
            expr: CompiledPredicate::new("type == 'ss'", vec!["type".into()]),
        },
        value: Document::Null,
    };
    assert!(sub.value.is_null());
    match sub.op {
        PatchOp::Filter { ref expr } => {
            assert_eq!(expr.expr, "type == 'ss'");
            assert_eq!(expr.referenced_fields, vec!["type"]);
        }
        _ => panic!("Expected Filter"),
    }
}

// ─── CompiledPredicate ───

#[test]
fn test_compiled_predicate_new() {
    let pred = CompiledPredicate::new("name == 'test'", vec!["name".into()]);
    assert_eq!(pred.expr, "name == 'test'");
    assert_eq!(pred.referenced_fields, vec!["name"]);
}

#[test]
fn test_compiled_predicate_constant_true() {
    let pred = CompiledPredicate::constant(true);
    assert_eq!(pred.expr, "true");
    assert!(pred.referenced_fields.is_empty());
}

#[test]
fn test_compiled_predicate_constant_false() {
    let pred = CompiledPredicate::constant(false);
    assert_eq!(pred.expr, "false");
}

// ─── DependencyRef ───

#[test]
fn test_dependency_ref_file_name() {
    let dep = DependencyRef::FileName("base.yaml".into());
    match dep {
        DependencyRef::FileName(name) => assert_eq!(name, "base.yaml"),
        DependencyRef::PatchId(_) => panic!("Expected FileName"),
    }
}

#[test]
fn test_dependency_ref_patch_id() {
    let pid = PatchId::from_identifier("test-id");
    let dep = DependencyRef::PatchId(pid.clone());
    match dep {
        DependencyRef::PatchId(id) => assert_eq!(id, pid),
        DependencyRef::FileName(_) => panic!("Expected PatchId"),
    }
}

// ─── PatchId validate_format ───

#[test]
fn test_validate_format_valid_uuid() {
    // Should not panic or warn
    assert!(PatchId::validate_format("550e8400-e29b-41d4-a716-446655440000").is_ok());
}

#[test]
fn test_validate_format_valid_identifier() {
    assert!(PatchId::validate_format("my-simple-patch").is_ok());
}

#[test]
fn test_validate_format_dots_warn() {
    // Contains dots — should return Err with warning message
    let result = PatchId::validate_format("path.with.dots");
    assert!(result.is_err());
    assert!(result.unwrap_err().contains('.'));
}

// ─── PatchId hash ───

#[test]
fn test_patch_id_hashable() {
    let id1 = PatchId::from_identifier("same");
    let id2 = PatchId::from_identifier("same");
    let mut set = HashSet::new();
    set.insert(id1);
    set.insert(id2);
    assert_eq!(set.len(), 1); // Same value → same hash
}
