//! Deterministic serialisation.

use clash_prism_core::serial::{
    config_content_hash, deterministic_serialize, deterministic_serialize_compact,
    sort_keys_recursive,
};
use clash_prism_core::number::{read_number, to_json_number, Number};
use clash_prism_core::value::{Document, Object};

/// The document that a JSON text denotes.
fn json(text: &str) -> serde_json::Value {
    serde_json::from_str(text).unwrap()
}

/// The same document for the library.
fn lib(v: &serde_json::Value) -> Document {
    match v {
        serde_json::Value::Null => Document::Null,
        serde_json::Value::Bool(b) => Document::Bool(*b),
        serde_json::Value::Number(n) => {
            if let Some(i) = n.as_i64() {
                Document::Number(Number::Int(i))
            } else if let Some(u) = n.as_u64() {
                Document::Number(Number::UInt(u))
            } else {
                let text: Vec<char> = n.to_string().chars().collect();
                Document::Number(to_json_number(read_number(&text).unwrap()))
            }
        }
        serde_json::Value::String(s) => Document::String(s.clone()),
        serde_json::Value::Array(items) => Document::Array(items.iter().map(lib).collect()),
        serde_json::Value::Object(map) => {
            let mut out = Object::new();
            for (k, v) in map {
                out.insert(k.clone(), lib(v));
            }
            Document::Object(out)
        }
    }
}

#[test]
fn test_deterministic_serialize_stable() {
    let a = json(r#"{"z": 1, "a": 2, "m": {"x": 3, "w": 4}}"#);
    let b = json(r#"{"a": 2, "m": {"w": 4, "x": 3}, "z": 1}"#);
    assert_eq!(deterministic_serialize(&lib(&a)), deterministic_serialize(&lib(&b)));
}

#[test]
fn test_deterministic_serialize_compact_stable() {
    let a = json(r#"{"z": 1, "a": 2, "m": {"x": 3, "w": 4}}"#);
    let b = json(r#"{"a": 2, "m": {"w": 4, "x": 3}, "z": 1}"#);
    assert_eq!(
        deterministic_serialize_compact(&lib(&a)),
        deterministic_serialize_compact(&lib(&b))
    );
}

#[test]
fn test_deterministic_serialize_key_order() {
    let value = json(r#"{"z": 1, "a": 2, "m": 3}"#);
    let result = deterministic_serialize_compact(&lib(&value));
    // key 应按 a, m, z 排序
    assert!(result.starts_with(r#"{"a":2,"m":3,"z":1}"#));
}

#[test]
fn test_config_content_hash_deterministic() {
    let a = json(r#"{"z": 1, "a": 2}"#);
    let b = json(r#"{"a": 2, "z": 1}"#);
    assert_eq!(config_content_hash(&lib(&a)), config_content_hash(&lib(&b)));
}

#[test]
fn test_config_content_hash_different_values() {
    let a = json(r#"{"a": 1}"#);
    let b = json(r#"{"a": 2}"#);
    assert_ne!(config_content_hash(&lib(&a)), config_content_hash(&lib(&b)));
}

#[test]
fn test_sort_keys_recursive_nested() {
    let mut value =
        lib(&json(r#"{ "outer_c": {"inner_z": 1, "inner_a": 2}, "outer_a": [{"z": 3, "a": 4}] }"#));
    sort_keys_recursive(&mut value);

    let result = deterministic_serialize_compact(&value);
    // 外层 key: outer_a, outer_c
    // inner key: inner_a, inner_z
    // array element key: a, z
    assert_eq!(
        result,
        r#"{"outer_a":[{"a":4,"z":3}],"outer_c":{"inner_a":2,"inner_z":1}}"#
    );
}

#[test]
fn test_sort_keys_recursive_primitive_types() {
    // 非对象/数组类型不应被修改
    let mut num = Document::Number(Number::Int(42));
    sort_keys_recursive(&mut num);
    assert_eq!(num, Document::Number(Number::Int(42)));

    let mut s = Document::String("hello".into());
    sort_keys_recursive(&mut s);
    assert_eq!(s, Document::String("hello".into()));

    let mut b = Document::Bool(true);
    sort_keys_recursive(&mut b);
    assert_eq!(b, Document::Bool(true));

    let mut n = Document::Null;
    sort_keys_recursive(&mut n);
    assert_eq!(n, Document::Null);
}

#[test]
fn test_deterministic_serialize_empty() {
    let value = json(r#"{}"#);
    let result = deterministic_serialize_compact(&lib(&value));
    assert_eq!(result, "{}");
}

#[test]
fn test_deterministic_serialize_array() {
    let value = json(r#"[3, 1, 2]"#);
    let result = deterministic_serialize_compact(&lib(&value));
    assert_eq!(result, "[3,1,2]");
}
