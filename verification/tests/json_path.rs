//! Dotted paths.

use clash_prism_core::json_path::{
    get_array_at_path_mut, get_array_len, get_json_path, get_json_path_mut,
    get_or_create_json_path_mut, set_json_path,
};
use clash_prism_core::json_text::to_json_text;
use clash_prism_core::number::{read_number, to_json_number, Number};
use clash_prism_core::value::{Document, Object};

/// The document that a JSON text denotes.
fn value(text: &str) -> Document {
    let parsed: serde_json::Value = serde_json::from_str(text).unwrap();
    lib(&parsed)
}

/// The same document for the library.
fn lib(v: &serde_json::Value) -> Document {
    match v {
        serde_json::Value::Null => Document::Null,
        serde_json::Value::Bool(b) => Document::Bool(*b),
        serde_json::Value::Number(n) => {
            if let Some(i) = n.as_i64() {
                Document::Number(Number::Int(i))
            } else if let Some(u) = n.as_u64() {
                Document::Number(Number::UInt(u))
            } else {
                let text: Vec<char> = n.to_string().chars().collect();
                Document::Number(to_json_number(read_number(&text).unwrap()))
            }
        }
        serde_json::Value::String(s) => Document::String(s.clone()),
        serde_json::Value::Array(items) => Document::Array(items.iter().map(lib).collect()),
        serde_json::Value::Object(map) => {
            let mut out = Object::new();
            for (k, v) in map {
                out.insert(k.clone(), lib(v));
            }
            Document::Object(out)
        }
    }
}

/// A document of the library as `serde_json` has it.
fn plain(v: &Document) -> serde_json::Value {
    serde_json::from_str(&to_json_text(v)).unwrap()
}

// ─── get_json_path ───

#[test]
fn test_get_simple_key() {
    let config = value(r#"{"dns": {"enable": true}}"#);
    let result = get_json_path(&config, "dns");
    assert!(result.is_some());
    assert_eq!(plain(result.unwrap())["enable"], true);
}

#[test]
fn test_get_nested_path() {
    let config = value(r#"{"dns": {"nameservers": ["8.8.8.8", "1.1.1.1"]}}"#);
    let result = get_json_path(&config, "dns.nameservers");
    assert!(result.is_some());
    assert_eq!(result.unwrap().as_array().unwrap().len(), 2);
}

#[test]
fn test_get_array_index() {
    let config = value(r#"{"proxies": [{"name": "p1"}, {"name": "p2"}]}"#);
    let result = get_json_path(&config, "proxies.0");
    assert!(result.is_some());
    assert_eq!(plain(result.unwrap())["name"], "p1");
}

#[test]
fn test_get_array_index_out_of_bounds() {
    let config = value(r#"{"proxies": [{"name": "p1"}]}"#);
    let result = get_json_path(&config, "proxies.99");
    assert!(result.is_none());
}

#[test]
fn test_get_nonexistent_path() {
    let config = value(r#"{"dns": {}}"#);
    let result = get_json_path(&config, "dns.nonexistent.deep");
    assert!(result.is_none());
}

#[test]
fn test_get_empty_path_returns_root() {
    let config = value(r#"{"a": 1}"#);
    let result = get_json_path(&config, "");
    assert!(result.is_some());
    assert_eq!(plain(result.unwrap())["a"], 1);
}

#[test]
fn test_get_through_non_object_intermediate() {
    let config = value(r#"{"dns": "not-an-object"}"#);
    let result = get_json_path(&config, "dns.enable");
    assert!(result.is_none());
}

#[test]
fn test_get_deep_array_index() {
    let config = value(r#"{"items": [[1, 2], [3, 4]]}"#);
    let result = get_json_path(&config, "items.1.0");
    assert!(result.is_some());
    assert_eq!(plain(result.unwrap()), 3);
}

// ─── get_json_path_mut ───

#[test]
fn test_get_mut_modify_nested_value() {
    let mut config = value(r#"{"dns": {"enable": false}}"#);
    if let Some(target) = get_json_path_mut(&mut config, "dns.enable") {
        *target = value(r#"true"#);
    }
    assert_eq!(plain(&config)["dns"]["enable"], true);
}

#[test]
fn test_get_mut_nonexistent_returns_none() {
    let mut config = value(r#"{"dns": {}}"#);
    assert!(get_json_path_mut(&mut config, "dns.nonexistent").is_none());
}

#[test]
fn test_get_mut_empty_path() {
    let mut config = value(r#"{"a": 1}"#);
    let result = get_json_path_mut(&mut config, "");
    assert!(result.is_some());
    *result.unwrap() = value(r#"{"b": 2}"#);
    assert_eq!(plain(&config)["b"], 2);
}

// ─── get_or_create_json_path_mut ───

#[test]
fn test_get_or_create_creates_intermediate_objects() {
    let mut config = value(r#"{}"#);
    let target = get_or_create_json_path_mut(&mut config, "dns.nameservers");
    assert!(target.is_some());
    // Intermediate objects should be created
    assert!(config.get("dns").is_some());
}

#[test]
fn test_get_or_create_existing_path() {
    let mut config = value(r#"{"dns": {"enable": true}}"#);
    let target = get_or_create_json_path_mut(&mut config, "dns.enable");
    assert!(target.is_some());
    assert_eq!(target.unwrap(), &value(r#"true"#));
}

#[test]
fn test_get_or_create_returns_none_when_intermediate_is_scalar() {
    let mut config = value(r#"{"dns": "string-value"}"#);
    let result = get_or_create_json_path_mut(&mut config, "dns.enable");
    assert!(result.is_none());
}

#[test]
fn test_get_or_create_empty_path() {
    let mut config = value(r#"{"a": 1}"#);
    let result = get_or_create_json_path_mut(&mut config, "");
    assert!(result.is_some());
}

#[test]
fn test_get_or_create_returns_none_when_intermediate_is_array() {
    let mut config = value(r#"{"items": [1, 2, 3]}"#);
    let result = get_or_create_json_path_mut(&mut config, "items.key");
    assert!(result.is_none());
}

// ─── set_json_path ───

#[test]
fn test_set_single_key() {
    let mut config = value(r#"{}"#);
    set_json_path(&mut config, "dns", value(r#"{"enable": true}"#));
    assert_eq!(plain(&config)["dns"]["enable"], true);
}

#[test]
fn test_set_nested_path() {
    let mut config = value(r#"{}"#);
    set_json_path(&mut config, "dns.enable", value(r#"true"#));
    assert_eq!(plain(&config)["dns"]["enable"], true);
}

#[test]
fn test_set_deep_nested_creates_intermediates() {
    let mut config = value(r#"{}"#);
    set_json_path(&mut config, "a.b.c.d", value(r#"42"#));
    assert_eq!(plain(&config)["a"]["b"]["c"]["d"], 42);
}

#[test]
fn test_set_overwrites_existing() {
    let mut config = value(r#"{"dns": {"enable": false}}"#);
    set_json_path(&mut config, "dns.enable", value(r#"true"#));
    assert_eq!(plain(&config)["dns"]["enable"], true);
}

#[test]
fn test_set_on_non_object_root_noop() {
    let mut config = value(r#""not-an-object""#);
    set_json_path(&mut config, "key", value(r#"1"#));
    assert_eq!(plain(&config), "not-an-object");
}

#[test]
fn test_set_empty_path_noop() {
    let mut config = value(r#"{"a": 1}"#);
    set_json_path(&mut config, "", value(r#"2"#));
    assert_eq!(plain(&config)["a"], 1);
}

// ─── get_array_at_path_mut ───

#[test]
fn test_get_array_mut_on_array_field() {
    let mut config = value(r#"{"rules": ["a", "b", "c"]}"#);
    let result = get_array_at_path_mut(&mut config, "rules");
    assert!(result.is_some());
    let arr = result.unwrap();
    assert!(arr.is_array());
    assert_eq!(arr.as_array().unwrap().len(), 3);
}

#[test]
fn test_get_array_mut_on_non_array_returns_none() {
    let mut config = value(r#"{"dns": {"enable": true}}"#);
    let result = get_array_at_path_mut(&mut config, "dns.enable");
    assert!(result.is_none());
}

#[test]
fn test_get_array_mut_nonexistent_returns_none() {
    let mut config = value(r#"{}"#);
    let result = get_array_at_path_mut(&mut config, "missing");
    assert!(result.is_none());
}

#[test]
fn test_get_array_mut_can_modify() {
    let mut config = value(r#"{"items": [1, 2]}"#);
    if let Some(arr) = get_array_at_path_mut(&mut config, "items") {
        if let Document::Array(items) = arr {
            items.push(value(r#"3"#));
        }
    }
    assert_eq!(plain(&config)["items"].as_array().unwrap().len(), 3);
}

// ─── get_array_len ───

#[test]
fn test_get_array_len_correct_count() {
    let config = value(r#"{"rules": ["a", "b", "c", "d"]}"#);
    assert_eq!(get_array_len(&config, "rules"), 4);
}

#[test]
fn test_get_array_len_empty_array() {
    let config = value(r#"{"rules": []}"#);
    assert_eq!(get_array_len(&config, "rules"), 0);
}

#[test]
fn test_get_array_len_nonexistent_path() {
    let config = value(r#"{}"#);
    assert_eq!(get_array_len(&config, "missing"), 0);
}

#[test]
fn test_get_array_len_non_array_returns_zero() {
    let config = value(r#"{"dns": "string"}"#);
    assert_eq!(get_array_len(&config, "dns"), 0);
}

// ─── 边界情况 ───

#[test]
fn test_get_on_null_value() {
    let config = Document::Null;
    assert!(get_json_path(&config, "any").is_none());
}

#[test]
fn test_get_mut_on_null_value() {
    let mut config = Document::Null;
    assert!(get_json_path_mut(&mut config, "any").is_none());
}

#[test]
fn test_numeric_key_in_object() {
    let config = value(r#"{"0": "zero", "1": "one"}"#);
    // "0" is treated as object key, not array index
    let result = get_json_path(&config, "0");
    assert!(result.is_some());
    assert_eq!(plain(result.unwrap()), "zero");
}

#[test]
fn test_set_overwrites_array_with_object() {
    let mut config = value(r#"{"items": [1, 2]}"#);
    set_json_path(&mut config, "items", value(r#"{"key": "value"}"#));
    assert!(plain(&config)["items"].is_object());
    assert_eq!(plain(&config)["items"]["key"], "value");
}
