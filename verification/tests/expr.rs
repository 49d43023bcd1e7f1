//! Predicates and transformations.

use clash_prism_core::expr::ExprError;
use clash_prism_core::json_text::to_json_text;
use clash_prism_core::number::{read_number, to_json_number, Number};
use clash_prism_core::value::{Document, Object};

/// The document that a JSON text denotes.
fn json(text: &str) -> serde_json::Value {
    serde_json::from_str(text).unwrap()
}

/// The same document for the library.
fn lib(v: &serde_json::Value) -> Document {
    match v {
        serde_json::Value::Null => Document::Null,
        serde_json::Value::Bool(b) => Document::Bool(*b),
        serde_json::Value::Number(n) => {
            if let Some(i) = n.as_i64() {
                Document::Number(Number::Int(i))
            } else if let Some(u) = n.as_u64() {
                Document::Number(Number::UInt(u))
            } else {
                let text: Vec<char> = n.to_string().chars().collect();
                Document::Number(to_json_number(read_number(&text).unwrap()))
            }
        }
        serde_json::Value::String(s) => Document::String(s.clone()),
        serde_json::Value::Array(items) => Document::Array(items.iter().map(lib).collect()),
        serde_json::Value::Object(map) => {
            let mut out = Object::new();
            for (k, v) in map {
                out.insert(k.clone(), lib(v));
            }
            Document::Object(out)
        }
    }
}

/// A document of the library as `serde_json` has it.
fn plain(v: &Document) -> serde_json::Value {
    serde_json::from_str(&to_json_text(v)).unwrap()
}

fn evaluate_predicate(expr: &str, item: &serde_json::Value) -> Result<bool, ExprError> {
    clash_prism_core::predicate::evaluate_predicate(expr, &lib(item))
}

fn evaluate_transform_expr(
    expr: &str,
    item: &serde_json::Value,
) -> Result<serde_json::Value, ExprError> {
    clash_prism_core::transform::evaluate_transform_expr(expr, &lib(item)).map(|v| plain(&v))
}

#[test]
fn test_filter_equality() {
    let item = json(r#"{"type": "ss", "port": 8388}"#);
    assert!(evaluate_predicate("p.type == \"ss\"", &item).unwrap());
    assert!(!evaluate_predicate("p.type == \"vmess\"", &item).unwrap());
}

#[test]
fn test_filter_inequality() {
    let item = json(r#"{"type": "ss"}"#);
    assert!(evaluate_predicate("p.type != \"vmess\"", &item).unwrap());
    assert!(!evaluate_predicate("p.type != \"ss\"", &item).unwrap());
}

#[test]
fn test_filter_numeric_compare() {
    let item = json(r#"{"port": 8388}"#);
    assert!(evaluate_predicate("p.port > 1000", &item).unwrap());
    assert!(evaluate_predicate("p.port >= 8388", &item).unwrap());
    assert!(!evaluate_predicate("p.port < 1000", &item).unwrap());
    assert!(evaluate_predicate("p.port <= 9999", &item).unwrap());
}

#[test]
fn test_filter_includes() {
    let item = json(r#"{"name": "香港 IPLC 01"}"#);
    assert!(evaluate_predicate("p.name.includes(\"香港\")", &item).unwrap());
    assert!(!evaluate_predicate("p.name.includes(\"日本\")", &item).unwrap());
}

#[test]
fn test_filter_regex_match() {
    // 注意: "香港" 的第一个字是 "香"，所以 ^港 不匹配 "香港"
    // 这里使用正确的正则: ^香 匹配 "香港" 开头
    let item = json(r#"{"name": "香港01"}"#);
    assert!(evaluate_predicate("p.name.match(/^香/)", &item).unwrap());
    assert!(!evaluate_predicate("p.name.match(/^日/)", &item).unwrap());
}

#[test]
fn test_filter_boolean() {
    let item = json(r#"{"tls": true}"#);
    assert!(evaluate_predicate("p.tls == true", &item).unwrap());
    assert!(!evaluate_predicate("p.tls == false", &item).unwrap());
}

#[test]
fn test_filter_and_or() {
    let item = json(r#"{"type": "ss", "port": 8388, "tls": true}"#);
    // &&
    assert!(evaluate_predicate("(p.type == \"ss\") && (p.port > 1000)", &item).unwrap());
    assert!(!evaluate_predicate("(p.type == \"ss\") && (p.port < 1000)", &item).unwrap());
    // ||
    assert!(evaluate_predicate("(p.type == \"vmess\") || (p.tls == true)", &item).unwrap());
    assert!(!evaluate_predicate("(p.type == \"vmess\") || (p.tls == false)", &item).unwrap());
}

#[test]
fn test_filter_not() {
    let item = json(r#"{"type": "ss"}"#);
    assert!(evaluate_predicate("!(p.type == \"vmess\")", &item).unwrap());
    assert!(!evaluate_predicate("!(p.type == \"ss\")", &item).unwrap());
}

#[test]
fn test_transform_spread_rename() {
    let item =
        json(r#"{"name": "香港01", "type": "ss", "server": "hk.example.com", "port": 8388}"#);
    let result = evaluate_transform_expr("{...p, name: \"🇭🇰 \" + p.name}", &item).unwrap();
    assert_eq!(result["name"], "🇭🇰 香港01");
    // 其他字段保留
    assert_eq!(result["type"], "ss");
    assert_eq!(result["server"], "hk.example.com");
}

#[test]
fn test_transform_regex_replace() {
    // 注意: "香港" 的第一个字是 "香"，所以 ^港 不会匹配
    // 使用 ^香 来匹配开头，或者使用 香 来匹配任意位置
    let item = json(r#"{"name": "香港01", "type": "ss"}"#);
    let result =
        evaluate_transform_expr("{name: p.name.replace(/^香/,\"🇭🇰 \")}", &item).unwrap();
    assert_eq!(result["name"], "🇭🇰 港01");
}

#[test]
fn test_transform_add_field() {
    let item = json(r#"{"name": "test", "type": "ss"}"#);
    let result = evaluate_transform_expr("{...p, \"udp-support\": true}", &item).unwrap();
    assert_eq!(result["udp-support"], true);
    assert_eq!(result["name"], "test");
}

#[test]
fn test_transform_override_port() {
    let item = json(r#"{"name": "test", "port": 8080}"#);
    let result = evaluate_transform_expr("{...p, port: 443}", &item).unwrap();
    assert_eq!(result["port"], 443);
}

#[test]
fn test_complex_real_world_filter() {
    let proxies = json(r#"[ {"name": "香港01", "type": "ss", "server": "hk1.com", "port": 8388}, {"name": "日本01", "type": "vmess", "server": "jp1.com", "port": 443}, {"name": "美国01", "type": "trojan", "server": "us1.com", "port": 443}, {"name": "废弃节点", "type": "ss", "server": "", "port": 0} ]"#);

    // 过滤出 ss 类型且端口 > 0 的节点
    let filtered: Vec<_> = proxies
        .as_array()
        .unwrap()
        .iter()
        .filter(|p| evaluate_predicate("(p.type == \"ss\") && (p.port > 0)", p).unwrap())
        .collect();

    assert_eq!(filtered.len(), 1);
    assert_eq!(filtered[0]["name"], "香港01");
}

#[test]
fn test_remove_semantics() {
    // Remove 与 Filter 语义相反：匹配的被删除
    let item = json(r#"{"name": "广告节点", "type": "ss"}"#);
    // 在 remove 中，匹配的应该被删除
    let matches = evaluate_predicate("p.name.includes(\"广告\")", &item).unwrap();
    assert!(matches); // 这个节点匹配了"包含广告"
}

// ─── v2 Built-in function tests ───

#[test]
fn test_builtin_regex() {
    let item = json(r#"{"name": "prod-server-01"}"#);
    assert!(evaluate_predicate("regex(p.name, \"^prod-\")", &item).unwrap());
    assert!(!evaluate_predicate("regex(p.name, \"^dev-\")", &item).unwrap());
}

#[test]
fn test_builtin_contains() {
    let item = json(r#"{"name": "香港 IPLC 01"}"#);
    assert!(evaluate_predicate("contains(p.name, \"香港\")", &item).unwrap());
}

#[test]
fn test_builtin_len() {
    let item = json(r#"{"name": "test"}"#);
    // len(p.name) returns 4, compare with number
    assert!(evaluate_predicate("len(p.name) == 4", &item).unwrap());
}

#[test]
fn test_builtin_starts_with() {
    let item = json(r#"{"type": "ss"}"#);
    assert!(evaluate_predicate("starts_with(p.type, \"s\")", &item).unwrap());
    assert!(!evaluate_predicate("starts_with(p.type, \"v\")", &item).unwrap());
}

#[test]
fn test_builtin_ends_with() {
    let item = json(r#"{"name": "test01"}"#);
    assert!(evaluate_predicate("ends_with(p.name, \"01\")", &item).unwrap());
}

#[test]
fn test_builtin_lower_upper() {
    let item = json(r#"{"name": "Hello"}"#);
    assert!(evaluate_predicate("lower(p.name) == \"hello\"", &item).unwrap());
    assert!(evaluate_predicate("upper(p.name) == \"HELLO\"", &item).unwrap());
}

#[test]
fn test_builtin_type_of() {
    let item = json(r#"{"name": "test", "port": 443, "tls": true}"#);
    assert!(evaluate_predicate("type_of(p.name) == \"string\"", &item).unwrap());
    assert!(evaluate_predicate("type_of(p.port) == \"number\"", &item).unwrap());
    assert!(evaluate_predicate("type_of(p.tls) == \"bool\"", &item).unwrap());
}

#[test]
fn test_builtin_abs() {
    let item = json(r#"{"value": -5}"#);
    assert!(evaluate_predicate("abs(p.value) == 5", &item).unwrap());
}

// ─── v2 Pipe operator tests ───

#[test]
fn test_pipe_to_function() {
    let item = json(r#"{"name": "Hello World"}"#);
    // p.name | lower should produce "hello world"
    // Then == "hello world" comparison
    assert!(evaluate_predicate("p.name | lower == \"hello world\"", &item).unwrap());
}

#[test]
fn test_pipe_chain() {
    let item = json(r#"{"name": "Hello"}"#);
    // p.name | lower | contains("hello")
    assert!(evaluate_predicate("p.name | lower | contains(\"hello\")", &item).unwrap());
}

// ─── len() 一致性回归测试 ───

/// ASCII 字符串：len() 应返回字符数（ASCII 范围内字符数 = 字节数）。
/// 基本功能验证，确保 len() 对纯 ASCII 输入返回正确值。
#[test]
fn test_len_string_ascii() {
    let item = json(r#"{"name": "hello"}"#);
    // "hello" 有 5 个字符
    assert!(evaluate_predicate("len(p.name) == 5", &item).unwrap());

    let item2 = json(r#"{"name": ""}"#);
    // 空字符串长度为 0
    assert!(evaluate_predicate("len(p.name) == 0", &item2).unwrap());

    let item3 = json(r#"{"name": "a"}"#);
    // 单字符长度为 1
    assert!(evaluate_predicate("len(p.name) == 1", &item3).unwrap());
}

/// 多字节字符（中文）：len() 应返回字符数而非字节数。
/// 这是 len() 使用 chars().count() 而非 .len()（字节数）的回归测试。
/// "中文" 各 3 字节（UTF-8），但 chars().count() 应为 2。
#[test]
fn test_len_string_multibyte() {
    // "中文" — 2 个字符，6 个字节（UTF-8）
    let item = json(r#"{"name": "中文"}"#);
    assert!(
        evaluate_predicate("len(p.name) == 2", &item).unwrap(),
        "len(\"中文\") 应返回 2（字符数），而非 6（字节数）"
    );

    // 单个 emoji 🇭🇰 — 由两个 regional indicator 组成，chars().count() = 2
    let item2 = json(r#"{"flag": "🇭🇰"}"#);
    assert!(
        evaluate_predicate("len(p.flag) == 2", &item2).unwrap(),
        "len(\"🇭🇰\") 应返回 2（regional indicator 对）"
    );

    // 日文假名 — 3 字符
    let item3 = json(r#"{"text": "こんにちは"}"#);
    assert!(
        evaluate_predicate("len(p.text) == 5", &item3).unwrap(),
        "len(\"こんにちは\") 应返回 5"
    );
}

/// 混合 ASCII + 多字节：len() 应返回总字符数。
/// 验证混合编码字符串的字符计数正确性。
#[test]
fn test_len_string_mixed() {
    // "Hello世界" — 5 ASCII + 2 CJK = 7 字符
    let item = json(r#"{"name": "Hello世界"}"#);
    assert!(
        evaluate_predicate("len(p.name) == 7", &item).unwrap(),
        "len(\"Hello世界\") 应返回 7"
    );

    // "abc-🇭🇰-123" — 3 + 1 + 2 + 1 + 3 = 10 字符
    let item2 = json(r#"{"tag": "abc-🇭🇰-123"}"#);
    assert!(
        evaluate_predicate("len(p.tag) == 10", &item2).unwrap(),
        "len(\"abc-🇭🇰-123\") 应返回 10"
    );
}

/// 数组：len() 应返回元素数。
/// 验证 len() 对 JSON 数组类型的正确处理。
#[test]
fn test_len_array() {
    // 注意：当前 expr.rs 的 len() 仅支持 string/array/null，
    // 但 resolve_value_expr 从 JSON Document 解析时，数组字段会映射为 ExprValue::Array。
    // 这里测试通过直接表达式调用 len() 对数组字段的行为。
    let item = json(r#"{"tags": ["ss", "vmess", "trojan"]}"#);
    // 数组有 3 个元素
    assert!(
        evaluate_predicate("len(p.tags) == 3", &item).unwrap(),
        "len([\"ss\", \"vmess\", \"trojan\"]) 应返回 3"
    );

    let item2 = json(r#"{"tags": []}"#);
    assert!(
        evaluate_predicate("len(p.tags) == 0", &item2).unwrap(),
        "len([]) 应返回 0"
    );

    let item3 = json(r#"{"tags": ["single"]}"#);
    assert!(
        evaluate_predicate("len(p.tags) == 1", &item3).unwrap(),
        "len([\"single\"]) 应返回 1"
    );
}

/// 空字符串和空数组：len() 应返回 0。
/// 边界条件测试，确保零长度输入不会导致异常。
#[test]
fn test_len_empty() {
    // 空字符串
    let item = json(r#"{"name": ""}"#);
    assert!(
        evaluate_predicate("len(p.name) == 0", &item).unwrap(),
        "len(\"\") 应返回 0"
    );

    // 空数组
    let item2 = json(r#"{"items": []}"#);
    assert!(
        evaluate_predicate("len(p.items) == 0", &item2).unwrap(),
        "len([]) 应返回 0"
    );

    // null 字段 — len(null) 应返回 0
    let item3 = json(r#"{"missing": null}"#);
    assert!(
        evaluate_predicate("len(p.missing) == 0", &item3).unwrap(),
        "len(null) 应返回 0"
    );
}
