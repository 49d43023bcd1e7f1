//! Documents, their texts, and what is done with them.

use clash_prism_core::expr::{json_description, parse_literal, ExprValue};
use clash_prism_core::json_text::to_json_text;
use clash_prism_core::merge::{count_merge_diff, deep_merge_json};
use clash_prism_core::number::{read_number, to_json_number, Num, Number};
use clash_prism_core::ops::{
    apply_append, apply_override, apply_prepend, apply_set_default, extract_item_description,
    run_op, validate_transform_results,
};
use clash_prism_core::order::{sorted_positions, sorted_text_positions};
use clash_prism_core::predicate::evaluate_predicate;
use clash_prism_core::serial::{
    config_content_hash, deterministic_serialize, deterministic_serialize_compact,
    sort_keys_recursive, to_pretty_text,
};
use clash_prism_core::transform::evaluate_transform_expr;
use clash_prism_core::value::{Document, Object};
use clash_prism_core::ir::{CompiledPredicate, PatchOp};

/// The document that a JSON text denotes.
fn json(text: &str) -> serde_json::Value {
    serde_json::from_str(text).unwrap()
}

/// The same document for the library.
fn lib(v: &serde_json::Value) -> Document {
    match v {
        serde_json::Value::Null => Document::Null,
        serde_json::Value::Bool(b) => Document::Bool(*b),
        serde_json::Value::Number(n) => {
            if let Some(i) = n.as_i64() {
                Document::Number(Number::Int(i))
            } else if let Some(u) = n.as_u64() {
                Document::Number(Number::UInt(u))
            } else {
                let text: Vec<char> = n.to_string().chars().collect();
                Document::Number(to_json_number(read_number(&text).unwrap()))
            }
        }
        serde_json::Value::String(s) => Document::String(s.clone()),
        serde_json::Value::Array(items) => Document::Array(items.iter().map(lib).collect()),
        serde_json::Value::Object(map) => {
            let mut out = Object::new();
            for (k, v) in map {
                out.insert(k.clone(), lib(v));
            }
            Document::Object(out)
        }
    }
}

fn doc(text: &str) -> Document {
    lib(&json(text))
}

/// A document of the library as `serde_json` has it.
fn plain(v: &Document) -> serde_json::Value {
    serde_json::from_str(&to_json_text(v)).unwrap()
}

fn chars(s: &str) -> Vec<char> {
    s.chars().collect()
}

#[test]
fn texts_are_those_of_serde_json() {
    let texts = [
        "null", "true", "0", "-1", "9223372036854775807", "18446744073709551615",
        "-9223372036854775808", "1.5", "100.0", "-0.25", "1e15", "1e16", "1e21", "1.25e300",
        "0.001", "0.00001", "0.000001", "1e-7", "123456789.125", "0.1",
        r#""a\"b\\c\nd\te\u0001\u007f é 界 😀 /""#,
        r#""\u0000\b\t\n\u000b\f\r\u000e\u001f\u0020\u0080""#,
        r#"[]"#, r#"{}"#, r#"[1,[2,{"a":null}],"x"]"#, r#"{"b":1,"a":{"c":[]}}"#,
    ];
    for t in texts {
        let v = json(t);
        assert_eq!(to_json_text(&lib(&v)), serde_json::to_string(&v).unwrap());
        assert_eq!(to_pretty_text(&lib(&v)), serde_json::to_string_pretty(&v).unwrap());
    }
    let text = Document::String("a\"\\/\u{8}\t\n\u{c}\r\u{1}\u{1f}\u{7f}é".to_string());
    assert_eq!(to_json_text(&text), "\"a\\\"\\\\/\\b\\t\\n\\f\\r\\u0001\\u001f\u{7f}é\"");
}

#[test]
fn numbers_of_expressions() {
    let num = |s: &str| read_number(&chars(s)).unwrap();
    assert!(num("1.5").less(num("1.50001")));
    assert!(num("1e3").close(num("1000")));
    assert!(num("1000000000000").close(num("1000000000001")));
    assert!(!num("1").close(num("1.00001")));
    assert!(num("-2").less(num("1")));
    assert!(num("inf").at_most(num("inf")));
    assert!(num("-inf").less(num("-1e300")));
    assert!(!num("nan").at_most(num("nan")));
    assert!(matches!(num("1e400"), Num::Infinite { neg: false }));
    assert!(read_number(&chars("1.2.3")).is_none());
    assert!(read_number(&chars("")).is_none());
    assert!(read_number(&chars(".")).is_none());
    assert_eq!(Number::Int(-7).to_text(), "-7");
    assert_eq!(Number::UInt(u64::MAX).as_u64(), Some(u64::MAX));
    assert_eq!(Number::Int(-7).as_u64(), None);
}

#[test]
fn objects_keep_their_members_in_order() {
    let mut o = Object::new();
    o.insert("b".to_string(), Document::Bool(true));
    o.insert("a".to_string(), Document::Null);
    o.insert("b".to_string(), Document::Bool(false));
    assert_eq!(o.len(), 2);
    assert_eq!(to_json_text(&Document::Object(o.clone())), r#"{"a":null,"b":false}"#);
    assert!(o.remove("b").is_some());
    assert!(o.remove("b").is_none());
    assert!(!o.contains_key("b"));
    assert!(o.contains_key("a"));
}

#[test]
fn merging_by_members() {
    let mut base = doc(r#"{"a": {"x": 1, "y": [1]}, "b": 2}"#);
    deep_merge_json(&mut base, &doc(r#"{"a": {"y": [2], "z": 3}, "c": 4}"#));
    assert_eq!(plain(&base), json(r#"{"a": {"x": 1, "y": [2], "z": 3}, "b": 2, "c": 4}"#));
    let before = doc(r#"{"a": {"x": 1, "y": [1]}, "b": 2}"#);
    assert_eq!(count_merge_diff(&before, &base), (4, 6));
    let mut same = doc(r#"{"a": 1}"#);
    deep_merge_json(&mut same, &doc("{}"));
    assert_eq!(plain(&same), json(r#"{"a": 1}"#));
    deep_merge_json(&mut same, &doc("[1]"));
    assert_eq!(plain(&same), json("[1]"));
}

#[test]
fn merging_a_second_time_changes_nothing() {
    let overlay = doc(r#"{"a": {"y": [2], "z": {"d": null, "c": 1}}, "c": 4}"#);
    let mut once = doc(r#"{"b": 2, "a": {"y": [1], "x": 1}}"#);
    deep_merge_json(&mut once, &overlay);
    let mut twice = once.clone();
    deep_merge_json(&mut twice, &overlay);
    assert_eq!(to_json_text(&twice), to_json_text(&once));
    let same = once.clone();
    deep_merge_json(&mut once, &same);
    assert_eq!(
        to_json_text(&once),
        r#"{"a":{"x":1,"y":[2],"z":{"c":1,"d":null}},"b":2,"c":4}"#
    );
}

#[test]
fn operations_keep_members_in_order() {
    let expr = CompiledPredicate::new("{...p, aa: p.o, b: 1}", vec![]);
    let mut v = doc(r#"{"z": [{"o": {"k": 1, "j": 2}, "c": 0}]}"#);
    run_op(&mut v, "z", &PatchOp::Transform { expr }, &Document::Null);
    run_op(&mut v, "m.n", &PatchOp::Override, &doc(r#"{"y": 1, "x": 2}"#));
    run_op(&mut v, "m", &PatchOp::DeepMerge, &doc(r#"{"o": 1, "l": 2}"#));
    run_op(&mut v, "a", &PatchOp::SetDefault, &doc("0"));
    assert_eq!(
        to_json_text(&v),
        r#"{"a":0,"m":{"l":2,"n":{"x":2,"y":1},"o":1},"z":[{"aa":{"j":2,"k":1},"b":1,"c":0,"o":{"j":2,"k":1}}]}"#
    );
}

#[test]
fn operations_on_values() {
    let mut v = doc(r#"{"a": {"b": 1}, "n": null, "e": []}"#);
    apply_override(&mut v, "a.b", &doc("2"));
    apply_override(&mut v, "c.d", &doc("3"));
    apply_override(&mut v, "a.b.x", &doc("4"));
    apply_set_default(&mut v, "n", &doc("5"));
    apply_set_default(&mut v, "e", &doc("6"));
    apply_set_default(&mut v, "c.f", &doc("7"));
    assert_eq!(
        plain(&v),
        json(r#"{"a": {"b": 2}, "n": 5, "e": [], "c": {"d": 3, "f": 7}}"#)
    );
    apply_prepend(&mut v, "e", &doc("1"));
    apply_append(&mut v, "e", &doc("[2, 3]"));
    apply_append(&mut v, "missing", &doc("[2, 3]"));
    assert_eq!(plain(&v)["e"], json("[1, 2, 3]"));
}

#[test]
fn filter_and_remove_are_opposites() {
    let expr = || CompiledPredicate::new("p.n > 1", vec![]);
    let base = r#"{"a": [{"n": 1}, {"n": 2, "name": "two"}, {"m": 0}]}"#;
    let mut kept = doc(base);
    let r = run_op(&mut kept, "a", &PatchOp::Filter { expr: expr() }, &Document::Null);
    assert_eq!(plain(&kept), json(r#"{"a": [{"n": 2, "name": "two"}, {"m": 0}]}"#));
    assert_eq!((r.summary.removed, r.summary.kept, r.summary.total_before), (1, 2, 3));
    assert_eq!(r.items[0].before.as_deref(), Some("?"));
    let mut rest = doc(base);
    let r = run_op(&mut rest, "a", &PatchOp::Remove { expr: expr() }, &Document::Null);
    assert_eq!(plain(&rest), json(r#"{"a": [{"n": 1}, {"m": 0}]}"#));
    assert_eq!(r.items[0].before.as_deref(), Some("two"));
    assert_eq!(r.items[0].index, 1);
    let mut again = kept.clone();
    run_op(&mut again, "a", &PatchOp::Filter { expr: expr() }, &Document::Null);
    assert_eq!(plain(&again), plain(&kept));
}

#[test]
fn items_in_words() {
    assert_eq!(extract_item_description(&doc("\"r\"")), "r");
    assert_eq!(extract_item_description(&doc(r#"{"name": "n", "x": 1}"#)), "n");
    assert_eq!(extract_item_description(&doc(r#"{"x": 1}"#)), r#"{"x":1}"#);
    assert_eq!(
        json_description(&doc(r#"{"x": [1, "a", null, true]}"#)),
        r#"Object {"x": Array [Number(1), String("a"), Null, Bool(true)]}"#
    );
}

#[test]
fn missing_fields_are_warned_of() {
    let before = vec![doc(r#"{"name": "A", "type": "ss"}"#)];
    let after = vec![doc(r#"{"type": "ss", "server": "s"}"#), doc("1")];
    let w = validate_transform_results(&before, &after);
    let told: Vec<(usize, &str, &str)> = w
        .iter()
        .map(|w| (w.node_index, w.node_name.as_str(), w.field.as_str()))
        .collect();
    assert_eq!(
        told,
        vec![
            (0, "A", "name"),
            (0, "A", "port"),
            (1, "unknown", "name"),
            (1, "unknown", "type"),
            (1, "unknown", "server"),
            (1, "unknown", "port"),
        ]
    );
}

#[test]
fn sorting_is_stable() {
    assert_eq!(sorted_positions(&vec![3, 1, 3, 1]), vec![1, 3, 0, 2]);
    assert_eq!(sorted_text_positions(&vec!["b", "a", "b", "B"]), vec![3, 1, 0, 2]);
}

#[test]
fn serialisation_does_not_depend_on_the_order_of_members() {
    let one = Object {
        entries: vec![
            ("b".to_string(), doc("1")),
            ("a".to_string(), Document::Object(Object {
                entries: vec![("d".to_string(), doc("2")), ("c".to_string(), doc("3"))],
            })),
        ],
    };
    let mut v = Document::Object(one);
    let sorted = doc(r#"{"a": {"c": 3, "d": 2}, "b": 1}"#);
    assert_eq!(deterministic_serialize_compact(&v), r#"{"a":{"c":3,"d":2},"b":1}"#);
    assert_eq!(deterministic_serialize(&v), deterministic_serialize(&sorted));
    assert_eq!(config_content_hash(&v), config_content_hash(&sorted));
    assert_ne!(config_content_hash(&v), config_content_hash(&doc("{}")));
    sort_keys_recursive(&mut v);
    assert_eq!(to_json_text(&v), r#"{"a":{"c":3,"d":2},"b":1}"#);
}

// ---------------------------------------------------------------------------
// Expressions
// ---------------------------------------------------------------------------

fn holds(e: &str, item: &str) -> bool {
    evaluate_predicate(e, &doc(item)).unwrap()
}

fn fault(e: &str, item: &str) -> String {
    evaluate_predicate(e, &doc(item)).unwrap_err().message()
}

#[test]
fn functions_of_expressions() {
    let item = r#"{"name": "Tokyo-Ä", "tags": ["a", "b"], "n": -3, "none": null}"#;
    assert!(holds("lower(p.name) == \"tokyo-ä\"", item));
    assert!(holds("upper(p.name) == \"TOKYO-Ä\"", item));
    assert!(holds("len(p.name) == 7", item));
    assert!(holds("len(p.tags) == 2", item));
    assert!(holds("len(p.none) == 0", item));
    assert!(holds("abs(p.n) == 3", item));
    assert!(holds("type_of(p.tags) == \"array\"", item));
    assert!(holds("regex(p.name, \"^Tok\")", item));
    assert!(!holds("regex(p.name, \"^tok\")", item));
    assert!(holds("contains(p.name, \"kyo\") && starts_with(p.name, \"To\")", item));
    assert!(holds("ends_with(p.name, \"Ä\") || p.missing == 1", item));
    assert!(holds("p.name | lower | contains(\"tokyo\")", item));
    assert!(holds("p.name | upper == \"TOKYO-Ä\"", item));
    assert!(holds("!(p.n > 0)", item));
    assert!(holds("p.name.includes(\"kyo\")", item));
    assert!(holds("p.name.match(/^T.*Ä$/)", item));
}

#[test]
fn faults_of_expressions() {
    let item = r#"{"name": "A", "n": 1}"#;
    assert_eq!(fault("p.missing == 1", item), "Field not found: missing");
    assert_eq!(
        fault("lower(p.n) == \"a\"", item),
        "Type mismatch: expected string, got Number(1.0)"
    );
    assert_eq!(
        fault("p.name > 1", item),
        "Type mismatch: expected comparable types, got String(\"A\") vs Number(1.0)"
    );
    assert_eq!(fault("nonsense", item), "Unsupported expression: nonsense");
    assert_eq!(
        fault("len(p.name, 1) == 1", item),
        "Expression parse error: len() requires 1 argument, got 2"
    );
    assert!(fault("regex(p.name, \"(\")", item).starts_with("Regex error: Invalid regex '(': "));
    assert_eq!(
        fault("p.name == x", item),
        "Unsupported expression: Cannot parse literal: \"x\". If this is a field reference, did you forget the 'p.' prefix? (e.g., p.x)"
    );
    let deep = format!("{}p.n == 1{}", "(".repeat(65), ")".repeat(65));
    assert!(fault(&deep, item).contains("recursion depth exceeded limit (64)"));
    let fits = format!("{}p.n == 1{}", "(".repeat(64), ")".repeat(64));
    assert!(holds(&fits, item));
}

#[test]
fn transformations() {
    let item = doc(r#"{"name": "a$1a", "port": 1, "tls": true}"#);
    let run = |e: &str| plain(&evaluate_transform_expr(e, &item).unwrap());
    assert_eq!(run("{...p}"), plain(&item));
    assert_eq!(run("{name: \"x-\" + p.name + p.port}"), json(r#"{"name": "x-a$1a1"}"#));
    assert_eq!(run("{...p, \"udp\": false}")["udp"], json("false"));
    assert_eq!(run("{name: p.name.replace(/a/b/)}"), json(r#"{"name": "b$1b"}"#));
    assert_eq!(run("{name: p.name.replace(/a/, \"$\")}"), json(r#"{"name": "$$1$"}"#));
    assert_eq!(run("{v: p.missing}"), json(r#"{"v": null}"#));
    assert_eq!(run("{name: p.name.replace(/a//)}"), json(r#"{"name": "$1"}"#));
    assert_eq!(run("{name: p.name.replace(/a/)}"), json(r#"{"name": "a$1a"}"#));
    assert_eq!(run(r"{name: p.name.replace(/\d/x y/)}"), json(r#"{"name": "a$x ya"}"#));
    assert_eq!(run("{v: 12, w: 1.5, x: null}"), json(r#"{"v": 12, "w": 1.5, "x": null}"#));
    assert!(evaluate_transform_expr("p", &item).is_err());
}

#[test]
fn a_name_is_replaced() {
    let item = doc(r#"{"name": "old-1"}"#);
    let new = evaluate_transform_expr("{name: p.name.replace(/old/new/)}", &item).unwrap();
    assert_eq!(plain(&new), json(r#"{"name": "new-1"}"#));
    let fault = |e: &str| evaluate_transform_expr(e, &item).unwrap_err().message();
    assert!(fault("{name: p.name.replace(/(/new/)}").contains("Invalid regex '('"));
    assert!(fault("{name: p.name.replace(/a/b)}").contains("Delimiter '/' not found in: b)"));
}

#[test]
fn transformations_with_pipes() {
    let item = doc(r#"{"name": " hk ", "port": 443, "tags": ["a", "b"], "o": {"x": 1}}"#);
    let run = |e: &str| plain(&evaluate_transform_expr(e, &item).unwrap());
    assert_eq!(run("name | upper | trim"), json(r#""HK""#));
    assert_eq!(run("p.name | trim"), json(r#""hk""#));
    assert_eq!(run("\"x\" + p.port | upper"), json(r#""X443""#));
    assert_eq!(
        run("{name: p.name | trim | upper, n: tags | len, t: port | type_of}"),
        json(r#"{"name": "HK", "n": 2, "t": "number"}"#)
    );
    assert_eq!(run("{v: port | abs, w: name | contains(\"k\")}"), json(r#"{"v": 443, "w": true}"#));
    let fault = |e: &str| evaluate_transform_expr(e, &item).unwrap_err().message();
    assert!(fault("name | shout").contains("Unsupported pipe stage: shout"));
    assert!(fault("port | upper").contains("string"));
    assert!(fault("o | len").contains("primitive"));
    assert!(fault("nothing | upper").contains("Cannot parse JSON literal: nothing"));
    assert!(fault("name").contains("must be an object"));
}

#[test]
fn methods_of_fields() {
    let item = r#"{"type": "ss", "server": "US-1", "n": 1, "a": {"b": "xyz"}, "p": "q"}"#;
    assert!(holds("type == 'ss' && server.contains('US')", item));
    assert!(holds("p.server.contains(\"S-\")", item));
    assert!(!holds("server.contains('EU')", item));
    assert!(holds("a.b.contains('y') && p.a.b.contains('z')", item));
    assert!(holds("p.contains('q')", item));
    assert!(holds("p.a.b.includes('yz')", item));
    assert!(fault("n.contains('1')", item).contains("string.contains(string)"));
    assert!(fault("p.n.includes('1')", item).contains("string.includes(string)"));
    assert!(fault("missing.contains('1')", item).contains("missing"));
    assert!(fault("server.includes('US')", item).contains("server.includes('US')"));
}

#[test]
fn calls_in_pipes_are_compared() {
    let item = r#"{"name": " abcd ", "n": -3}"#;
    assert!(holds("p.name | len() > 3", item));
    assert!(!holds("p.name | len() == 3", item));
    assert!(holds("p.name | trim | len() <= 4", item));
    assert!(holds("p.name | trim() == \"abcd\"", item));
    assert!(holds("p.n | abs >= 3", item));
    assert!(holds("p.name | trim | starts_with(\"ab\") == true", item));
    assert!(fault("p.name | len( > 3", item).contains("Unbalanced parentheses"));
}

#[test]
fn literals_of_expressions() {
    let lit = |s: &str| parse_literal(&chars(s)).unwrap();
    assert!(matches!(lit("true"), ExprValue::Bool(true)));
    assert!(matches!(lit(" null "), ExprValue::Null));
    assert!(matches!(lit("'it\\'s'"), ExprValue::String(s) if s == "it's"));
    assert!(matches!(lit("\"a\\nb\\q\""), ExprValue::String(s) if s == "a\nb\\q"));
    assert!(matches!(lit("\"\""), ExprValue::String(s) if s.is_empty()));
}
