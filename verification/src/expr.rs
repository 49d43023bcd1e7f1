//! Values, literals and faults of the expression language.

use vstd::prelude::*;
use vstd::slice::slice_subrange;
use crate::number::{
    json_number_text, num_close, num_le, num_lt, num_text, number_text, push_num, push_number,
    read_number, Num,
};
use crate::outside::{
    debug_quoted, debug_text, regex_build, regex_found, regex_is_match, regex_message,
    regex_replace_all, regex_replaced, regex_valid,
};
use crate::text::{
    chars_of, decimal, is_digit, is_text, pieces, push_chars, same_text, split, split_at_char,
    starts_with, text_before, text_lt, text_of, trim, trimmed, white,
};
use crate::value::{array_view, field, member, views, Document, Json, Object};

verus! {

// ---------------------------------------------------------------------------
// Values and faults
// ---------------------------------------------------------------------------

/// The value of an expression.
#[derive(Debug, Clone)]
pub enum ExprValue {
    Bool(bool),
    Number(Num),
    String(String),
    Array(Vec<Document>),
    Null,
}

/// Why an expression has no value.
#[derive(Debug, Clone)]
pub enum ExprError {
    /// The expression could not be parsed.
    ParseError(String),
    /// A field that the item does not have.
    FieldNotFound(String),
    /// A value of another type than the operation needs.
    TypeMismatch { expected: String, actual: String },
    /// A regular expression that does not compile.
    RegexError(String),
    /// Syntax that the evaluator does not know.
    Unsupported(String),
}

/// The model of [`ExprValue`].
#[verifier::ext_equal]
pub ghost enum Val {
    Bool(bool),
    Num(Num),
    Str(Seq<char>),
    Arr(Seq<Json>),
    Null,
}

/// The model of [`ExprError`].
#[verifier::ext_equal]
pub ghost enum Fault {
    Parse(Seq<char>),
    Field(Seq<char>),
    Mismatch(Seq<char>, Seq<char>),
    Regex(Seq<char>),
    Unsupported(Seq<char>),
}

impl ExprValue {
    pub open spec fn view(&self) -> Val {
        match self {
            ExprValue::Bool(b) => Val::Bool(*b),
            ExprValue::Number(n) => Val::Num(*n),
            ExprValue::String(s) => Val::Str(s@),
            ExprValue::Array(items) => Val::Arr(views(items@)),
            ExprValue::Null => Val::Null,
        }
    }
}

impl ExprError {
    pub open spec fn view(&self) -> Fault {
        match self {
            ExprError::ParseError(m) => Fault::Parse(m@),
            ExprError::FieldNotFound(f) => Fault::Field(f@),
            ExprError::TypeMismatch { expected, actual } => Fault::Mismatch(expected@, actual@),
            ExprError::RegexError(m) => Fault::Regex(m@),
            ExprError::Unsupported(e) => Fault::Unsupported(e@),
        }
    }

    /// The message that describes the fault.
    pub fn message(&self) -> (r: String)
        ensures
            r@ == fault_text(self@),
    {
        match self {
            ExprError::ParseError(m) => concat("Expression parse error: ", m.as_str()),
            ExprError::FieldNotFound(f) => concat("Field not found: ", f.as_str()),
            ExprError::TypeMismatch { expected, actual } => {
                let mut out = concat("Type mismatch: expected ", expected.as_str());
                out.append(", got ");
                out.append(actual.as_str());
                out
            },
            ExprError::RegexError(m) => concat("Regex error: ", m.as_str()),
            ExprError::Unsupported(e) => concat("Unsupported expression: ", e.as_str()),
        }
    }
}

/// The message that describes a fault.
pub open spec fn fault_text(f: Fault) -> Seq<char> {
    match f {
        Fault::Parse(m) => "Expression parse error: "@ + m,
        Fault::Field(n) => "Field not found: "@ + n,
        Fault::Mismatch(expected, actual) => "Type mismatch: expected "@ + expected + ", got "@
            + actual,
        Fault::Regex(m) => "Regex error: "@ + m,
        Fault::Unsupported(e) => "Unsupported expression: "@ + e,
    }
}

/// One text after another.
pub fn concat(a: &str, b: &str) -> (r: String)
    ensures
        r@ == a@ + b@,
{
    let mut out: String = a.to_owned();
    out.append(b);
    out
}

/// The model of the outcome of an evaluation.
pub open spec fn outcome(r: Result<ExprValue, ExprError>) -> Result<Val, Fault> {
    match r {
        Ok(v) => Ok(v@),
        Err(e) => Err(e@),
    }
}

/// The model of the outcome of a test.
pub open spec fn verdict(r: Result<bool, ExprError>) -> Result<bool, Fault> {
    match r {
        Ok(b) => Ok(b),
        Err(e) => Err(e@),
    }
}

/// The model of an outcome that may be absent.
pub open spec fn optional(r: Result<Option<ExprValue>, ExprError>) -> Result<Option<Val>, Fault> {
    match r {
        Ok(Some(v)) => Ok(Some(v@)),
        Ok(None) => Ok(None),
        Err(e) => Err(e@),
    }
}

pub fn parse_fault(message: String) -> (r: ExprError)
    ensures
        r@ == Fault::Parse(message@),
{
    ExprError::ParseError(message)
}

pub fn mismatch(expected: &str, actual: String) -> (r: ExprError)
    ensures
        r@ == Fault::Mismatch(expected@, actual@),
{
    ExprError::TypeMismatch { expected: expected.to_owned(), actual }
}

// ---------------------------------------------------------------------------
// Descriptions
// ---------------------------------------------------------------------------

/// `true` or `false`.
pub open spec fn bool_text(b: bool) -> Seq<char> {
    if b {
        "true"@
    } else {
        "false"@
    }
}

/// A document as it appears in messages.
pub open spec fn describe_json(v: Json) -> Seq<char>
    decreases v, 0nat,
{
    match v {
        Json::Null => "Null"@,
        Json::Bool(b) => "Bool("@ + bool_text(b) + ")"@,
        Json::Num(n) => "Number("@ + json_number_text(n) + ")"@,
        Json::Str(s) => "String("@ + debug_quoted(s) + ")"@,
        Json::Arr(a) => "Array ["@ + describe_items(a, a.len()) + "]"@,
        Json::Obj(o) => "Object {"@ + describe_members(o, o.len()) + "}"@,
    }
}

/// The first `n` items, with commas between them.
pub open spec fn describe_items(a: Seq<Json>, n: nat) -> Seq<char>
    decreases a, n,
{
    if n == 0 || n > a.len() {
        Seq::empty()
    } else {
        let rest = describe_items(a, (n - 1) as nat);
        (if n == 1 {
            rest
        } else {
            rest + ", "@
        }) + describe_json(a[n - 1])
    }
}

/// The first `n` members, with commas between them.
pub open spec fn describe_members(o: Seq<(Seq<char>, Json)>, n: nat) -> Seq<char>
    decreases o, n,
{
    if n == 0 || n > o.len() {
        Seq::empty()
    } else {
        let rest = describe_members(o, (n - 1) as nat);
        (if n == 1 {
            rest
        } else {
            rest + ", "@
        }) + debug_quoted(o[n - 1].0) + ": "@ + describe_json(o[n - 1].1)
    }
}

/// A value as it appears in messages.
pub open spec fn describe(v: Val) -> Seq<char> {
    match v {
        Val::Bool(b) => "Bool("@ + bool_text(b) + ")"@,
        Val::Num(n) => "Number("@ + num_text(n) + ")"@,
        Val::Str(s) => "String("@ + debug_quoted(s) + ")"@,
        Val::Arr(a) => "Array(["@ + describe_items(a, a.len()) + "])"@,
        Val::Null => "Null"@,
    }
}

/// Appends a string.
pub fn push_text(out: &mut Vec<char>, s: &str)
    ensures
        final(out)@ == old(out)@ + s@,
{
    let c = chars_of(s);
    push_chars(out, c.as_slice());
}

fn push_bool(out: &mut Vec<char>, b: bool)
    ensures
        final(out)@ == old(out)@ + bool_text(b),
{
    if b {
        push_text(out, "true");
    } else {
        push_text(out, "false");
    }
}

fn push_items(out: &mut Vec<char>, items: &Vec<Document>)
    ensures
        final(out)@ == old(out)@ + describe_items(views(items@), items@.len()),
    decreases items,
{
    let ghost a = views(items@);
    let mut i: usize = 0;
    assert(out@ =~= old(out)@ + describe_items(a, 0));
    while i < items.len()
        invariant
            i <= items@.len(),
            a == views(items@),
            out@ == old(out)@ + describe_items(a, i as nat),
        decreases items@.len() - i,
    {
        let ghost before = describe_items(a, i as nat);
        if i > 0 {
            push_text(out, ", ");
            assert(out@ =~= old(out)@ + (before + ", "@));
        }
        let ghost lead = if i == 0 {
            before
        } else {
            before + ", "@
        };
        assert(a[i as int] == items@[i as int]@);
        push_json(out, &items[i]);
        assert(out@ =~= old(out)@ + (lead + describe_json(a[i as int])));
        i = i + 1;
    }
}

fn push_members(out: &mut Vec<char>, obj: &Object)
    ensures
        final(out)@ == old(out)@ + describe_members(obj@, obj@.len()),
    decreases obj,
{
    let ghost o = obj@;
    let mut i: usize = 0;
    assert(out@ =~= old(out)@ + describe_members(o, 0));
    while i < obj.entries.len()
        invariant
            i <= obj.entries@.len(),
            o == obj@,
            o.len() == obj.entries@.len(),
            out@ == old(out)@ + describe_members(o, i as nat),
        decreases obj.entries@.len() - i,
    {
        let ghost before = describe_members(o, i as nat);
        if i > 0 {
            push_text(out, ", ");
            assert(out@ =~= old(out)@ + (before + ", "@));
        }
        let ghost lead = if i == 0 {
            before
        } else {
            before + ", "@
        };
        assert(o[i as int] == (obj.entries@[i as int].0@, obj.entries@[i as int].1@));
        let key = debug_text(obj.entries[i].0.as_str());
        push_text(out, key.as_str());
        push_text(out, ": ");
        push_json(out, &obj.entries[i].1);
        assert(out@ =~= old(out)@ + (lead + debug_quoted(o[i as int].0) + ": "@ + describe_json(
            o[i as int].1,
        )));
        i = i + 1;
    }
}

/// Appends the description of a document.
fn push_json(out: &mut Vec<char>, v: &Document)
    ensures
        final(out)@ == old(out)@ + describe_json(v@),
    decreases v,
{
    match v {
        Document::Null => push_text(out, "Null"),
        Document::Bool(b) => {
            push_text(out, "Bool(");
            push_bool(out, *b);
            push_text(out, ")");
            assert(out@ =~= old(out)@ + describe_json(v@));
        },
        Document::Number(n) => {
            push_text(out, "Number(");
            push_number(out, *n);
            push_text(out, ")");
            assert(out@ =~= old(out)@ + describe_json(v@));
        },
        Document::String(s) => {
            push_text(out, "String(");
            let quoted = debug_text(s.as_str());
            push_text(out, quoted.as_str());
            push_text(out, ")");
            assert(out@ =~= old(out)@ + describe_json(v@));
        },
        Document::Array(items) => {
            proof {
                array_view(*items);
            }
            push_text(out, "Array [");
            push_items(out, items);
            push_text(out, "]");
            assert(out@ =~= old(out)@ + describe_json(v@));
        },
        Document::Object(obj) => {
            push_text(out, "Object {");
            push_members(out, obj);
            push_text(out, "}");
            assert(out@ =~= old(out)@ + describe_json(v@));
        },
    }
}

/// A document as it appears in messages.
pub fn json_description(v: &Document) -> (r: String)
    ensures
        r@ == describe_json(v@),
{
    let mut out: Vec<char> = Vec::new();
    push_json(&mut out, v);
    assert(out@ =~= describe_json(v@));
    text_of(out.as_slice())
}

/// Appends the description of a value.
fn push_value(out: &mut Vec<char>, v: &ExprValue)
    ensures
        final(out)@ == old(out)@ + describe(v@),
{
    match v {
        ExprValue::Bool(b) => {
            push_text(out, "Bool(");
            push_bool(out, *b);
            push_text(out, ")");
            assert(out@ =~= old(out)@ + describe(v@));
        },
        ExprValue::Number(n) => {
            push_text(out, "Number(");
            push_num(out, *n);
            push_text(out, ")");
            assert(out@ =~= old(out)@ + describe(v@));
        },
        ExprValue::String(s) => {
            push_text(out, "String(");
            let quoted = debug_text(s.as_str());
            push_text(out, quoted.as_str());
            push_text(out, ")");
            assert(out@ =~= old(out)@ + describe(v@));
        },
        ExprValue::Array(items) => {
            push_text(out, "Array([");
            push_items(out, items);
            push_text(out, "])");
            assert(out@ =~= old(out)@ + describe(v@));
        },
        ExprValue::Null => push_text(out, "Null"),
    }
}

/// A value as it appears in messages.
pub fn description(v: &ExprValue) -> (r: String)
    ensures
        r@ == describe(v@),
{
    let mut out: Vec<char> = Vec::new();
    push_value(&mut out, v);
    assert(out@ =~= describe(v@));
    text_of(out.as_slice())
}

/// Two values as they appear in messages, with `between` between them.
pub fn descriptions(a: &ExprValue, between: &str, b: &ExprValue) -> (r: String)
    ensures
        r@ == describe(a@) + between@ + describe(b@),
{
    let mut out: Vec<char> = Vec::new();
    push_value(&mut out, a);
    push_text(&mut out, between);
    push_value(&mut out, b);
    assert(out@ =~= describe(a@) + between@ + describe(b@));
    text_of(out.as_slice())
}

// ---------------------------------------------------------------------------
// Literals
// ---------------------------------------------------------------------------

/// `s` with its escape sequences resolved; unknown ones stay as they are.
pub open spec fn unescaped(s: Seq<char>) -> Seq<char>
    decreases s.len(),
{
    if s.len() == 0 {
        s
    } else if s[0] == '\\' && s.len() > 1 {
        let c = s[1];
        let rest = unescaped(s.subrange(2, s.len() as int));
        if c == '\\' || c == '"' || c == '\'' {
            seq![c] + rest
        } else if c == 'n' {
            seq!['\n'] + rest
        } else if c == 't' {
            seq!['\t'] + rest
        } else if c == 'r' {
            seq!['\r'] + rest
        } else {
            seq!['\\', c] + rest
        }
    } else {
        seq![s[0]] + unescaped(s.subrange(1, s.len() as int))
    }
}

/// Whether `s` begins and ends with the same kind of quote.
pub open spec fn quoted(s: Seq<char>) -> bool {
    s.len() > 0 && (s[0] == '"' && s.last() == '"' || s[0] == '\'' && s.last() == '\'')
}

/// The content of a string literal.
pub open spec fn string_literal(s: Seq<char>) -> Option<Seq<char>> {
    if quoted(s) && s.len() >= 2 {
        Some(unescaped(s.subrange(1, s.len() - 1)))
    } else {
        None
    }
}

/// Resolves the escape sequences of a quoted text.
pub fn parse_quoted_string_inner(s: &[char]) -> (r: Option<String>)
    ensures
        match r {
            Some(t) => s@.len() >= 2 && t@ == unescaped(s@.subrange(1, s@.len() - 1)),
            None => s@.len() < 2,
        },
{
    if s.len() < 2 {
        return None;
    }
    let inner = slice_subrange(s, 1, s.len() - 1);
    let mut out: Vec<char> = Vec::new();
    let mut i: usize = 0;
    assert(inner@.subrange(0, inner@.len() as int) =~= inner@);
    assert(out@ + unescaped(inner@.subrange(0, inner@.len() as int)) =~= unescaped(inner@));
    while i < inner.len()
        invariant
            i <= inner@.len(),
            out@ + unescaped(inner@.subrange(i as int, inner@.len() as int)) == unescaped(inner@),
        decreases inner@.len() - i,
    {
        let ghost before = out@;
        let ghost here = inner@.subrange(i as int, inner@.len() as int);
        if inner[i] == '\\' && i + 1 < inner.len() {
            let c: char = inner[i + 1];
            let ghost tail = inner@.subrange(i + 2, inner@.len() as int);
            assert(here.subrange(2, here.len() as int) =~= tail);
            if c == '\\' || c == '"' || c == '\'' {
                out.push(c);
                assert(out@ + unescaped(tail) =~= before + (seq![c] + unescaped(tail)));
            } else if c == 'n' {
                out.push('\n');
                assert(out@ + unescaped(tail) =~= before + (seq!['\n'] + unescaped(tail)));
            } else if c == 't' {
                out.push('\t');
                assert(out@ + unescaped(tail) =~= before + (seq!['\t'] + unescaped(tail)));
            } else if c == 'r' {
                out.push('\r');
                assert(out@ + unescaped(tail) =~= before + (seq!['\r'] + unescaped(tail)));
            } else {
                out.push('\\');
                out.push(c);
                assert(out@ + unescaped(tail) =~= before + (seq!['\\', c] + unescaped(tail)));
            }
            i = i + 2;
        } else {
            let c: char = inner[i];
            let ghost tail = inner@.subrange(i + 1, inner@.len() as int);
            assert(here.subrange(1, here.len() as int) =~= tail);
            out.push(c);
            assert(out@ + unescaped(tail) =~= before + (seq![c] + unescaped(tail)));
            i = i + 1;
        }
    }
    assert(out@ =~= unescaped(inner@)) by {
        assert(inner@.subrange(i as int, inner@.len() as int) =~= Seq::empty());
    }
    Some(text_of(out.as_slice()))
}

/// Whether `s` begins and ends with the same kind of quote.
pub fn is_quoted(s: &[char]) -> (r: bool)
    ensures
        r == quoted(s@),
{
    s.len() > 0 && ((s[0] == '"' && s[s.len() - 1] == '"') || (s[0] == '\'' && s[s.len() - 1]
        == '\''))
}

/// The message for a text that is no literal.
pub open spec fn no_literal(t: Seq<char>) -> Seq<char> {
    "Cannot parse literal: \""@ + t
        + "\". If this is a field reference, did you forget the 'p.' prefix? (e.g., p."@ + t + ")"@
}

/// The value of a literal: `true`, `false`, `null`, a string or a number.
pub open spec fn literal(s: Seq<char>) -> Result<Val, Fault> {
    let t = trim(s);
    if t == "true"@ {
        Ok(Val::Bool(true))
    } else if t == "false"@ {
        Ok(Val::Bool(false))
    } else if t == "null"@ {
        Ok(Val::Null)
    } else if string_literal(t) is Some {
        Ok(Val::Str(string_literal(t)->0))
    } else if number_text(t) is Some {
        Ok(Val::Num(number_text(t)->0))
    } else {
        Err(Fault::Unsupported(no_literal(t)))
    }
}

/// Reads a literal.
pub fn parse_literal(s: &[char]) -> (r: Result<ExprValue, ExprError>)
    ensures
        outcome(r) == literal(s@),
{
    let t = trimmed(s);
    if is_text(t, "true") {
        return Ok(ExprValue::Bool(true));
    }
    if is_text(t, "false") {
        return Ok(ExprValue::Bool(false));
    }
    if is_text(t, "null") {
        return Ok(ExprValue::Null);
    }
    if is_quoted(t) {
        if let Some(text) = parse_quoted_string_inner(t) {
            return Ok(ExprValue::String(text));
        }
    }
    if let Some(n) = read_number(t) {
        return Ok(ExprValue::Number(n));
    }
    let shown = text_of(t);
    let mut m: String = concat("Cannot parse literal: \"", shown.as_str());
    m.append("\". If this is a field reference, did you forget the 'p.' prefix? (e.g., p.");
    m.append(shown.as_str());
    m.append(")");
    Err(ExprError::Unsupported(m))
}

// ---------------------------------------------------------------------------
// Fields
// ---------------------------------------------------------------------------

/// The value that a document has in an expression; objects have none.
pub open spec fn json_value(v: Json) -> Result<Val, Fault> {
    match v {
        Json::Null => Ok(Val::Null),
        Json::Bool(b) => Ok(Val::Bool(b)),
        Json::Num(n) => Ok(Val::Num(n.num())),
        Json::Str(s) => Ok(Val::Str(s)),
        Json::Arr(a) => Ok(Val::Arr(a)),
        Json::Obj(_) => Err(Fault::Mismatch("primitive"@, describe_json(v))),
    }
}

/// A copy of the items of an array.
pub fn copy_items(items: &Vec<Document>) -> (r: Vec<Document>)
    ensures
        views(r@) == views(items@),
        r@.len() == items@.len(),
{
    let mut out: Vec<Document> = Vec::new();
    let mut i: usize = 0;
    while i < items.len()
        invariant
            i <= items@.len(),
            out@.len() == i,
            forall|j: int| 0 <= j < i ==> (#[trigger] out@[j])@ == items@[j]@,
        decreases items@.len() - i,
    {
        out.push(items[i].clone());
        i = i + 1;
    }
    assert(views(out@) =~= views(items@));
    out
}

/// The value of a document in an expression.
pub fn json_to_expr(v: &Document) -> (r: Result<ExprValue, ExprError>)
    ensures
        outcome(r) == json_value(v@),
{
    match v {
        Document::Null => Ok(ExprValue::Null),
        Document::Bool(b) => Ok(ExprValue::Bool(*b)),
        Document::Number(n) => Ok(ExprValue::Number(n.to_num())),
        Document::String(s) => Ok(ExprValue::String(s.clone())),
        Document::Array(items) => {
            proof {
                array_view(*items);
            }
            Ok(ExprValue::Array(copy_items(items)))
        },
        Document::Object(_) => Err(mismatch("primitive", json_description(v))),
    }
}

/// The field that an operand names, with or without the prefix `p.`.
pub open spec fn field_name(s: Seq<char>) -> Seq<char> {
    let e = trim(s);
    if starts_with(e, seq!['p', '.']) {
        trim(e.subrange(2, e.len() as int))
    } else {
        e
    }
}

/// The value of the field that an operand names.
pub open spec fn field_value(s: Seq<char>, item: Json) -> Result<Val, Fault> {
    match field(item, field_name(s)) {
        Some(v) => json_value(v),
        None => Err(Fault::Field(field_name(s))),
    }
}

/// Whether an expression begins with `p.`.
pub fn has_prefix(e: &[char]) -> (r: bool)
    ensures
        r == starts_with(e@, seq!['p', '.']),
{
    let r: bool = e.len() >= 2 && e[0] == 'p' && e[1] == '.';
    proof {
        if e@.len() >= 2 {
            let head = e@.subrange(0, 2);
            if r {
                assert(head =~= seq!['p', '.']);
            } else if head == seq!['p', '.'] {
                assert(head[0] == 'p' && head[1] == '.');
                assert(e@[0] == head[0] && e@[1] == head[1]);
            }
        }
    }
    r
}

/// Reads the field that an operand names.
pub fn resolve_value_expr(s: &[char], item: &Document) -> (r: Result<ExprValue, ExprError>)
    ensures
        outcome(r) == field_value(s@, item@),
{
    let e = trimmed(s);
    let name = if has_prefix(e) {
        trimmed(slice_subrange(e, 2, e.len()))
    } else {
        e
    };
    let key = text_of(name);
    match item.get(key.as_str()) {
        Some(v) => json_to_expr(v),
        None => Err(ExprError::FieldNotFound(key)),
    }
}

/// What stands at nested members.
pub open spec fn nested(item: Json, keys: Seq<Seq<char>>) -> Option<Json>
    decreases keys.len(),
{
    if keys.len() == 0 {
        Some(item)
    } else {
        match field(item, keys[0]) {
            Some(v) => nested(v, keys.drop_first()),
            None => None,
        }
    }
}

/// The nested member that a dotted path names.
pub open spec fn nested_field(item: Json, path: Seq<char>) -> Result<Json, Fault> {
    match nested(item, split(path, '.')) {
        Some(v) => Ok(v),
        None => Err(Fault::Field(path)),
    }
}

/// Reads the nested member that a dotted path names.
pub fn get_nested_field<'a>(item: &'a Document, path: &[char]) -> (r: Result<&'a Document, ExprError>)
    ensures
        match r {
            Ok(v) => nested_field(item@, path@) == Ok::<Json, Fault>(v@),
            Err(e) => nested_field(item@, path@) == Err::<Json, Fault>(e@),
        },
{
    let parts = split_at_char(path, '.');
    let ghost keys = pieces(parts@);
    let mut current: &'a Document = item;
    let mut i: usize = 0;
    assert(keys.subrange(0, keys.len() as int) =~= keys);
    while i < parts.len()
        invariant
            i <= parts@.len(),
            keys == pieces(parts@),
            keys == split(path@, '.'),
            nested(item@, keys) == nested(current@, keys.subrange(i as int, keys.len() as int)),
        decreases parts@.len() - i,
    {
        let key = text_of(parts[i]);
        let ghost tail = keys.subrange(i as int, keys.len() as int);
        assert(tail[0] == parts@[i as int]@);
        assert(tail.drop_first() =~= keys.subrange(i + 1, keys.len() as int));
        match current.get(key.as_str()) {
            Some(v) => {
                current = v;
            },
            None => {
                return Err(ExprError::FieldNotFound(text_of(path)));
            },
        }
        i = i + 1;
    }
    Ok(current)
}

// ---------------------------------------------------------------------------
// Relations
// ---------------------------------------------------------------------------

/// The relations between values.
#[derive(Debug, Clone, Copy, PartialEq, Eq, Structural)]
pub enum Relation {
    Equal,
    NotEqual,
    AtLeast,
    AtMost,
    Above,
    Below,
}

/// The number of relations.
pub const RELATIONS: usize = 6;

/// The relations in the order in which an expression is searched for them.
pub open spec fn relation(k: int) -> Relation {
    if k == 0 {
        Relation::Equal
    } else if k == 1 {
        Relation::NotEqual
    } else if k == 2 {
        Relation::AtLeast
    } else if k == 3 {
        Relation::AtMost
    } else if k == 4 {
        Relation::Above
    } else {
        Relation::Below
    }
}

/// The sign of a relation.
pub open spec fn relation_sign(r: Relation) -> Seq<char> {
    match r {
        Relation::Equal => seq!['=', '='],
        Relation::NotEqual => seq!['!', '='],
        Relation::AtLeast => seq!['>', '='],
        Relation::AtMost => seq!['<', '='],
        Relation::Above => seq!['>'],
        Relation::Below => seq!['<'],
    }
}

pub fn nth_relation(k: usize) -> (r: Relation)
    ensures
        r == relation(k as int),
{
    match k {
        0 => Relation::Equal,
        1 => Relation::NotEqual,
        2 => Relation::AtLeast,
        3 => Relation::AtMost,
        4 => Relation::Above,
        _ => Relation::Below,
    }
}

pub fn sign_of(rel: Relation) -> (r: Vec<char>)
    ensures
        r@ == relation_sign(rel),
        1 <= r@.len() <= 2,
{
    let r: Vec<char> = match rel {
        Relation::Equal => vec!['=', '='],
        Relation::NotEqual => vec!['!', '='],
        Relation::AtLeast => vec!['>', '='],
        Relation::AtMost => vec!['<', '='],
        Relation::Above => vec!['>'],
        Relation::Below => vec!['<'],
    };
    assert(r@ =~= relation_sign(rel));
    r
}

/// Whether two values count as equal: numbers within a billionth, everything
/// else if it is the same.
pub open spec fn val_equal(a: Val, b: Val) -> bool {
    match (a, b) {
        (Val::Num(x), Val::Num(y)) => num_close(x, y),
        _ => a == b,
    }
}

/// The fault of ordering values that have no order.
pub open spec fn no_order(a: Val, b: Val) -> Fault {
    Fault::Mismatch("comparable types"@, describe(a) + " vs "@ + describe(b))
}

/// Whether a relation holds between two values.  Every pair can be equal or
/// not; only two numbers or two texts have an order.
pub open spec fn related(a: Val, b: Val, rel: Relation) -> Result<bool, Fault> {
    match rel {
        Relation::Equal => Ok(val_equal(a, b)),
        Relation::NotEqual => Ok(!val_equal(a, b)),
        Relation::Above => match (a, b) {
            (Val::Num(x), Val::Num(y)) => Ok(num_lt(y, x)),
            (Val::Str(x), Val::Str(y)) => Ok(text_lt(y, x)),
            _ => Err(no_order(a, b)),
        },
        Relation::Below => match (a, b) {
            (Val::Num(x), Val::Num(y)) => Ok(num_lt(x, y)),
            (Val::Str(x), Val::Str(y)) => Ok(text_lt(x, y)),
            _ => Err(no_order(a, b)),
        },
        Relation::AtLeast => match (a, b) {
            (Val::Num(x), Val::Num(y)) => Ok(num_le(y, x)),
            (Val::Str(x), Val::Str(y)) => Ok(!text_lt(x, y)),
            _ => Err(no_order(a, b)),
        },
        Relation::AtMost => match (a, b) {
            (Val::Num(x), Val::Num(y)) => Ok(num_le(x, y)),
            (Val::Str(x), Val::Str(y)) => Ok(!text_lt(y, x)),
            _ => Err(no_order(a, b)),
        },
    }
}

/// Whether two arrays hold the same documents.
fn same_items(a: &Vec<Document>, b: &Vec<Document>) -> (r: bool)
    ensures
        r == (views(a@) == views(b@)),
{
    if a.len() != b.len() {
        assert(views(a@).len() != views(b@).len());
        return false;
    }
    let mut i: usize = 0;
    while i < a.len()
        invariant
            i <= a@.len(),
            a@.len() == b@.len(),
            forall|j: int| 0 <= j < i ==> (#[trigger] a@[j])@ == b@[j]@,
        decreases a@.len() - i,
    {
        if !a[i].same(&b[i]) {
            assert(views(a@)[i as int] != views(b@)[i as int]);
            return false;
        }
        i = i + 1;
    }
    assert(views(a@) =~= views(b@));
    true
}

/// Whether two values are the same; numbers never are by this test.
fn same_other(a: &ExprValue, b: &ExprValue) -> (r: bool)
    ensures
        !(a@ is Num && b@ is Num) ==> r == (a@ == b@),
{
    match (a, b) {
        (ExprValue::Bool(x), ExprValue::Bool(y)) => *x == *y,
        (ExprValue::String(x), ExprValue::String(y)) => same_text(x.as_str(), y.as_str()),
        (ExprValue::Array(x), ExprValue::Array(y)) => same_items(x, y),
        (ExprValue::Null, ExprValue::Null) => true,
        _ => false,
    }
}

/// Whether two values count as equal.
pub fn float_eq(a: &ExprValue, b: &ExprValue) -> (r: bool)
    ensures
        r == val_equal(a@, b@),
{
    match (a, b) {
        (ExprValue::Number(x), ExprValue::Number(y)) => x.close(*y),
        _ => same_other(a, b),
    }
}

fn order_fault(a: &ExprValue, b: &ExprValue) -> (r: ExprError)
    ensures
        r@ == no_order(a@, b@),
{
    mismatch("comparable types", descriptions(a, " vs ", b))
}

/// Whether a relation holds between two values.
pub fn compare_values(a: &ExprValue, b: &ExprValue, rel: Relation) -> (r: Result<bool, ExprError>)
    ensures
        verdict(r) == related(a@, b@, rel),
{
    match rel {
        Relation::Equal => Ok(float_eq(a, b)),
        Relation::NotEqual => Ok(!float_eq(a, b)),
        Relation::Above => match (a, b) {
            (ExprValue::Number(x), ExprValue::Number(y)) => Ok(y.less(*x)),
            (ExprValue::String(x), ExprValue::String(y)) => Ok(text_before(y.as_str(), x.as_str())),
            _ => Err(order_fault(a, b)),
        },
        Relation::Below => match (a, b) {
            (ExprValue::Number(x), ExprValue::Number(y)) => Ok(x.less(*y)),
            (ExprValue::String(x), ExprValue::String(y)) => Ok(text_before(x.as_str(), y.as_str())),
            _ => Err(order_fault(a, b)),
        },
        Relation::AtLeast => match (a, b) {
            (ExprValue::Number(x), ExprValue::Number(y)) => Ok(y.at_most(*x)),
            (ExprValue::String(x), ExprValue::String(y)) => Ok(
                !text_before(x.as_str(), y.as_str()),
            ),
            _ => Err(order_fault(a, b)),
        },
        Relation::AtMost => match (a, b) {
            (ExprValue::Number(x), ExprValue::Number(y)) => Ok(x.at_most(*y)),
            (ExprValue::String(x), ExprValue::String(y)) => Ok(
                !text_before(y.as_str(), x.as_str()),
            ),
            _ => Err(order_fault(a, b)),
        },
    }
}

// ---------------------------------------------------------------------------
// Regular expressions
// ---------------------------------------------------------------------------

/// The size limit, in bytes, of a compiled regular expression.
pub const REGEX_LIMIT: usize = 1_048_576;

/// Whether a pattern compiles.
pub open spec fn compiles(pattern: Seq<char>) -> bool {
    regex_valid(pattern, REGEX_LIMIT as int)
}

/// The message for a pattern that does not compile.
pub open spec fn regex_fault(pattern: Seq<char>) -> Seq<char> {
    "Invalid regex '"@ + pattern + "': "@ + regex_message(pattern, REGEX_LIMIT as int)
}

/// Compiles a pattern within the size limit.
pub fn get_cached_regex(pattern: &str) -> (r: Result<regex::Regex, String>)
    ensures
        match r {
            Ok(_) => compiles(pattern@),
            Err(m) => !compiles(pattern@) && m@ == regex_fault(pattern@),
        },
{
    match regex_build(pattern, REGEX_LIMIT) {
        Ok(re) => Ok(re),
        Err(e) => Err(pattern_message(pattern, e.as_str())),
    }
}

fn pattern_message(pattern: &str, message: &str) -> (r: String)
    ensures
        r@ == "Invalid regex '"@ + pattern@ + "': "@ + message@,
{
    let mut m = concat("Invalid regex '", pattern);
    m.append("': ");
    m.append(message);
    m
}

/// Whether a pattern is found in a text, or why it does not compile.
pub fn pattern_matches(pattern: &str, text: &str) -> (r: Result<bool, String>)
    ensures
        match r {
            Ok(b) => compiles(pattern@) && b == regex_found(pattern@, text@),
            Err(m) => !compiles(pattern@) && m@ == regex_fault(pattern@),
        },
{
    match regex_is_match(pattern, REGEX_LIMIT, text) {
        Ok(b) => Ok(b),
        Err(e) => Err(pattern_message(pattern, e.as_str())),
    }
}

/// A text with every match of a pattern replaced, or why the pattern does not
/// compile.
pub fn pattern_replaced(pattern: &str, text: &str, replacement: &str) -> (r: Result<String, String>)
    ensures
        match r {
            Ok(t) => compiles(pattern@) && t@ == regex_replaced(pattern@, text@, replacement@),
            Err(m) => !compiles(pattern@) && m@ == regex_fault(pattern@),
        },
{
    match regex_replace_all(pattern, REGEX_LIMIT, text, replacement) {
        Ok(t) => Ok(t),
        Err(e) => Err(pattern_message(pattern, e.as_str())),
    }
}

// ---------------------------------------------------------------------------
// Laws
// ---------------------------------------------------------------------------

/// Whether a character can stand in the name of a member without a meaning of its
/// own in expressions.
pub open spec fn key_char(c: char) -> bool {
    &&& !white(c)
    &&& c != '.' && c != ',' && c != ':' && c != '\\' && c != '"' && c != '\''
    &&& c != '(' && c != ')' && c != '[' && c != ']' && c != '{' && c != '}'
    &&& c != '|' && c != '&' && c != '!' && c != '=' && c != '<' && c != '>' && c != '+'
}

/// Whether a text can be written as the name of a member as it is.
pub open spec fn is_key(k: Seq<char>) -> bool {
    k.len() > 0 && forall|i: int| 0 <= i < k.len() ==> key_char(#[trigger] k[i])
}

/// Whether a text is made of names and dots.
pub open spec fn is_dotted(s: Seq<char>) -> bool {
    s.len() > 0 && forall|i: int| 0 <= i < s.len() ==> key_char(#[trigger] s[i]) || s[i] == '.'
}

/// A name is read as the member of that name, and a name, a dot and a path as the
/// path in the member of that name.
pub proof fn paths_lead_through_members(item: Json, k: Seq<char>, rest: Seq<char>)
    requires
        !k.contains('.'),
    ensures
        nested_field(item, k) == (match field(item, k) {
            Some(v) => Ok::<Json, Fault>(v),
            None => Err(Fault::Field(k)),
        }),
        match field(item, k) {
            Some(v) => match nested_field(v, rest) {
                Ok(w) => nested_field(item, k + seq!['.'] + rest) == Ok::<Json, Fault>(w),
                Err(_) => nested_field(item, k + seq!['.'] + rest) is Err,
            },
            None => nested_field(item, k + seq!['.'] + rest) is Err,
        },
{
    crate::text::split_at_first(k, '.', rest);
    reveal_with_fuel(nested, 2);
    let tail = split(rest, '.');
    assert((seq![k] + tail).drop_first() =~= tail);
    assert(seq![k].drop_first() =~= Seq::empty());
}

proof fn no_escapes(s: Seq<char>)
    requires
        !s.contains('\\'),
    ensures
        unescaped(s) == s,
    decreases s.len(),
{
    if s.len() > 0 {
        assert(s.contains(s[0]));
        let rest = s.subrange(1, s.len() as int);
        assert(!rest.contains('\\')) by {
            if rest.contains('\\') {
                let i = choose|i: int| 0 <= i < rest.len() && rest[i] == '\\';
                assert(s[i + 1] == '\\');
            }
        }
        no_escapes(rest);
        assert(seq![s[0]] + rest =~= s);
    }
}

/// A text in quotes stands for that text.
pub proof fn quoted_text_stands_for_itself(q: char, t: Seq<char>)
    requires
        q == '"' || q == '\'',
        !t.contains('\\'),
    ensures
        literal(seq![q] + t + seq![q]) == Ok::<Val, Fault>(Val::Str(t)),
        string_literal(seq![q] + t + seq![q]) == Some(t),
{
    let s = seq![q] + t + seq![q];
    assert(s[0] == q && s.last() == q);
    crate::text::trim_of_tight(s);
    assert(s.subrange(1, s.len() - 1) =~= t);
    no_escapes(t);
    reveal_strlit("true");
    reveal_strlit("false");
    reveal_strlit("null");
    assert("true"@[0] == 't' && "false"@[0] == 'f' && "null"@[0] == 'n');
}

/// The backslash takes away the meaning of a quote or of itself, and stands for a
/// line end, a tab or a carriage return with `n`, `t` or `r`; before any other
/// character it stays.
pub proof fn escapes_in_texts(c: char, rest: Seq<char>)
    ensures
        unescaped(seq!['\\', c] + rest) == (if c == '\\' || c == '"' || c == '\'' {
            seq![c]
        } else if c == 'n' {
            seq!['\n']
        } else if c == 't' {
            seq!['\t']
        } else if c == 'r' {
            seq!['\r']
        } else {
            seq!['\\', c]
        }) + unescaped(rest),
{
    let s = seq!['\\', c] + rest;
    assert(s.subrange(2, s.len() as int) =~= rest);
}

/// A number written in digits stands for that number.
pub proof fn digits_stand_for_their_number(n: nat)
    requires
        n < 1_000_000_000_000_000_000,
    ensures
        literal(decimal(n)) == Ok::<Val, Fault>(
            Val::Num(crate::number::Number::Int(n as i64).num()),
        ),
{
    let s = decimal(n);
    crate::text::decimal_is_read_back(n);
    assert(is_digit(s[0]) && is_digit(s[s.len() - 1]));
    crate::text::trim_of_tight(s);
    reveal_strlit("true");
    reveal_strlit("false");
    reveal_strlit("null");
    assert("true"@[0] == 't' && "false"@[0] == 'f' && "null"@[0] == 'n');
    crate::number::digits_are_a_number(n);
}

/// `true`, `false` and `null` stand for themselves.
pub proof fn words_stand_for_values()
    ensures
        literal("true"@) == Ok::<Val, Fault>(Val::Bool(true)),
        literal("false"@) == Ok::<Val, Fault>(Val::Bool(false)),
        literal("null"@) == Ok::<Val, Fault>(Val::Null),
{
    reveal_strlit("true");
    reveal_strlit("false");
    reveal_strlit("null");
    crate::text::trim_of_tight("true"@);
    crate::text::trim_of_tight("false"@);
    crate::text::trim_of_tight("null"@);
    assert("true"@ != "false"@) by {
        assert("true"@.len() != "false"@.len());
    }
    assert("true"@ != "null"@) by {
        assert("true"@[0] != "null"@[0]);
    }
    assert("false"@ != "null"@) by {
        assert("false"@.len() != "null"@.len());
    }
}

/// Whether a relation holds between two integers.
pub open spec fn integers_related(a: int, b: int, rel: Relation) -> bool {
    match rel {
        Relation::Equal => a == b,
        Relation::NotEqual => a != b,
        Relation::AtLeast => a >= b,
        Relation::AtMost => a <= b,
        Relation::Above => a > b,
        Relation::Below => a < b,
    }
}

/// Between integers the relations are those of arithmetic; equality is left out
/// for integers so large that they count as equal to their neighbours.
pub proof fn integers_compare_as_in_arithmetic(a: i64, b: i64, rel: Relation)
    requires
        rel is Equal || rel is NotEqual ==> -1_000_000_000 <= a <= 1_000_000_000 && -1_000_000_000
            <= b <= 1_000_000_000,
    ensures
        related(
            Val::Num(crate::number::Number::Int(a).num()),
            Val::Num(crate::number::Number::Int(b).num()),
            rel,
        ) == Ok::<bool, Fault>(integers_related(a as int, b as int, rel)),
{
    let x = crate::number::Number::Int(a).num()->Finite_0;
    let y = crate::number::Number::Int(b).num()->Finite_0;
    crate::number::integers_scale_to_themselves(a);
    crate::number::integers_scale_to_themselves(b);
}

/// Between texts equality is that of their characters, and the order is decided by
/// the first character on which they differ; a text comes before what it begins.
pub proof fn texts_compare_by_their_characters(
    common: Seq<char>,
    a: Seq<char>,
    b: Seq<char>,
)
    requires
        a.len() > 0 && b.len() > 0 ==> a[0] != b[0],
        a.len() > 0 || b.len() > 0,
    ensures
        ({
            let x = Val::Str(common + a);
            let y = Val::Str(common + b);
            let before = a.len() == 0 || b.len() > 0 && (a[0] as int) < (b[0] as int);
            &&& related(x, y, Relation::Equal) == Ok::<bool, Fault>(false)
            &&& related(x, y, Relation::NotEqual) == Ok::<bool, Fault>(true)
            &&& related(x, y, Relation::Below) == Ok::<bool, Fault>(before)
            &&& related(x, y, Relation::AtMost) == Ok::<bool, Fault>(before)
            &&& related(x, y, Relation::Above) == Ok::<bool, Fault>(!before)
            &&& related(x, y, Relation::AtLeast) == Ok::<bool, Fault>(!before)
            &&& related(x, x, Relation::Equal) == Ok::<bool, Fault>(true)
            &&& related(x, x, Relation::Below) == Ok::<bool, Fault>(false)
            &&& related(x, x, Relation::AtMost) == Ok::<bool, Fault>(true)
        }),
{
    let s = common + a;
    let t = common + b;
    first_difference(common, a, b);
    first_difference(common, b, a);
    crate::text::text_lt_irreflexive(s);
    if s == t {
        assert(s.len() == t.len());
        assert(s[common.len() as int] == a[0]);
        assert(t[common.len() as int] == b[0]);
    }
}

proof fn first_difference(common: Seq<char>, a: Seq<char>, b: Seq<char>)
    requires
        a.len() > 0 && b.len() > 0 ==> a[0] != b[0],
        a.len() > 0 || b.len() > 0,
    ensures
        text_lt(common + a, common + b) == (a.len() == 0 || b.len() > 0 && (a[0] as int) < (
        b[0] as int)),
    decreases common.len(),
{
    if common.len() == 0 {
        assert(common + a =~= a);
        assert(common + b =~= b);
    } else {
        assert((common + a)[0] == common[0]);
        assert((common + b)[0] == common[0]);
        assert((common + a).drop_first() =~= common.drop_first() + a);
        assert((common + b).drop_first() =~= common.drop_first() + b);
        first_difference(common.drop_first(), a, b);
    }
}

/// Values of different types are never equal, and have no order.
pub proof fn different_types_are_different(a: Val, b: Val)
    requires
        a is Bool != b is Bool || a is Num != b is Num || a is Str != b is Str || a is Arr != b is Arr,
    ensures
        related(a, b, Relation::Equal) == Ok::<bool, Fault>(false),
        related(a, b, Relation::NotEqual) == Ok::<bool, Fault>(true),
        related(a, b, Relation::Above) is Err,
        related(a, b, Relation::Below) is Err,
        related(a, b, Relation::AtLeast) is Err,
        related(a, b, Relation::AtMost) is Err,
{
}

} // verus!
