//! Transform expressions: `{...p, key: value, ...}`, or a chain of pipes such as
//! `name | upper | trim`.

use vstd::prelude::*;
use vstd::slice::slice_subrange;
use crate::expr::{
    bool_text, compiles, concat, describe_json, get_cached_regex, get_nested_field, has_prefix,
    is_dotted, is_key, is_quoted, json_description, json_to_expr, json_value, key_char, mismatch,
    nested, nested_field, outcome, parse_fault, parse_quoted_string_inner,
    paths_lead_through_members, pattern_replaced, regex_fault, string_literal, ExprError, ExprValue,
    Fault, Val,
};
use crate::lexer::{
    all_inert, complete, complete_in_parts, find_operator, find_pipe, find_top_level_operator,
    find_top_level_pipe, first_operator, first_pipe, inert, inert_is_complete, lacks_operator,
    lex_at, no_operator_without_its_sign, operator_between, operator_rules, pipe_bounds, plain,
    scan_of_end, scan_of_start, top_level, Escapes, Rules, Scan,
};
use crate::number::{
    json_number, json_number_text, number_text, read_number, read_signed, signed, to_json_number,
    Num, Number,
};
use crate::outside::regex_replaced;
use crate::predicate::{operation, resolve_pipe_stage, stage, MAX_PRED_DEPTH};
use crate::text::{
    begins, chars_of, contains_text, decimal, find, find_text, is_at, is_digit, is_text, occurs_at, pieces,
    push_chars, starts_with, text_of, tight, trim, trim_len, trim_of_padded, trim_of_tight,
    trim_start, trimmed, trimmed_start, white,
};
use crate::value::{
    array_view, field, member, members_are_in_order, ordered_throughout, set_keeps_all_in_order,
    set_then_get, with_member, Document, Json, Object,
};

verus! {

/// The model of the outcome of a transformation.
pub open spec fn document(r: Result<Document, ExprError>) -> Result<Json, Fault> {
    match r {
        Ok(v) => Ok(v@),
        Err(e) => Err(e@),
    }
}

/// The model of an outcome that may be absent.
pub open spec fn optional_document(r: Result<Option<Document>, ExprError>) -> Result<
    Option<Json>,
    Fault,
> {
    match r {
        Ok(Some(v)) => Ok(Some(v@)),
        Ok(None) => Ok(None),
        Err(e) => Err(e@),
    }
}

// ---------------------------------------------------------------------------
// Literals
// ---------------------------------------------------------------------------

/// The document that a literal stands for.
pub open spec fn json_literal(s: Seq<char>) -> Result<Json, Fault> {
    let t = trim(s);
    if t == "true"@ {
        Ok(Json::Bool(true))
    } else if t == "false"@ {
        Ok(Json::Bool(false))
    } else if t == "null"@ {
        Ok(Json::Null)
    } else if string_literal(t) is Some {
        Ok(Json::Str(string_literal(t)->0))
    } else if signed(t) is Some {
        Ok(Json::Num(Number::Int(signed(t)->0 as i64)))
    } else if number_text(t) is Some {
        Ok(Json::Num(json_number(number_text(t)->0)))
    } else {
        Err(Fault::Parse("Cannot parse JSON literal: "@ + t))
    }
}

/// Reads a literal as a document.
pub fn parse_json_literal(s: &[char]) -> (r: Result<Document, ExprError>)
    ensures
        document(r) == json_literal(s@),
{
    let t = trimmed(s);
    if is_text(t, "true") {
        return Ok(Document::Bool(true));
    }
    if is_text(t, "false") {
        return Ok(Document::Bool(false));
    }
    if is_text(t, "null") {
        return Ok(Document::Null);
    }
    if is_quoted(t) {
        if let Some(text) = parse_quoted_string_inner(t) {
            return Ok(Document::String(text));
        }
    }
    if let Some(n) = read_signed(t) {
        return Ok(Document::Number(Number::Int(n)));
    }
    if let Some(n) = read_number(t) {
        return Ok(Document::Number(to_json_number(n)));
    }
    let shown = text_of(t);
    Err(parse_fault(concat("Cannot parse JSON literal: ", shown.as_str())))
}

/// A document as part of a text; arrays and objects have no such form.
pub open spec fn plain_text(v: Json) -> Result<Seq<char>, Fault> {
    match v {
        Json::Str(s) => Ok(s),
        Json::Num(n) => Ok(json_number_text(n)),
        Json::Bool(b) => Ok(bool_text(b)),
        Json::Null => Ok(Seq::empty()),
        _ => Err(Fault::Mismatch("string-convertible"@, describe_json(v))),
    }
}

/// Converts a document to a text for concatenation.
pub fn value_to_string(v: &Document) -> (r: Result<String, ExprError>)
    ensures
        match r {
            Ok(s) => plain_text(v@) == Ok::<Seq<char>, Fault>(s@),
            Err(e) => plain_text(v@) == Err::<Seq<char>, Fault>(e@),
        },
{
    match v {
        Document::String(s) => Ok(s.clone()),
        Document::Number(n) => Ok(n.to_text()),
        Document::Bool(b) => if *b {
            Ok("true".to_owned())
        } else {
            Ok("false".to_owned())
        },
        Document::Null => Ok(String::new()),
        _ => Err(mismatch("string-convertible", json_description(v))),
    }
}

// ---------------------------------------------------------------------------
// Replacement
// ---------------------------------------------------------------------------

/// `s` with `$` and `\` doubled.
pub open spec fn doubled(s: Seq<char>) -> Seq<char>
    decreases s.len(),
{
    if s.len() == 0 {
        s
    } else if s.last() == '$' || s.last() == '\\' {
        doubled(s.drop_last()).push(s.last()).push(s.last())
    } else {
        doubled(s.drop_last()).push(s.last())
    }
}

/// Doubles the characters with a meaning of their own in a replacement.
pub fn escape_regex_replacement(s: &[char]) -> (r: String)
    ensures
        r@ == doubled(s@),
{
    let mut out: Vec<char> = Vec::new();
    let mut i: usize = 0;
    assert(s@.subrange(0, 0) =~= Seq::empty());
    while i < s.len()
        invariant
            i <= s@.len(),
            out@ == doubled(s@.subrange(0, i as int)),
        decreases s@.len() - i,
    {
        assert(s@.subrange(0, i + 1).drop_last() =~= s@.subrange(0, i as int));
        let c: char = s[i];
        out.push(c);
        if c == '$' || c == '\\' {
            out.push(c);
        }
        i = i + 1;
    }
    assert(s@.subrange(0, s@.len() as int) =~= s@);
    text_of(out.as_slice())
}

/// The first position from `i` on where `d` stands and no backslash escapes it.
pub open spec fn delimiter_from(s: Seq<char>, d: char, i: int) -> Option<int>
    decreases s.len() - i,
{
    if i < 0 || i >= s.len() {
        None
    } else if s[i] == '\\' {
        if i + 1 < s.len() {
            delimiter_from(s, d, i + 2)
        } else {
            None
        }
    } else if s[i] == d {
        Some(i)
    } else {
        delimiter_from(s, d, i + 1)
    }
}

/// What stands before and after the first `/` that is not escaped.
pub open spec fn delimited(s: Seq<char>) -> Result<(Seq<char>, Seq<char>), Fault> {
    match delimiter_from(s, '/', 0) {
        Some(i) => Ok((s.subrange(0, i), s.subrange(i + 1, s.len() as int))),
        None => Err(Fault::Parse("Delimiter '/' not found in: "@ + s)),
    }
}

/// Splits a text at the first `/` that is not escaped.
pub fn find_regex_delimiter<'a>(s: &'a [char]) -> (r: Result<(&'a [char], &'a [char]), ExprError>)
    ensures
        match r {
            Ok((a, b)) => delimited(s@) == Ok::<(Seq<char>, Seq<char>), Fault>((a@, b@)),
            Err(e) => delimited(s@) == Err::<(Seq<char>, Seq<char>), Fault>(e@),
        },
{
    let n: usize = s.len();
    let mut i: usize = 0;
    while i < n
        invariant
            n == s@.len(),
            i <= n,
            delimiter_from(s@, '/', 0) == delimiter_from(s@, '/', i as int),
        decreases n - i,
    {
        if s[i] == '\\' {
            i = if n - i < 2 {
                n
            } else {
                i + 2
            };
        } else if s[i] == '/' {
            return Ok((slice_subrange(s, 0, i), slice_subrange(s, i + 1, n)));
        } else {
            i = i + 1;
        }
    }
    let shown = text_of(s);
    Err(parse_fault(concat("Delimiter '/' not found in: ", shown.as_str())))
}

/// The replacement text after the comma of `replace(/pattern/, "text")`.
pub open spec fn replacement_literal(s: Seq<char>) -> Result<Seq<char>, Fault> {
    let t = trim(s);
    let a = if t.len() > 0 && t.last() == ')' {
        t.drop_last()
    } else {
        t
    };
    match json_literal(a) {
        Err(f) => Err(f),
        Ok(Json::Str(w)) => Ok(w),
        Ok(_) => Err(Fault::Parse("replace replacement must be a string: "@ + a)),
    }
}

/// What a `replace` call puts in the place of the matches, as the text behind
/// the pattern says: a literal behind a comma, the text up to the next `/`, or
/// nothing where the call ends.
pub open spec fn replacement(behind: Seq<char>) -> Result<Option<Seq<char>>, Fault> {
    let t = trim_start(behind);
    if t.len() > 0 && t[0] == ',' {
        match replacement_literal(t.subrange(1, t.len() as int)) {
            Err(f) => Err(f),
            Ok(w) => Ok(Some(w)),
        }
    } else if t.len() > 0 && t[0] == ')' {
        Ok(None)
    } else {
        match delimited(behind) {
            Err(f) => Err(f),
            Ok((w, _)) => Ok(Some(w)),
        }
    }
}

/// What a `replace` call makes of `text`.
pub open spec fn replace_outcome(pattern: Seq<char>, behind: Seq<char>, text: Seq<char>) -> Result<
    Json,
    Fault,
> {
    if !compiles(pattern) {
        Err(Fault::Regex(regex_fault(pattern)))
    } else {
        match replacement(behind) {
            Err(f) => Err(f),
            Ok(None) => Ok(Json::Str(text)),
            Ok(Some(w)) => Ok(Json::Str(regex_replaced(pattern, text, doubled(w)))),
        }
    }
}

/// The value of `p.path.replace(...)`.
pub open spec fn replace_value(e: Seq<char>, item: Json) -> Result<Option<Json>, Fault> {
    let rest = e.subrange(2, e.len() as int);
    if !starts_with(e, seq!['p', '.']) {
        Ok(None)
    } else {
        match find_text(rest, ".replace("@) {
            None => Ok(None),
            Some(p) => {
                let args = rest.subrange(p + ".replace("@.len(), rest.len() as int);
                if args.len() == 0 || args[0] != '/' {
                    Ok(None)
                } else {
                    match delimited(args.subrange(1, args.len() as int)) {
                        Err(f) => Err(f),
                        Ok((pattern, behind)) => match nested_field(item, rest.subrange(0, p)) {
                            Err(f) => Err(f),
                            Ok(v) => match v {
                                Json::Str(text) => match replace_outcome(pattern, behind, text) {
                                    Err(f) => Err(f),
                                    Ok(w) => Ok(Some(w)),
                                },
                                _ => if compiles(pattern) {
                                    Err(Fault::Mismatch("string"@, describe_json(v)))
                                } else {
                                    Err(Fault::Regex(regex_fault(pattern)))
                                },
                            },
                        },
                    }
                }
            },
        }
    }
}

fn read_replacement(s: &[char]) -> (r: Result<String, ExprError>)
    ensures
        match r {
            Ok(w) => replacement_literal(s@) == Ok::<Seq<char>, Fault>(w@),
            Err(e) => replacement_literal(s@) == Err::<Seq<char>, Fault>(e@),
        },
{
    let t = trimmed(s);
    let a = if t.len() > 0 && t[t.len() - 1] == ')' {
        let u = slice_subrange(t, 0, t.len() - 1);
        assert(u@ =~= t@.drop_last());
        u
    } else {
        t
    };
    match parse_json_literal(a) {
        Err(e) => Err(e),
        Ok(Document::String(w)) => Ok(w),
        Ok(_) => {
            let shown = text_of(a);
            Err(parse_fault(concat("replace replacement must be a string: ", shown.as_str())))
        },
    }
}

fn find_replacement(behind: &[char]) -> (r: Result<Option<Vec<char>>, ExprError>)
    ensures
        match r {
            Ok(Some(w)) => replacement(behind@) == Ok::<Option<Seq<char>>, Fault>(Some(w@)),
            Ok(None) => replacement(behind@) == Ok::<Option<Seq<char>>, Fault>(None),
            Err(e) => replacement(behind@) == Err::<Option<Seq<char>>, Fault>(e@),
        },
{
    let t = trimmed_start(behind);
    if t.len() > 0 && t[0] == ',' {
        match read_replacement(slice_subrange(t, 1, t.len())) {
            Err(e) => Err(e),
            Ok(w) => Ok(Some(chars_of(w.as_str()))),
        }
    } else if t.len() > 0 && t[0] == ')' {
        Ok(None)
    } else {
        match find_regex_delimiter(behind) {
            Err(e) => Err(e),
            Ok((w, _)) => {
                let mut out: Vec<char> = Vec::new();
                push_chars(&mut out, w);
                assert(out@ =~= w@);
                Ok(Some(out))
            },
        }
    }
}

fn finish_replace(pattern: &[char], behind: &[char], text: &str) -> (r: Result<Document, ExprError>)
    ensures
        document(r) == replace_outcome(pattern@, behind@, text@),
{
    let pat = text_of(pattern);
    let found = find_replacement(behind);
    if let Ok(Some(w)) = &found {
        let escaped = escape_regex_replacement(w.as_slice());
        return match pattern_replaced(pat.as_str(), text, escaped.as_str()) {
            Ok(t) => Ok(Document::String(t)),
            Err(m) => Err(ExprError::RegexError(m)),
        };
    }
    match get_cached_regex(pat.as_str()) {
        Err(m) => Err(ExprError::RegexError(m)),
        Ok(_) => match found {
            Err(e) => Err(e),
            Ok(_) => Ok(Document::String(text.to_owned())),
        },
    }
}

/// Evaluates `p.path.replace(/pattern/replacement/)` and
/// `p.path.replace(/pattern/, "replacement")`.
pub fn eval_replace_call(e: &[char], item: &Document) -> (r: Result<Option<Document>, ExprError>)
    ensures
        optional_document(r) == replace_value(e@, item@),
{
    if !has_prefix(e) {
        return Ok(None);
    }
    let rest = slice_subrange(e, 2, e.len());
    let name = chars_of(".replace(");
    match find(rest, name.as_slice()) {
        None => Ok(None),
        Some(p) => {
            let n: usize = rest.len();
            let path = slice_subrange(rest, 0, p);
            let args = slice_subrange(rest, p + name.len(), n);
            if args.len() == 0 || args[0] != '/' {
                return Ok(None);
            }
            match find_regex_delimiter(slice_subrange(args, 1, args.len())) {
                Err(f) => Err(f),
                Ok((pattern, behind)) => match get_nested_field(item, path) {
                    Err(f) => Err(f),
                    Ok(v) => match v {
                        Document::String(text) => match finish_replace(
                            pattern,
                            behind,
                            text.as_str(),
                        ) {
                            Ok(w) => Ok(Some(w)),
                            Err(f) => Err(f),
                        },
                        _ => {
                            let pat = text_of(pattern);
                            match get_cached_regex(pat.as_str()) {
                                Ok(_) => Err(mismatch("string", json_description(v))),
                                Err(m) => Err(ExprError::RegexError(m)),
                            }
                        },
                    },
                },
            }
        },
    }
}

// ---------------------------------------------------------------------------
// Values
// ---------------------------------------------------------------------------

/// The message for a value that is nested too deeply.
pub open spec fn transform_too_deep() -> Seq<char> {
    "Transform expression recursion depth exceeded limit (64). Check for excessively nested string concatenation or field access."@
}

/// The value of an expression without concatenation.
pub open spec fn single_value(e: Seq<char>, item: Json) -> Result<Json, Fault> {
    match replace_value(e, item) {
        Err(f) => Err(f),
        Ok(Some(v)) => Ok(v),
        Ok(None) => if starts_with(e, seq!['p', '.']) {
            match nested_field(item, trim(e.subrange(2, e.len() as int))) {
                Ok(v) => Ok(v),
                Err(_) => Ok(Json::Null),
            }
        } else {
            json_literal(e)
        },
    }
}

/// The concatenation of two documents.
pub open spec fn joined(a: Result<Json, Fault>, b: Result<Json, Fault>) -> Result<Json, Fault> {
    match a {
        Err(f) => Err(f),
        Ok(v) => match b {
            Err(f) => Err(f),
            Ok(w) => match plain_text(v) {
                Err(f) => Err(f),
                Ok(s) => match plain_text(w) {
                    Err(f) => Err(f),
                    Ok(t) => Ok(Json::Str(s + t)),
                },
            },
        },
    }
}

/// A value behind the stages of pipes.
pub open spec fn through(v: Val, s: Seq<char>) -> Result<Val, Fault>
    decreases s.len(),
{
    let e = trim(s);
    match find_pipe(e) {
        Some(p) => {
            proof {
                trim_len(s);
                pipe_bounds(e, 0);
            }
            match stage(v, e.subrange(0, p)) {
                Err(f) => Err(f),
                Ok(w) => through(w, e.subrange(p + 1, e.len() as int)),
            }
        },
        None => stage(v, e),
    }
}

/// A number of the expression language as a number of a document: an integer
/// where it is one.
pub open spec fn plain_number(n: Num) -> Number {
    match n {
        Num::Finite(d) => if d.exp == 0 && d.digits <= i64::MAX {
            Number::Int(
                if d.neg {
                    -d.digits
                } else {
                    d.digits as int
                } as i64,
            )
        } else {
            json_number(n)
        },
        _ => json_number(n),
    }
}

/// A value of the expression language as a document.
pub open spec fn value_json(v: Val) -> Json {
    match v {
        Val::Bool(b) => Json::Bool(b),
        Val::Num(n) => Json::Num(plain_number(n)),
        Val::Str(s) => Json::Str(s),
        Val::Arr(a) => Json::Arr(a),
        Val::Null => Json::Null,
    }
}

/// What the stages behind a pipe make of what stands before it: the field of
/// that name, or else the value of the expression.
pub open spec fn refined(
    source: Seq<char>,
    value: Result<Json, Fault>,
    item: Json,
    stages: Seq<char>,
) -> Result<Json, Fault> {
    let start = match field(item, source) {
        Some(v) => Ok(v),
        None => value,
    };
    match start {
        Err(f) => Err(f),
        Ok(v) => match json_value(v) {
            Err(f) => Err(f),
            Ok(x) => match through(x, stages) {
                Err(f) => Err(f),
                Ok(y) => Ok(value_json(y)),
            },
        },
    }
}

/// The value of an expression, `depth` levels down: `|` hands a value on to a
/// function, and `+` concatenates.
pub open spec fn transform_value(s: Seq<char>, item: Json, depth: int) -> Result<Json, Fault>
    decreases MAX_PRED_DEPTH + 1 - depth,
{
    let e = trim(s);
    if depth > MAX_PRED_DEPTH {
        Err(Fault::Parse(transform_too_deep()))
    } else {
        match find_pipe(e) {
            Some(p) => {
                let source = trim(e.subrange(0, p));
                refined(
                    source,
                    transform_value(source, item, depth + 1),
                    item,
                    e.subrange(p + 1, e.len() as int),
                )
            },
            None => match find_operator(e, seq!['+']) {
                Some(p) => joined(
                    transform_value(trim(e.subrange(0, p)), item, depth + 1),
                    transform_value(trim(e.subrange(p + 1, e.len() as int)), item, depth + 1),
                ),
                None => single_value(e, item),
            },
        }
    }
}

/// Hands a value on to the stages of pipes.
fn pass_through(v: &ExprValue, s: &[char]) -> (r: Result<ExprValue, ExprError>)
    ensures
        outcome(r) == through(v@, s@),
    decreases s@.len(),
{
    let e = trimmed(s);
    match find_top_level_pipe(e) {
        Some(p) => {
            let n: usize = e.len();
            match resolve_pipe_stage(v, slice_subrange(e, 0, p)) {
                Err(f) => Err(f),
                Ok(w) => pass_through(&w, slice_subrange(e, p + 1, n)),
            }
        },
        None => resolve_pipe_stage(v, e),
    }
}

fn to_plain_number(n: Num) -> (r: Number)
    ensures
        r == plain_number(n),
{
    match n {
        Num::Finite(d) => if d.exp == 0 && d.digits <= 0x7FFF_FFFF_FFFF_FFFF {
            let size: i64 = d.digits as i64;
            Number::Int(
                if d.neg {
                    -size
                } else {
                    size
                },
            )
        } else {
            to_json_number(n)
        },
        _ => to_json_number(n),
    }
}

fn to_document(v: ExprValue) -> (r: Document)
    ensures
        r@ == value_json(v@),
{
    match v {
        ExprValue::Bool(b) => Document::Bool(b),
        ExprValue::Number(n) => Document::Number(to_plain_number(n)),
        ExprValue::String(s) => Document::String(s),
        ExprValue::Array(items) => {
            proof {
                array_view(items);
            }
            Document::Array(items)
        },
        ExprValue::Null => Document::Null,
    }
}

/// Hands a document on to the stages of pipes.
fn refine(v: &Document, stages: &[char]) -> (r: Result<Document, ExprError>)
    ensures
        document(r) == (match json_value(v@) {
            Err(f) => Err::<Json, Fault>(f),
            Ok(x) => match through(x, stages@) {
                Err(f) => Err(f),
                Ok(y) => Ok(value_json(y)),
            },
        }),
{
    match json_to_expr(v) {
        Err(f) => Err(f),
        Ok(x) => match pass_through(&x, stages) {
            Err(f) => Err(f),
            Ok(y) => Ok(to_document(y)),
        },
    }
}

fn resolve_single(e: &[char], item: &Document) -> (r: Result<Document, ExprError>)
    ensures
        document(r) == single_value(e@, item@),
{
    match eval_replace_call(e, item) {
        Err(f) => Err(f),
        Ok(Some(v)) => Ok(v),
        Ok(None) => if has_prefix(e) {
            match get_nested_field(item, trimmed(slice_subrange(e, 2, e.len()))) {
                Ok(v) => Ok(v.clone()),
                Err(_) => Ok(Document::Null),
            }
        } else {
            parse_json_literal(e)
        },
    }
}

/// Evaluates the value of a pair, `depth` levels down.
pub fn resolve_transform_value_inner(s: &[char], item: &Document, depth: u32) -> (r: Result<
    Document,
    ExprError,
>)
    requires
        depth <= MAX_PRED_DEPTH + 1,
    ensures
        document(r) == transform_value(s@, item@, depth as int),
    decreases MAX_PRED_DEPTH + 1 - depth,
{
    if depth > MAX_PRED_DEPTH {
        return Err(
            parse_fault(
                "Transform expression recursion depth exceeded limit (64). Check for excessively nested string concatenation or field access.".to_owned(),
            ),
        );
    }
    let e = trimmed(s);
    let n: usize = e.len();
    if let Some(p) = find_top_level_pipe(e) {
        let source = trimmed(slice_subrange(e, 0, p));
        let stages = slice_subrange(e, p + 1, n);
        let name = text_of(source);
        return match item.get(name.as_str()) {
            Some(v) => refine(v, stages),
            None => match resolve_transform_value_inner(source, item, depth + 1) {
                Err(f) => Err(f),
                Ok(v) => refine(&v, stages),
            },
        };
    }
    let plus: [char; 1] = ['+'];
    assert(plus@ =~= seq!['+']);
    match find_top_level_operator(e, &plus) {
        None => resolve_single(e, item),
        Some(p) => {
            let left = resolve_transform_value_inner(
                trimmed(slice_subrange(e, 0, p)),
                item,
                depth + 1,
            );
            let a = match left {
                Err(f) => return Err(f),
                Ok(a) => a,
            };
            let right = resolve_transform_value_inner(
                trimmed(slice_subrange(e, p + 1, n)),
                item,
                depth + 1,
            );
            let b = match right {
                Err(f) => return Err(f),
                Ok(b) => b,
            };
            let mut text = match value_to_string(&a) {
                Err(f) => return Err(f),
                Ok(t) => t,
            };
            match value_to_string(&b) {
                Err(f) => Err(f),
                Ok(t) => {
                    text.append(t.as_str());
                    Ok(Document::String(text))
                },
            }
        },
    }
}

// ---------------------------------------------------------------------------
// Pairs
// ---------------------------------------------------------------------------

/// All kinds of brackets, no escapes.
pub open spec fn pair_rules() -> Rules {
    Rules { all_brackets: true, escapes: Escapes::Never }
}

/// The parts between the commas outside brackets and strings, from position
/// `i` on, of which the first began at `start`.
pub open spec fn parts_from(s: Seq<char>, start: int, i: int) -> Seq<Seq<char>>
    decreases s.len() - i,
{
    if i < 0 || i >= s.len() {
        seq![s.subrange(start, s.len() as int)]
    } else if top_level(lex_at(pair_rules(), s, i)) && s[i] == ',' {
        seq![s.subrange(start, i)] + parts_from(s, i + 1, i + 1)
    } else {
        parts_from(s, start, i + 1)
    }
}

/// `s` without the characters `c` at its beginning.
pub open spec fn strip_front(s: Seq<char>, c: char) -> Seq<char>
    decreases s.len(),
{
    if s.len() > 0 && s[0] == c {
        strip_front(s.subrange(1, s.len() as int), c)
    } else {
        s
    }
}

/// `s` without the characters `c` at its end.
pub open spec fn strip_back(s: Seq<char>, c: char) -> Seq<char>
    decreases s.len(),
{
    if s.len() > 0 && s.last() == c {
        strip_back(s.drop_last(), c)
    } else {
        s
    }
}

/// `s` without the characters `c` at either end.
pub open spec fn strip_both(s: Seq<char>, c: char) -> Seq<char> {
    strip_back(strip_front(s, c), c)
}

/// The first colon from `i` on that stands outside strings.
pub open spec fn colon_from(s: Seq<char>, i: int) -> Option<int>
    decreases s.len() - i,
{
    if i < 0 || i >= s.len() {
        None
    } else if plain(lex_at(pair_rules(), s, i)) && s[i] == ':' {
        Some(i)
    } else {
        colon_from(s, i + 1)
    }
}

/// The key and the value of a pair.
pub open spec fn pair(s: Seq<char>) -> Result<(Seq<char>, Seq<char>), Fault> {
    match colon_from(s, 0) {
        Some(i) => Ok(
            (
                strip_both(strip_both(trim(s.subrange(0, i)), '"'), '\''),
                trim(s.subrange(i + 1, s.len() as int)),
            ),
        ),
        None => Err(Fault::Parse("Invalid key-value pair: "@ + s)),
    }
}

/// The pairs among the parts; blank parts and spreads are none.
pub open spec fn pairs_of(parts: Seq<Seq<char>>) -> Result<Seq<(Seq<char>, Seq<char>)>, Fault>
    decreases parts.len(),
{
    if parts.len() == 0 {
        Ok(Seq::empty())
    } else {
        let t = trim(parts.last());
        match pairs_of(parts.drop_last()) {
            Err(f) => Err(f),
            Ok(v) => if t.len() == 0 || starts_with(t, "..."@) {
                Ok(v)
            } else {
                match pair(t) {
                    Err(f) => Err(f),
                    Ok(p) => Ok(v.push(p)),
                }
            },
        }
    }
}

/// The pairs of an object expression.
pub open spec fn object_pairs(body: Seq<char>) -> Result<Seq<(Seq<char>, Seq<char>)>, Fault> {
    pairs_of(parts_from(body, 0, 0))
}

/// The models of a list of pairs.
pub open spec fn pair_views(v: Seq<(String, String)>) -> Seq<(Seq<char>, Seq<char>)> {
    Seq::new(v.len(), |i: int| (v[i].0@, v[i].1@))
}

fn stripped<'a>(s: &'a [char], c: char) -> (r: &'a [char])
    ensures
        r@ == strip_both(s@, c),
{
    let n: usize = s.len();
    let mut a: usize = 0;
    assert(s@.subrange(0, s@.len() as int) =~= s@);
    while a < n && s[a] == c
        invariant
            n == s@.len(),
            a <= n,
            strip_front(s@, c) == strip_front(s@.subrange(a as int, n as int), c),
        decreases n - a,
    {
        assert(s@.subrange(a as int, n as int).subrange(1, n - a) =~= s@.subrange(
            a + 1,
            n as int,
        ));
        a = a + 1;
    }
    let ghost front = s@.subrange(a as int, n as int);
    assert(strip_front(s@, c) == front);
    let mut b: usize = n;
    while b > a && s[b - 1] == c
        invariant
            n == s@.len(),
            a <= b <= n,
            strip_back(front, c) == strip_back(s@.subrange(a as int, b as int), c),
        decreases b,
    {
        assert(s@.subrange(a as int, b as int).drop_last() =~= s@.subrange(a as int, b - 1));
        b = b - 1;
    }
    slice_subrange(s, a, b)
}

/// Reads a pair `key: value`.
pub fn parse_kv_pair(s: &[char]) -> (r: Result<(String, String), ExprError>)
    ensures
        match r {
            Ok((k, v)) => pair(s@) == Ok::<(Seq<char>, Seq<char>), Fault>((k@, v@)),
            Err(e) => pair(s@) == Err::<(Seq<char>, Seq<char>), Fault>(e@),
        },
{
    let rules = Rules { all_brackets: true, escapes: Escapes::Never };
    let n: usize = s.len();
    let mut st = Scan::start();
    let mut i: usize = 0;
    while i < n
        invariant
            n == s@.len(),
            i <= n,
            rules == pair_rules(),
            st@ == lex_at(rules, s@, i as int),
            st.within(i as int),
            colon_from(s@, 0) == colon_from(s@, i as int),
        decreases n - i,
    {
        if st.is_plain() && s[i] == ':' {
            let key = stripped(stripped(trimmed(slice_subrange(s, 0, i)), '"'), '\'');
            let value = trimmed(slice_subrange(s, i + 1, n));
            return Ok((text_of(key), text_of(value)));
        }
        st = st.next(rules, s[i], i);
        i = i + 1;
    }
    let shown = text_of(s);
    Err(parse_fault(concat("Invalid key-value pair: ", shown.as_str())))
}

fn split_parts<'a>(s: &'a [char]) -> (r: Vec<&'a [char]>)
    ensures
        pieces(r@) == parts_from(s@, 0, 0),
{
    let rules = Rules { all_brackets: true, escapes: Escapes::Never };
    let n: usize = s.len();
    let mut out: Vec<&'a [char]> = Vec::new();
    let mut st = Scan::start();
    let mut start: usize = 0;
    let mut i: usize = 0;
    assert(pieces(out@) + parts_from(s@, 0, 0) =~= parts_from(s@, 0, 0));
    while i < n
        invariant
            n == s@.len(),
            start <= i <= n,
            rules == pair_rules(),
            st@ == lex_at(rules, s@, i as int),
            st.within(i as int),
            pieces(out@) + parts_from(s@, start as int, i as int) == parts_from(s@, 0, 0),
        decreases n - i,
    {
        let c: char = s[i];
        if st.is_top() && c == ',' {
            let ghost before = pieces(out@);
            let ghost next = parts_from(s@, i + 1, i + 1);
            let part = slice_subrange(s, start, i);
            out.push(part);
            assert(pieces(out@) =~= before + seq![part@]);
            assert(pieces(out@) + next =~= before + (seq![part@] + next));
            start = i + 1;
        }
        st = st.next(rules, c, i);
        i = i + 1;
    }
    let ghost before = pieces(out@);
    let part = slice_subrange(s, start, n);
    out.push(part);
    assert(pieces(out@) =~= before + seq![part@]);
    out
}

/// Splits the pairs of an object expression.
pub fn split_object_pairs(body: &[char]) -> (r: Result<Vec<(String, String)>, ExprError>)
    ensures
        match r {
            Ok(v) => object_pairs(body@) == Ok::<Seq<(Seq<char>, Seq<char>)>, Fault>(
                pair_views(v@),
            ),
            Err(e) => object_pairs(body@) == Err::<Seq<(Seq<char>, Seq<char>)>, Fault>(e@),
        },
{
    let parts = split_parts(body);
    let dots = chars_of("...");
    let ghost all = pieces(parts@);
    let mut out: Vec<(String, String)> = Vec::new();
    let mut i: usize = 0;
    assert(all.subrange(0, 0) =~= Seq::empty());
    assert(pair_views(out@) =~= Seq::empty());
    while i < parts.len()
        invariant
            i <= parts@.len(),
            all == pieces(parts@),
            all == parts_from(body@, 0, 0),
            dots@ == "..."@,
            pairs_of(all.subrange(0, i as int)) == Ok::<Seq<(Seq<char>, Seq<char>)>, Fault>(
                pair_views(out@),
            ),
        decreases parts@.len() - i,
    {
        let ghost done = all.subrange(0, i + 1);
        assert(done.drop_last() =~= all.subrange(0, i as int));
        assert(done.last() == parts@[i as int]@);
        let t = trimmed(parts[i]);
        if t.len() > 0 && !begins(t, dots.as_slice()) {
            match parse_kv_pair(t) {
                Err(e) => {
                    proof {
                        pairs_fail(all, i + 1, e@);
                    }
                    return Err(e);
                },
                Ok(p) => {
                    let ghost before = pair_views(out@);
                    let ghost q = (p.0@, p.1@);
                    out.push(p);
                    assert(pair_views(out@) =~= before.push(q));
                },
            }
        }
        i = i + 1;
    }
    assert(all.subrange(0, all.len() as int) =~= all);
    Ok(out)
}

/// A fault among the first parts is the fault of all of them.
proof fn pairs_fail(parts: Seq<Seq<char>>, n: int, f: Fault)
    requires
        0 <= n <= parts.len(),
        pairs_of(parts.subrange(0, n)) == Err::<Seq<(Seq<char>, Seq<char>)>, Fault>(f),
    ensures
        pairs_of(parts) == Err::<Seq<(Seq<char>, Seq<char>)>, Fault>(f),
    decreases parts.len(),
{
    if n == parts.len() {
        assert(parts.subrange(0, n) =~= parts);
    } else {
        assert(parts.drop_last().subrange(0, n) =~= parts.subrange(0, n));
        pairs_fail(parts.drop_last(), n, f);
    }
}

// ---------------------------------------------------------------------------
// Transformation
// ---------------------------------------------------------------------------

/// Whether a character is an ASCII letter.
pub open spec fn ascii_letter(c: char) -> bool {
    'a' <= c <= 'z' || 'A' <= c <= 'Z'
}

/// Whether a character is an ASCII letter or digit.
pub open spec fn ascii_word(c: char) -> bool {
    ascii_letter(c) || '0' <= c <= '9'
}

/// Whether `...p` stands at `i` as a word of its own.
pub open spec fn spread_at(s: Seq<char>, i: int) -> bool {
    &&& occurs_at(s, seq!['.', '.', '.', 'p'], i)
    &&& i == 0 || !ascii_letter(s[i - 1])
    &&& i + 4 >= s.len() || !ascii_word(s[i + 4])
}

/// Whether the body of an object expression spreads the item.
pub open spec fn spreads(s: Seq<char>) -> bool {
    exists|i: int| 0 <= i < s.len() && #[trigger] spread_at(s, i)
}

/// The object that the first `n` pairs make of `base`.
pub open spec fn assigned(
    base: Json,
    pairs: Seq<(Seq<char>, Seq<char>)>,
    item: Json,
    n: int,
) -> Result<Json, Fault>
    decreases n,
{
    if n <= 0 {
        Ok(base)
    } else {
        match assigned(base, pairs, item, n - 1) {
            Err(f) => Err(f),
            Ok(v) => match transform_value(pairs[n - 1].1, item, 0) {
                Err(f) => Err(f),
                Ok(w) => match v {
                    Json::Obj(o) => Ok(Json::Obj(with_member(o, pairs[n - 1].0, w))),
                    _ => Ok(v),
                },
            },
        }
    }
}

/// What a transform expression makes of an item: the object that is written out,
/// or the value that comes out of a chain of pipes.
pub open spec fn transformed(s: Seq<char>, item: Json) -> Result<Json, Fault> {
    let e = trim(s);
    if e.len() == 0 || e[0] != '{' || e.last() != '}' {
        if find_pipe(e) is Some {
            transform_value(e, item, 0)
        } else {
            Err(Fault::Parse("Transform expression must be an object {...}, got: "@ + e))
        }
    } else {
        let body = trim(e.subrange(1, e.len() - 1));
        let base = if spreads(body) {
            item
        } else {
            Json::Obj(Seq::empty())
        };
        match object_pairs(body) {
            Err(f) => Err(f),
            Ok(pairs) => assigned(base, pairs, item, pairs.len() as int),
        }
    }
}

fn has_spread(s: &[char]) -> (r: bool)
    ensures
        r == spreads(s@),
{
    let n: usize = s.len();
    let dots: [char; 4] = ['.', '.', '.', 'p'];
    assert(dots@ =~= seq!['.', '.', '.', 'p']);
    let mut i: usize = 0;
    while i < n
        invariant
            n == s@.len(),
            i <= n,
            dots@ == seq!['.', '.', '.', 'p'],
            forall|j: int| 0 <= j < i ==> !#[trigger] spread_at(s@, j),
        decreases n - i,
    {
        if is_at(s, &dots, i) {
            let before_ok: bool = i == 0 || !is_letter(s[i - 1]);
            let after_ok: bool = n - i <= 4 || !is_word_letter(s[i + 4]);
            if before_ok && after_ok {
                assert(spread_at(s@, i as int));
                return true;
            }
        }
        i = i + 1;
    }
    false
}

fn is_letter(c: char) -> (r: bool)
    ensures
        r == ascii_letter(c),
{
    ('a' <= c && c <= 'z') || ('A' <= c && c <= 'Z')
}

fn is_word_letter(c: char) -> (r: bool)
    ensures
        r == ascii_word(c),
{
    is_letter(c) || ('0' <= c && c <= '9')
}

proof fn assigned_fails(
    base: Json,
    pairs: Seq<(Seq<char>, Seq<char>)>,
    item: Json,
    n: int,
    m: int,
    f: Fault,
)
    requires
        0 <= n <= m,
        assigned(base, pairs, item, n) == Err::<Json, Fault>(f),
    ensures
        assigned(base, pairs, item, m) == Err::<Json, Fault>(f),
    decreases m,
{
    if n < m {
        assigned_fails(base, pairs, item, n, m - 1, f);
    }
}

/// Applies a transform expression to an item.
pub fn evaluate_transform_expr(expr: &str, item: &Document) -> (r: Result<Document, ExprError>)
    ensures
        document(r) == transformed(expr@, item@),
{
    let chars = chars_of(expr);
    let e = trimmed(chars.as_slice());
    if e.len() == 0 || e[0] != '{' || e[e.len() - 1] != '}' {
        if find_top_level_pipe(e).is_some() {
            return resolve_transform_value_inner(e, item, 0);
        }
        let shown = text_of(e);
        return Err(
            parse_fault(
                concat("Transform expression must be an object {...}, got: ", shown.as_str()),
            ),
        );
    }
    let body = trimmed(slice_subrange(e, 1, e.len() - 1));
    let mut result: Document = if has_spread(body) {
        item.clone()
    } else {
        Document::Object(Object::new())
    };
    let ghost base = result@;
    match split_object_pairs(body) {
        Err(f) => Err(f),
        Ok(pairs) => {
            let ghost all = pair_views(pairs@);
            let mut i: usize = 0;
            while i < pairs.len()
                invariant
                    i <= pairs@.len(),
                    all == pair_views(pairs@),
                    transformed(expr@, item@) == assigned(base, all, item@, all.len() as int),
                    assigned(base, all, item@, i as int) == Ok::<Json, Fault>(result@),
                decreases pairs@.len() - i,
            {
                let value = chars_of(pairs[i].1.as_str());
                assert(all[i as int] == (pairs@[i as int].0@, pairs@[i as int].1@));
                match resolve_transform_value_inner(value.as_slice(), item, 0) {
                    Err(f) => {
                        proof {
                            assigned_fails(base, all, item@, i + 1, all.len() as int, f@);
                        }
                        return Err(f);
                    },
                    Ok(w) => {
                        let key = pairs[i].0.clone();
                        if let Some(obj) = result.as_object_mut() {
                            obj.insert(key, w);
                        }
                    },
                }
                i = i + 1;
            }
            Ok(result)
        },
    }
}

// ---------------------------------------------------------------------------
// Laws
// ---------------------------------------------------------------------------

/// An expression that only spreads the item gives the item back.
pub proof fn spread_alone_copies(item: Json)
    ensures
        transformed("{...p}"@, item) == Ok::<Json, Fault>(item),
{
    reveal_strlit("{...p}");
    reveal_strlit("...");
    let s = "{...p}"@;
    let body = s.subrange(1, s.len() - 1);
    assert(body =~= seq!['.', '.', '.', 'p']);
    assert(trim(s) =~= s);
    assert(trim(body) =~= body);
    assert(body.subrange(0, 4) =~= seq!['.', '.', '.', 'p']);
    assert(spread_at(body, 0));
    reveal_with_fuel(parts_from, 5);
    let parts = parts_from(body, 0, 0);
    assert(parts =~= seq![body.subrange(0, 4)]);
    assert(starts_with(body, "..."@)) by {
        assert(body.subrange(0, 3) =~= "..."@);
    }
    assert(parts.drop_last() =~= Seq::empty());
    reveal_with_fuel(pairs_of, 2);
    assert(pairs_of(parts) == Ok::<Seq<(Seq<char>, Seq<char>)>, Fault>(Seq::empty()));
}

proof fn nested_in_order(item: Json, keys: Seq<Seq<char>>)
    requires
        ordered_throughout(item),
    ensures
        nested(item, keys) matches Some(v) ==> ordered_throughout(v),
    decreases keys.len(),
{
    if keys.len() > 0 {
        if let Json::Obj(o) = item {
            members_are_in_order(o, keys[0]);
            if let Some(v) = field(item, keys[0]) {
                nested_in_order(v, keys.drop_first());
            }
        }
    }
}

proof fn stages_give_no_array(v: Val, s: Seq<char>)
    ensures
        through(v, s) matches Ok(w) ==> !(w is Arr),
    decreases s.len(),
{
    let e = trim(s);
    if let Some(p) = find_pipe(e) {
        trim_len(s);
        pipe_bounds(e, 0);
        if let Ok(w) = stage(v, e.subrange(0, p)) {
            stages_give_no_array(w, e.subrange(p + 1, e.len() as int));
        }
    }
}

proof fn value_in_order(s: Seq<char>, item: Json)
    requires
        ordered_throughout(item),
    ensures
        transform_value(s, item, 0) matches Ok(v) ==> ordered_throughout(v),
{
    let e = trim(s);
    if let Some(p) = find_pipe(e) {
        let source = trim(e.subrange(0, p));
        let stages = e.subrange(p + 1, e.len() as int);
        let start = match field(item, source) {
            Some(v) => Ok(v),
            None => transform_value(source, item, 1),
        };
        if let Ok(v) = start {
            if let Ok(x) = json_value(v) {
                stages_give_no_array(x, stages);
            }
        }
    } else if find_operator(e, seq!['+']) is None && starts_with(e, seq!['p', '.']) {
        let path = trim(e.subrange(2, e.len() as int));
        nested_in_order(item, crate::text::split(path, '.'));
    }
}

proof fn assigned_in_order(
    base: Json,
    pairs: Seq<(Seq<char>, Seq<char>)>,
    item: Json,
    n: int,
)
    requires
        ordered_throughout(base),
        ordered_throughout(item),
    ensures
        assigned(base, pairs, item, n) matches Ok(v) ==> ordered_throughout(v),
    decreases n,
{
    if n > 0 {
        assigned_in_order(base, pairs, item, n - 1);
        value_in_order(pairs[n - 1].1, item);
        if let Ok(Json::Obj(o)) = assigned(base, pairs, item, n - 1) {
            if let Ok(w) = transform_value(pairs[n - 1].1, item, 0) {
                set_keeps_all_in_order(o, pairs[n - 1].0, w);
            }
        }
    }
}

/// What an expression makes of an item in order is in order.
pub proof fn transform_keeps_all_in_order(s: Seq<char>, item: Json)
    requires
        ordered_throughout(item),
    ensures
        transformed(s, item) matches Ok(v) ==> ordered_throughout(v),
{
    let e = trim(s);
    let body = trim(e.subrange(1, e.len() - 1));
    value_in_order(e, item);
    if let Ok(pairs) = object_pairs(body) {
        assigned_in_order(item, pairs, item, pairs.len() as int);
        assigned_in_order(Json::Obj(Seq::empty()), pairs, item, pairs.len() as int);
    }
}

/// A reference to a member of the item.
pub open spec fn reference(path: Seq<char>) -> Seq<char> {
    "p."@ + path
}

/// Names with dots between them.
pub open spec fn dotted(keys: Seq<Seq<char>>) -> Seq<char>
    decreases keys.len(),
{
    if keys.len() <= 1 {
        if keys.len() == 0 {
            Seq::empty()
        } else {
            keys[0]
        }
    } else {
        keys[0] + "."@ + dotted(keys.drop_first())
    }
}

#[verifier::rlimit(40)]
proof fn reference_is_single(path: Seq<char>, item: Json, depth: int)
    requires
        is_dotted(path),
        depth <= MAX_PRED_DEPTH,
    ensures
        transform_value(reference(path), item, depth) == (match nested_field(item, path) {
            Ok(v) => Ok::<Json, Fault>(v),
            Err(_) => Ok(Json::Null),
        }),
{
    reveal_strlit("p.");
    reveal_strlit(".replace(");
    let e = reference(path);
    assert("p."@ =~= seq!['p', '.']);
    assert(path.len() > 0);
    assert(e[0] == 'p' && e[1] == '.');
    assert(e.last() == path.last());
    assert(key_char(path[path.len() - 1]) || path[path.len() - 1] == '.');
    trim_of_tight(e);
    assert forall|i: int| 0 <= i < e.len() implies e[i] != '|' && e[i] != '+' && e[i] != '(' by {
        if i >= 2 {
            assert(e[i] == path[i - 2]);
        }
    }
    first_pipe(e);
    no_operator_without_its_sign(e, seq!['+']);
    let rest = e.subrange(2, e.len() as int);
    assert(rest =~= path);
    assert(key_char(path[0]) || path[0] == '.');
    trim_of_tight(path);
    assert(e.subrange(0, 2) =~= seq!['p', '.']);
    crate::text::first_occurrence(rest, ".replace("@);
    if let Some(p) = find_text(rest, ".replace("@) {
        crate::text::find_from_bounds(rest, ".replace("@, 0);
        let w = rest.subrange(p, p + ".replace("@.len());
        assert(w[8] == '(');
        assert(rest[p + 8] == '(');
        assert(e[p + 10] == '(');
    }
}

/// A name behind `p.` reads the member of that name, and null where the item has
/// none; a name, a dot and a path read the path in the member of that name.
#[verifier::rlimit(40)]
pub proof fn references_lead_through_members(
    item: Json,
    k: Seq<char>,
    rest: Seq<char>,
    depth: int,
)
    requires
        is_key(k),
        is_dotted(rest),
        depth <= MAX_PRED_DEPTH,
    ensures
        transform_value(reference(k), item, depth) == Ok::<Json, Fault>(
            match field(item, k) {
                Some(v) => v,
                None => Json::Null,
            },
        ),
        transform_value(reference(k + "."@ + rest), item, depth) == (match field(item, k) {
            Some(v) => transform_value(reference(rest), v, depth),
            None => Ok(Json::Null),
        }),
{
    reveal_strlit(".");
    assert("."@ =~= seq!['.']);
    let whole = k + seq!['.'] + rest;
    assert forall|i: int| 0 <= i < whole.len() implies key_char(#[trigger] whole[i]) || whole[i]
        == '.' by {
        if i < k.len() {
            assert(whole[i] == k[i]);
        } else if i > k.len() {
            assert(whole[i] == rest[i - k.len() - 1]);
        }
    }
    assert(!k.contains('.')) by {
        if k.contains('.') {
            let i = choose|i: int| 0 <= i < k.len() && k[i] == '.';
            assert(key_char(k[i]));
        }
    }
    paths_lead_through_members(item, k, rest);
    reference_is_single(k, item, depth);
    reference_is_single(whole, item, depth);
    if let Some(v) = field(item, k) {
        reference_is_single(rest, v, depth);
    }
}

#[verifier::rlimit(40)]
proof fn dotted_is_dotted(keys: Seq<Seq<char>>)
    requires
        keys.len() > 0,
        forall|i: int| 0 <= i < keys.len() ==> is_key(#[trigger] keys[i]),
    ensures
        is_dotted(dotted(keys)),
    decreases keys.len(),
{
    reveal_strlit(".");
    let k = keys[0];
    assert(is_key(k));
    if keys.len() > 1 {
        let tail = keys.drop_first();
        assert forall|i: int| 0 <= i < tail.len() implies is_key(#[trigger] tail[i]) by {
            assert(tail[i] == keys[i + 1]);
        }
        dotted_is_dotted(tail);
        let d = dotted(tail);
        let whole = dotted(keys);
        assert(whole == k + "."@ + d);
        assert forall|i: int| 0 <= i < whole.len() implies key_char(#[trigger] whole[i]) || whole[i]
            == '.' by {
            if i < k.len() {
                assert(whole[i] == k[i]);
            } else if i > k.len() {
                assert(whole[i] == d[i - k.len() - 1]);
            }
        }
    }
}

/// A dotted reference reads the value that walking the members one by one leads
/// to: `stops` are the item, its member of the first name, that one's member of
/// the second name, and so on.
#[verifier::rlimit(40)]
pub proof fn dotted_reference_walks_the_members(
    keys: Seq<Seq<char>>,
    stops: Seq<Json>,
    depth: int,
)
    requires
        keys.len() > 0,
        stops.len() == keys.len() + 1,
        depth <= MAX_PRED_DEPTH,
        forall|i: int| 0 <= i < keys.len() ==> is_key(#[trigger] keys[i]),
        forall|i: int|
            0 <= i < keys.len() ==> field(stops[i], #[trigger] keys[i]) == Some(stops[i + 1]),
    ensures
        transform_value(reference(dotted(keys)), stops[0], depth) == Ok::<Json, Fault>(stops.last()),
    decreases keys.len(),
{
    let k = keys[0];
    assert(is_key(k));
    assert(field(stops[0], k) == Some(stops[1]));
    if keys.len() == 1 {
        references_lead_through_members(stops[0], k, k, depth);
    } else {
        let tail = keys.drop_first();
        let later = stops.drop_first();
        assert forall|i: int| 0 <= i < tail.len() implies is_key(#[trigger] tail[i]) && field(
            later[i],
            tail[i],
        ) == Some(later[i + 1]) by {
            assert(tail[i] == keys[i + 1]);
            assert(is_key(keys[i + 1]));
        }
        dotted_is_dotted(tail);
        references_lead_through_members(stops[0], k, dotted(tail), depth);
        dotted_reference_walks_the_members(tail, later, depth);
        assert(later.last() == stops.last());
    }
}

/// Two texts with ` + ` between them stand for what they stand for, one text after
/// the other.
#[verifier::rlimit(40)]
pub proof fn plus_concatenates(a: Seq<char>, b: Seq<char>, item: Json, depth: int)
    requires
        depth <= MAX_PRED_DEPTH,
        a.len() > 0 && tight(a) && complete(operator_rules(), a),
        lacks_operator(a, seq!['+']),
        b.len() > 0 && tight(b),
        find_pipe(operation(a, "+"@, b)) is None,
    ensures
        transform_value(operation(a, "+"@, b), item, depth) == (match (
            transform_value(a, item, depth + 1),
            transform_value(b, item, depth + 1),
        ) {
            (Ok(Json::Str(s)), Ok(Json::Str(t))) => Ok(Json::Str(s + t)),
            (Err(f), _) => Err(f),
            (Ok(_), Err(f)) => Err(f),
            (x, y) => joined(x, y),
        }),
{
    reveal_strlit("+");
    let op = seq!['+'];
    assert("+"@ =~= op);
    let s = operation(a, op, b);
    let p = a.len() as int + 1;
    assert(s[0] == a[0] && s.last() == b.last());
    trim_of_tight(s);
    operator_between(a, op, b);
    trim_of_padded(Seq::empty(), a, seq![' ']);
    assert(s.subrange(0, p) =~= Seq::<char>::empty() + a + seq![' ']);
    trim_of_padded(seq![' '], b, Seq::empty());
    assert(s.subrange(p + 1, s.len() as int) =~= seq![' '] + b + Seq::<char>::empty());
}

/// In a concatenation a number stands for its digits, a boolean for its word and
/// null for nothing; arrays and objects cannot be concatenated.
pub proof fn what_is_concatenated(v: Json, s: Seq<char>)
    ensures
        joined(Ok(Json::Str(s)), Ok(v)) == (match v {
            Json::Str(t) => Ok(Json::Str(s + t)),
            Json::Bool(true) => Ok(Json::Str(s + "true"@)),
            Json::Bool(false) => Ok(Json::Str(s + "false"@)),
            Json::Null => Ok(Json::Str(s)),
            Json::Num(n) => Ok(Json::Str(s + json_number_text(n))),
            _ => Err::<Json, Fault>(
                Fault::Mismatch("string-convertible"@, describe_json(v)),
            ),
        }),
{
    assert(s + Seq::<char>::empty() =~= s);
}

/// A text in quotes stands for that text, whatever operators stand in it, and a
/// number in digits for that number.
#[verifier::rlimit(40)]
pub proof fn literals_stand_for_themselves(
    q: char,
    t: Seq<char>,
    n: nat,
    item: Json,
    depth: int,
)
    requires
        q == '"' || q == '\'',
        !t.contains(q) && !t.contains('\\'),
        n < 1_000_000_000_000_000_000,
        depth <= MAX_PRED_DEPTH,
    ensures
        transform_value(seq![q] + t + seq![q], item, depth) == Ok::<Json, Fault>(Json::Str(t)),
        transform_value(decimal(n), item, depth) == Ok::<Json, Fault>(
            Json::Num(Number::Int(n as i64)),
        ),
{
    reveal_strlit("true");
    reveal_strlit("false");
    reveal_strlit("null");
    assert("true"@[0] == 't' && "false"@[0] == 'f' && "null"@[0] == 'n');
    let s = seq![q] + t + seq![q];
    assert(s[0] == q && s.last() == q);
    trim_of_tight(s);
    crate::lexer::strings_are_closed(operator_rules(), q, t);
    crate::lexer::strings_are_closed(crate::lexer::pipe_rules(), q, t);
    first_pipe(s);
    if let Some(p) = find_pipe(s) {
        assert(!plain(lex_at(crate::lexer::pipe_rules(), s, p)));
    }
    first_operator(s, seq!['+']);
    if let Some(p) = find_operator(s, seq!['+']) {
        assert(s.subrange(p, p + 1)[0] == s[p]);
        assert(!plain(lex_at(operator_rules(), s, p)));
    }
    if starts_with(s, seq!['p', '.']) {
        assert(s.subrange(0, 2)[0] == s[0]);
    }
    crate::expr::quoted_text_stands_for_itself(q, t);
    let d = decimal(n);
    crate::text::decimal_is_read_back(n);
    assert(is_digit(d[0]) && is_digit(d[d.len() - 1]));
    trim_of_tight(d);
    assert forall|i: int| 0 <= i < d.len() implies d[i] != '|' && d[i] != '+' by {
        assert(is_digit(d[i]));
    }
    first_pipe(d);
    no_operator_without_its_sign(d, seq!['+']);
    if starts_with(d, seq!['p', '.']) {
        assert(d.subrange(0, 2)[0] == d[0]);
    }
    crate::number::digits_are_a_number(n);
}

/// Whether no comma stands in a text outside brackets and strings.
pub open spec fn no_comma(s: Seq<char>) -> bool {
    forall|j: int|
        0 <= j < s.len() && top_level(#[trigger] lex_at(pair_rules(), s, j)) ==> s[j] != ','
}

#[verifier::rlimit(40)]
proof fn shifted_parts(front: Seq<char>, b: Seq<char>, start: int, i: int)
    requires
        complete(pair_rules(), front),
        0 <= start <= i <= b.len(),
    ensures
        parts_from(front + b, front.len() + start, front.len() + i) == parts_from(b, start, i),
    decreases b.len() - i,
{
    let s = front + b;
    let n = front.len() as int;
    if i >= b.len() {
        assert(s.subrange(n + start, s.len() as int) =~= b.subrange(start, b.len() as int));
    } else {
        scan_of_end(pair_rules(), front, b, i);
        assert(s[n + i] == b[i]);
        if top_level(lex_at(pair_rules(), b, i)) && b[i] == ',' {
            assert(s.subrange(n + start, n + i) =~= b.subrange(start, i));
            shifted_parts(front, b, i + 1, i + 1);
        } else {
            shifted_parts(front, b, start, i + 1);
        }
    }
}

proof fn part_before_comma(a: Seq<char>, b: Seq<char>, i: int)
    requires
        no_comma(a),
        0 <= i <= a.len(),
    ensures
        parts_from(a + b, 0, i) == parts_from(a + b, 0, a.len() as int),
    decreases a.len() - i,
{
    if i < a.len() {
        scan_of_start(pair_rules(), a, b, i);
        assert((a + b)[i] == a[i]);
        part_before_comma(a, b, i + 1);
    }
}

/// The parts of an object expression are what stands between commas outside
/// brackets and strings.
#[verifier::rlimit(40)]
pub proof fn commas_divide_pairs(a: Seq<char>, b: Seq<char>)
    requires
        no_comma(a),
    ensures
        parts_from(a, 0, 0) == seq![a],
        complete(pair_rules(), a) ==> parts_from(a + seq![','] + b, 0, 0) == seq![a] + parts_from(
            b,
            0,
            0,
        ),
{
    let n = a.len() as int;
    part_before_comma(a, Seq::empty(), 0);
    assert(a + Seq::<char>::empty() =~= a);
    assert(a.subrange(0, n) =~= a);
    if complete(pair_rules(), a) {
        let s = a + seq![','] + b;
        assert(s =~= a + (seq![','] + b));
        part_before_comma(a, seq![','] + b, 0);
        scan_of_start(pair_rules(), a, seq![','] + b, n);
        assert(s[n] == ',');
        assert(s.subrange(0, n) =~= a);
        assert(all_inert(pair_rules(), seq![',']));
        inert_is_complete(pair_rules(), seq![',']);
        complete_in_parts(pair_rules(), a, seq![',']);
        shifted_parts(a + seq![','], b, 0, 0);
    }
}

#[verifier::rlimit(40)]
proof fn pairs_in_two(a: Seq<Seq<char>>, b: Seq<Seq<char>>)
    requires
        pairs_of(a) is Ok,
        pairs_of(b) is Ok,
    ensures
        pairs_of(a + b) == Ok::<Seq<(Seq<char>, Seq<char>)>, Fault>(
            pairs_of(a)->Ok_0 + pairs_of(b)->Ok_0,
        ),
    decreases b.len(),
{
    let u = pairs_of(a)->Ok_0;
    let v = pairs_of(b)->Ok_0;
    if b.len() == 0 {
        assert(a + b =~= a);
        assert(u + v =~= u);
    } else {
        assert((a + b).drop_last() =~= a + b.drop_last());
        assert((a + b).last() == b.last());
        assert(pairs_of(b.drop_last()) is Ok);
        pairs_in_two(a, b.drop_last());
        let w = pairs_of(b.drop_last())->Ok_0;
        let t = trim(b.last());
        if t.len() == 0 || starts_with(t, "..."@) {
        } else {
            let p = pair(t)->Ok_0;
            assert(u + w.push(p) =~= (u + w).push(p));
        }
    }
}

/// A name, a colon and a value.
pub open spec fn pair_text(k: Seq<char>, v: Seq<char>) -> Seq<char> {
    k + seq![':', ' '] + v
}

proof fn colon_from_first(s: Seq<char>, i: int, n: int)
    requires
        0 <= i <= n < s.len(),
        forall|j: int| i <= j < n ==> s[j] != ':' || !plain(#[trigger] lex_at(pair_rules(), s, j)),
        s[n] == ':',
        plain(lex_at(pair_rules(), s, n)),
    ensures
        colon_from(s, i) == Some(n),
    decreases n - i,
{
    if i < n {
        assert(s[i] != ':' || !plain(lex_at(pair_rules(), s, i)));
        colon_from_first(s, i + 1, n);
    }
}

proof fn nothing_to_strip(s: Seq<char>, c: char)
    requires
        s.len() > 0 ==> s[0] != c && s.last() != c,
    ensures
        strip_both(s, c) == s,
{
}

/// A name, a colon and a value make a pair of them; the name may stand in quotes.
#[verifier::rlimit(40)]
pub proof fn names_and_values_make_pairs(k: Seq<char>, v: Seq<char>, q: char)
    requires
        is_key(k),
        tight(v),
        q == '"' || q == '\'',
    ensures
        pair(pair_text(k, v)) == Ok::<(Seq<char>, Seq<char>), Fault>((k, v)),
        pair(pair_text(seq![q] + k + seq![q], v)) == Ok::<(Seq<char>, Seq<char>), Fault>((k, v)),
{
    let rules = pair_rules();
    assert forall|i: int| 0 <= i < k.len() implies inert(rules, #[trigger] k[i]) by {
        assert(key_char(k[i]));
    }
    assert(key_char(k[0]) && key_char(k[k.len() - 1]));
    inert_is_complete(rules, k);
    let tail = seq![':', ' '] + v;
    let s = pair_text(k, v);
    assert(s =~= k + tail);
    scan_of_end(rules, k, tail, 0);
    assert forall|j: int| 0 <= j < k.len() implies s[j] != ':' || !plain(
        #[trigger] lex_at(rules, s, j),
    ) by {
        assert(s[j] == k[j]);
    }
    colon_from_first(s, 0, k.len() as int);
    assert(s.subrange(0, k.len() as int) =~= k);
    trim_of_tight(k);
    nothing_to_strip(k, '"');
    nothing_to_strip(k, '\'');
    trim_of_padded(seq![' '], v, Seq::empty());
    assert(seq![' '] + v + Seq::<char>::empty() =~= seq![' '] + v);
    assert(s.subrange(k.len() as int + 1, s.len() as int) =~= seq![' '] + v);
    let quoted = seq![q] + k + seq![q];
    let n = quoted.len() as int;
    let t = pair_text(quoted, v);
    assert(!k.contains(q) && !k.contains('\\')) by {
        assert forall|i: int| 0 <= i < k.len() implies k[i] != q && k[i] != '\\' by {
            assert(key_char(k[i]));
        }
    }
    crate::lexer::strings_are_closed(rules, q, k);
    assert(t =~= quoted + tail);
    scan_of_end(rules, quoted, tail, 0);
    assert forall|j: int| 0 <= j < n implies t[j] != ':' || !plain(
        #[trigger] lex_at(rules, t, j),
    ) by {
        if 0 < j < n - 1 {
            assert(t[j] == k[j - 1]);
            assert(key_char(k[j - 1]));
        }
    }
    colon_from_first(t, 0, n);
    assert(t.subrange(0, n) =~= quoted);
    assert(quoted[0] == q && quoted.last() == q);
    trim_of_tight(quoted);
    assert(t.subrange(n + 1, t.len() as int) =~= seq![' '] + v);
    quotes_are_stripped(q, k);
}

#[verifier::rlimit(40)]
proof fn quotes_are_stripped(q: char, k: Seq<char>)
    requires
        is_key(k),
        q == '"' || q == '\'',
    ensures
        strip_both(strip_both(seq![q] + k + seq![q], '"'), '\'') == k,
{
    let s = seq![q] + k + seq![q];
    assert(key_char(k[0]) && key_char(k[k.len() - 1]));
    assert(s.subrange(1, s.len() as int) =~= k + seq![q]);
    assert((k + seq![q])[0] == k[0]);
    assert(strip_front(k + seq![q], q) == k + seq![q]);
    assert(strip_front(s, q) == k + seq![q]);
    assert((k + seq![q]).drop_last() =~= k);
    assert(strip_back(k, q) == k);
    assert(strip_back(k + seq![q], q) == k);
    if q == '"' {
        nothing_to_strip(k, '\'');
    } else {
        assert(s[0] == '\'' && s.last() == '\'');
        nothing_to_strip(s, '"');
    }
}

/// What pairs make of an object: each name holds the value of its expression on the
/// item, that of the last pair where several have the name; every other member is
/// as it was.  All values are those of the item as it was given.
#[verifier::rlimit(40)]
pub proof fn pairs_set_members(
    base: Seq<(Seq<char>, Json)>,
    pairs: Seq<(Seq<char>, Seq<char>)>,
    item: Json,
    n: int,
    other: Seq<char>,
)
    requires
        0 <= n <= pairs.len(),
        forall|i: int| 0 <= i < n ==> transform_value((#[trigger] pairs[i]).1, item, 0) is Ok,
    ensures
        assigned(Json::Obj(base), pairs, item, n) matches Ok(Json::Obj(o)) && {
            &&& forall|i: int|
                0 <= i < n && (forall|j: int| i < j < n ==> (#[trigger] pairs[j]).0 != pairs[i].0)
                    ==> member(o, (#[trigger] pairs[i]).0) == Some(
                    transform_value(pairs[i].1, item, 0)->Ok_0,
                )
            &&& (forall|i: int| 0 <= i < n ==> (#[trigger] pairs[i]).0 != other) ==> member(
                o,
                other,
            ) == member(base, other)
        },
    decreases n,
{
    if n > 0 {
        pairs_set_members(base, pairs, item, n - 1, other);
        let before = assigned(Json::Obj(base), pairs, item, n - 1)->Ok_0->Obj_0;
        let k = pairs[n - 1].0;
        assert(transform_value(pairs[n - 1].1, item, 0) is Ok);
        let w = transform_value(pairs[n - 1].1, item, 0)->Ok_0;
        let o = with_member(before, k, w);
        assert(assigned(Json::Obj(base), pairs, item, n) == Ok::<Json, Fault>(Json::Obj(o)));
        set_then_get(before, k, w, other);
        assert forall|i: int|
            0 <= i < n && (forall|j: int| i < j < n ==> (#[trigger] pairs[j]).0
                != pairs[i].0) implies member(o, (#[trigger] pairs[i]).0) == Some(
            transform_value(pairs[i].1, item, 0)->Ok_0,
        ) by {
            set_then_get(before, k, w, pairs[i].0);
            if i < n - 1 {
                assert(pairs[n - 1].0 != pairs[i].0);
            }
        }
    }
}

/// An expression in curly brackets.
pub open spec fn object_text(body: Seq<char>) -> Seq<char> {
    seq!['{'] + body + seq!['}']
}

#[verifier::rlimit(40)]
proof fn object_of_parts(
    body: Seq<char>,
    pairs: Seq<(Seq<char>, Seq<char>)>,
    base: Json,
    item: Json,
)
    requires
        tight(body),
        object_pairs(body) == Ok::<Seq<(Seq<char>, Seq<char>)>, Fault>(pairs),
        base == (if spreads(body) {
            item
        } else {
            Json::Obj(Seq::empty())
        }),
    ensures
        transformed(object_text(body), item) == assigned(base, pairs, item, pairs.len() as int),
{
    let e = object_text(body);
    assert(e[0] == '{' && e.last() == '}');
    trim_of_tight(e);
    assert(e.subrange(1, e.len() - 1) =~= body);
    trim_of_tight(body);
}

#[verifier::rlimit(40)]
proof fn one_pair(k: Seq<char>, v: Seq<char>, lead: Seq<char>)
    requires
        is_key(k),
        v.len() > 0 && tight(v),
        no_comma(v),
        lead == Seq::<char>::empty() || lead == seq![' '],
    ensures
        object_pairs(lead + pair_text(k, v)) == Ok::<Seq<(Seq<char>, Seq<char>)>, Fault>(
            seq![(k, v)],
        ),
        no_comma(lead + pair_text(k, v)),
        tight(pair_text(k, v)),
{
    let rules = pair_rules();
    let t = pair_text(k, v);
    let front = lead + k + seq![':', ' '];
    let s = lead + t;
    assert(s =~= front + v);
    assert forall|i: int| 0 <= i < front.len() implies inert(rules, #[trigger] front[i])
        && front[i] != ',' by {
        if lead.len() <= i < lead.len() + k.len() {
            assert(front[i] == k[i - lead.len()]);
            assert(key_char(k[i - lead.len()]));
        }
    }
    inert_is_complete(rules, front);
    assert forall|j: int| 0 <= j < s.len() && top_level(#[trigger] lex_at(rules, s, j)) implies s[j]
        != ',' by {
        if j < front.len() {
            assert(s[j] == front[j]);
        } else {
            scan_of_end(rules, front, v, j - front.len());
            assert(s[j] == v[j - front.len()]);
            assert(top_level(lex_at(rules, v, j - front.len())));
        }
    }
    commas_divide_pairs(s, Seq::empty());
    assert(key_char(k[0]));
    assert(t[0] == k[0] && t.last() == v.last());
    trim_of_padded(lead, t, Seq::empty());
    assert(lead + t + Seq::<char>::empty() =~= s);
    reveal_strlit("...");
    if starts_with(t, "..."@) {
        assert(t.subrange(0, 3)[0] == t[0]);
    }
    names_and_values_make_pairs(k, v, '"');
    let parts = seq![s];
    assert(parts.drop_last() =~= Seq::empty());
    assert(pairs_of(Seq::<Seq<char>>::empty()) == Ok::<Seq<(Seq<char>, Seq<char>)>, Fault>(
        Seq::empty(),
    ));
    assert(Seq::<(Seq<char>, Seq<char>)>::empty().push((k, v)) =~= seq![(k, v)]);
}

#[verifier::rlimit(40)]
proof fn a_pair_does_not_spread(k: Seq<char>, v: Seq<char>)
    requires
        is_key(k),
        !contains_text(v, "...p"@),
    ensures
        !spreads(pair_text(k, v)),
{
    reveal_strlit("...p");
    let body = pair_text(k, v);
    if spreads(body) {
        let i = choose|i: int| 0 <= i < body.len() && spread_at(body, i);
        let x = body.subrange(i, i + 4);
        assert(x[0] == '.' && x[1] == '.' && x[2] == '.' && x[3] == 'p');
        assert(body[i] == '.' && body[i + 1] == '.');
        if i < k.len() {
            assert(body[i] == k[i]);
            assert(key_char(k[i]));
        } else {
            assert(i >= k.len() + 2);
            let j = i - k.len() - 2;
            assert(v.subrange(j, j + 4) =~= "...p"@);
            assert(occurs_at(v, "...p"@, j));
        }
    }
}

proof fn one_pair_is_assigned(o: Seq<(Seq<char>, Json)>, k: Seq<char>, v: Seq<char>, item: Json)
    ensures
        assigned(Json::Obj(o), seq![(k, v)], item, 1) == (match transform_value(v, item, 0) {
            Ok(w) => Ok(Json::Obj(with_member(o, k, w))),
            Err(f) => Err(f),
        }),
{
    let pairs = seq![(k, v)];
    assert(pairs[0] == (k, v));
    assert(assigned(Json::Obj(o), pairs, item, 0) == Ok::<Json, Fault>(Json::Obj(o)));
}

/// `{name: value}` gives an object with that member and no other.
#[verifier::rlimit(40)]
pub proof fn written_object_has_its_members(k: Seq<char>, v: Seq<char>, item: Json)
    requires
        is_key(k),
        v.len() > 0 && tight(v),
        no_comma(v),
        !contains_text(v, "...p"@),
    ensures
        transformed(object_text(pair_text(k, v)), item) == (match transform_value(v, item, 0) {
            Ok(w) => Ok(Json::Obj(seq![(k, w)])),
            Err(f) => Err(f),
        }),
{
    let body = pair_text(k, v);
    one_pair(k, v, Seq::empty());
    assert(Seq::<char>::empty() + body =~= body);
    a_pair_does_not_spread(k, v);
    let o = Seq::<(Seq<char>, Json)>::empty();
    object_of_parts(body, seq![(k, v)], Json::Obj(o), item);
    one_pair_is_assigned(o, k, v, item);
    if let Ok(w) = transform_value(v, item, 0) {
        assert(with_member(o, k, w) =~= seq![(k, w)]);
    }
}

/// `{...p, name: value}` gives the item with that member set: the member holds the
/// value, and every other member is as it was.
#[verifier::rlimit(40)]
pub proof fn spread_object_keeps_the_rest(
    k: Seq<char>,
    v: Seq<char>,
    o: Seq<(Seq<char>, Json)>,
    other: Seq<char>,
)
    requires
        is_key(k),
        v.len() > 0 && tight(v),
        no_comma(v),
        other != k,
    ensures
        match transform_value(v, Json::Obj(o), 0) {
            Ok(w) => transformed(
                object_text("...p, "@ + pair_text(k, v)),
                Json::Obj(o),
            ) matches Ok(r) && field(r, k) == Some(w) && field(r, other) == member(o, other),
            Err(f) => transformed(object_text("...p, "@ + pair_text(k, v)), Json::Obj(o)) == Err::<
                Json,
                Fault,
            >(f),
        },
{
    let item = Json::Obj(o);
    let body = "...p, "@ + pair_text(k, v);
    spread_and_pair(k, v);
    object_of_parts(body, seq![(k, v)], item, item);
    one_pair_is_assigned(o, k, v, item);
    if let Ok(w) = transform_value(v, item, 0) {
        set_then_get(o, k, w, other);
        set_then_get(o, k, w, k);
    }
}

#[verifier::rlimit(40)]
proof fn spread_and_pair(k: Seq<char>, v: Seq<char>)
    requires
        is_key(k),
        v.len() > 0 && tight(v),
        no_comma(v),
    ensures
        ({
            let body = "...p, "@ + pair_text(k, v);
            &&& tight(body)
            &&& spreads(body)
            &&& object_pairs(body) == Ok::<Seq<(Seq<char>, Seq<char>)>, Fault>(seq![(k, v)])
        }),
{
    reveal_strlit("...p, ");
    reveal_strlit("...");
    let dots = seq!['.', '.', '.', 'p'];
    let t = pair_text(k, v);
    let body = "...p, "@ + t;
    let second = seq![' '] + t;
    assert(body =~= dots + seq![','] + second);
    one_pair(k, v, seq![' ']);
    assert(all_inert(pair_rules(), dots));
    inert_is_complete(pair_rules(), dots);
    commas_divide_pairs(dots, second);
    commas_divide_pairs(second, Seq::empty());
    trim_of_tight(dots);
    assert(dots.subrange(0, 3) =~= "..."@);
    assert(seq![dots].drop_last() =~= Seq::empty());
    assert(seq![dots].last() == dots);
    reveal_with_fuel(pairs_of, 2);
    assert(starts_with(dots, "..."@));
    assert(pairs_of(seq![dots]) == Ok::<Seq<(Seq<char>, Seq<char>)>, Fault>(Seq::empty()));
    pairs_in_two(seq![dots], seq![second]);
    let pairs = seq![(k, v)];
    assert(Seq::<(Seq<char>, Seq<char>)>::empty() + pairs =~= pairs);
    assert(body[0] == '.' && body.last() == v.last());
    assert(body.subrange(0, 4) =~= dots);
    assert(body[4] == ',');
    assert(spread_at(body, 0));
}

#[verifier::rlimit(40)]
proof fn nothing_to_double(s: Seq<char>)
    requires
        !s.contains('$') && !s.contains('\\'),
    ensures
        doubled(s) == s,
    decreases s.len(),
{
    if s.len() > 0 {
        let init = s.drop_last();
        assert(s.contains(s[s.len() - 1]));
        assert(!init.contains('$') && !init.contains('\\')) by {
            assert forall|i: int| 0 <= i < init.len() implies init[i] != '$' && init[i] != '\\' by {
                assert(init[i] == s[i]);
                assert(s.contains(s[i]));
            }
        }
        nothing_to_double(init);
        assert(init.push(s.last()) =~= s);
    }
}

proof fn delimiter_is_found(a: Seq<char>, b: Seq<char>, i: int)
    requires
        !a.contains('/') && !a.contains('\\'),
        0 <= i <= a.len(),
    ensures
        delimiter_from(a + seq!['/'] + b, '/', i) == Some(a.len() as int),
    decreases a.len() - i,
{
    let s = a + seq!['/'] + b;
    if i < a.len() {
        assert(s[i] == a[i]);
        assert(a.contains(a[i]));
        delimiter_is_found(a, b, i + 1);
    } else {
        assert(s[i] == '/');
    }
}

/// What a replacement does: `/pattern/, 'text'` puts the text in the place of each
/// match, and `/pattern/text/` does the same.
#[verifier::rlimit(40)]
pub proof fn what_replacement_does(
    pattern: Seq<char>,
    q: char,
    w: Seq<char>,
    tail: Seq<char>,
    text: Seq<char>,
)
    requires
        compiles(pattern),
        q == '"' || q == '\'',
        !w.contains('$') && !w.contains('\\'),
    ensures
        replace_outcome(pattern, seq![',', ' ', q] + w + seq![q, ')'], text) == Ok::<Json, Fault>(
            Json::Str(regex_replaced(pattern, text, w)),
        ),
        w.len() > 0 && !white(w[0]) && w[0] != ',' && w[0] != ')' && !w.contains('/')
            ==> replace_outcome(pattern, w + seq!['/'] + tail, text) == Ok::<Json, Fault>(
            Json::Str(regex_replaced(pattern, text, w)),
        ),
{
    nothing_to_double(w);
    let b = seq![',', ' ', q] + w + seq![q, ')'];
    assert(b[0] == ',');
    let lit = seq![q] + w + seq![q];
    let rest = b.subrange(1, b.len() as int);
    assert(rest =~= seq![' '] + (lit + seq![')']) + Seq::<char>::empty());
    let closed = lit + seq![')'];
    assert(closed[0] == q && closed.last() == ')');
    trim_of_padded(seq![' '], closed, Seq::empty());
    assert(closed.drop_last() =~= lit);
    crate::expr::quoted_text_stands_for_itself(q, w);
    assert(lit[0] == q && lit.last() == q);
    trim_of_tight(lit);
    reveal_strlit("true");
    reveal_strlit("false");
    reveal_strlit("null");
    assert("true"@[0] == 't' && "false"@[0] == 'f' && "null"@[0] == 'n');
    let c = w + seq!['/'] + tail;
    if w.len() > 0 && !white(w[0]) && w[0] != ',' && w[0] != ')' && !w.contains('/') {
        assert(c[0] == w[0]);
        delimiter_is_found(w, tail, 0);
        assert(c.subrange(0, w.len() as int) =~= w);
    }
}

/// A call of `replace` on a field: `p.name.replace(...)`, where what stands in the
/// brackets is a pattern between slashes and what is to be put in its place.
#[verifier::rlimit(40)]
pub proof fn replace_works_on_the_field(
    k: Seq<char>,
    pattern: Seq<char>,
    behind: Seq<char>,
    text: Seq<char>,
    item: Json,
)
    requires
        is_key(k),
        !pattern.contains('/') && !pattern.contains('\\'),
        field(item, k) == Some(Json::Str(text)),
    ensures
        replace_value(
            "p."@ + k + ".replace("@ + seq!['/'] + pattern + seq!['/'] + behind,
            item,
        ) == (match replace_outcome(pattern, behind, text) {
            Ok(v) => Ok::<Option<Json>, Fault>(Some(v)),
            Err(f) => Err(f),
        }),
{
    reveal_strlit("p.");
    reveal_strlit(".replace(");
    let call = ".replace("@;
    let e = "p."@ + k + call + seq!['/'] + pattern + seq!['/'] + behind;
    let n = k.len() as int;
    assert(e.subrange(0, 2) =~= seq!['p', '.']);
    let rest = e.subrange(2, e.len() as int);
    let args = seq!['/'] + (pattern + seq!['/'] + behind);
    assert(rest =~= k + call + args);
    assert(!k.contains('.')) by {
        if k.contains('.') {
            let i = choose|i: int| 0 <= i < k.len() && k[i] == '.';
            assert(key_char(k[i]));
        }
    }
    crate::text::first_occurrence(rest, call);
    assert(rest.subrange(n, n + call.len()) =~= call);
    assert(occurs_at(rest, call, n));
    if let Some(p) = find_text(rest, call) {
        crate::text::find_from_bounds(rest, call, 0);
        if p < n {
            assert(rest.subrange(p, p + call.len())[0] == rest[p]);
            assert(rest[p] == k[p]);
            assert(key_char(k[p]));
        }
        assert(p == n);
    }
    assert(rest.subrange(n + call.len(), rest.len() as int) =~= args);
    assert(args.subrange(1, args.len() as int) =~= pattern + seq!['/'] + behind);
    delimiter_is_found(pattern, behind, 0);
    let s = pattern + seq!['/'] + behind;
    assert(s.subrange(0, pattern.len() as int) =~= pattern);
    assert(s.subrange(pattern.len() as int + 1, s.len() as int) =~= behind);
    assert(rest.subrange(0, n) =~= k);
    paths_lead_through_members(item, k, k);
}

} // verus!
