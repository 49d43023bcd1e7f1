//! Predicate expressions, which `$filter` and `$remove` apply to each item.

use vstd::prelude::*;
use vstd::slice::slice_subrange;
use crate::builtin::{
    applied, applied_with, arguments, call, call_parts, call_value, calls_are_names_and_arguments,
    commas_divide_arguments, eval_builtin_function_on_value, function_name, function_named,
    function_names_are_words,
    functions_have_their_names, functions_on_two_texts, list_rules, piped, read_call,
    split_function_args, takes_two, try_eval_function_call, BuiltinFunction,
};
use crate::expr::{
    compare_values, compiles, concat, describe, describe_json, description,
    digits_stand_for_their_number, field_name, field_value, get_cached_regex, get_nested_field,
    has_prefix, integers_compare_as_in_arithmetic, integers_related, is_dotted, is_key,
    json_description, json_value, key_char, literal, mismatch, nested_field, nth_relation, outcome,
    parse_fault, parse_literal, paths_lead_through_members, pattern_matches,
    quoted_text_stands_for_itself, regex_fault, related,
    relation, relation_sign, resolve_value_expr, sign_of, verdict, RELATIONS, ExprError, ExprValue,
    Fault, Relation, Val,
};
use crate::lexer::{
    all_inert, argument_rules, brackets_enclose, complete, complete_in_parts, content_of_brackets,
    enclosed_operator_is_not_found, find_operator, find_pipe, find_top_level_operator,
    find_top_level_pipe, first_operator, first_pipe, fresh, inert, lacks_operator, lex_at, lex_step,
    inert_is_complete, inside_a_call, longer, never_below, never_below_in_parts,
    no_operator_without_its_sign, pipe_between, top_level, operator_at, operator_between,
    operator_in_parts, operator_rules, pipe_at, pipe_bounds, pipe_rules, plain, scan_of_end,
    scan_of_inert, scan_of_start, stands_first, strings_are_closed, strip_outer_parens, unwrapped,
    Rules,
};
use crate::outside::regex_found;
use crate::text::{
    begins, char_index, char_index_first, chars_of, contains_text, decimal, ends, ends_with, find,
    find_text, holds, is_digit,
    index_of_char, pieces, split, starts_with, text_of, tight, trim, trim_len, trim_of_padded,
    trim_of_tight, trim_twice, trimmed, white,
};
use crate::value::{field, Document, Json};

verus! {

// ---------------------------------------------------------------------------
// Pipes
// ---------------------------------------------------------------------------

/// The value before the first pipe of a predicate.
pub open spec fn operand(s: Seq<char>, item: Json) -> Result<Val, Fault> {
    let e = trim(s);
    match call_value(e, item) {
        Err(f) => Err(f),
        Ok(Some(v)) => Ok(v),
        Ok(None) => if starts_with(e, seq!['p', '.']) {
            field_value(e, item)
        } else {
            literal(e)
        },
    }
}

/// Resolves the value before the first pipe of a predicate.
pub fn resolve_expr_to_value(s: &[char], item: &Document) -> (r: Result<ExprValue, ExprError>)
    ensures
        outcome(r) == operand(s@, item@),
{
    let e = trimmed(s);
    match try_eval_function_call(e, item) {
        Err(f) => Err(f),
        Ok(Some(v)) => Ok(v),
        Ok(None) => if has_prefix(e) {
            resolve_value_expr(e, item)
        } else {
            parse_literal(e)
        },
    }
}

/// The application of a call to the value before a pipe, where the text is a
/// call with balanced brackets.
pub open spec fn piped_call(v: Val, e: Seq<char>) -> Option<Result<Val, Fault>> {
    match call_parts(e) {
        Some((f, Some(inside))) => Some(
            match arguments(inside) {
                Err(fault) => Err(fault),
                Ok(args) => piped(f, args, v),
            },
        ),
        _ => None,
    }
}

/// A stage between two pipes: a function, with or without arguments.
pub open spec fn stage(v: Val, s: Seq<char>) -> Result<Val, Fault> {
    let e = trim(s);
    match piped_call(v, e) {
        Some(r) => r,
        None => match function_named(e) {
            Some(f) => piped(f, Seq::empty(), v),
            None => Err(Fault::Unsupported("Unsupported pipe stage: "@ + e)),
        },
    }
}

/// Applies a call to the value before a pipe.
fn try_piped_call(v: &ExprValue, e: &[char]) -> (r: Option<Result<ExprValue, ExprError>>)
    ensures
        match r {
            Some(x) => piped_call(v@, e@) == Some(outcome(x)),
            None => piped_call(v@, e@) is None,
        },
{
    match read_call(e) {
        Some((f, Some(inside))) => match split_function_args(inside) {
            Err(fault) => Some(Err(fault)),
            Ok(args) => Some(eval_builtin_function_on_value(f, &args, v)),
        },
        _ => None,
    }
}

/// Applies a function without arguments to the value before a pipe.
fn apply_bare(f: BuiltinFunction, v: &ExprValue) -> (r: Result<ExprValue, ExprError>)
    ensures
        outcome(r) == piped(f, Seq::empty(), v@),
{
    let none: Vec<&[char]> = Vec::new();
    assert(pieces(none@) =~= Seq::<Seq<char>>::empty());
    eval_builtin_function_on_value(f, &none, v)
}

/// Resolves a stage between two pipes.
pub fn resolve_pipe_stage(v: &ExprValue, s: &[char]) -> (r: Result<ExprValue, ExprError>)
    ensures
        outcome(r) == stage(v@, s@),
{
    let e = trimmed(s);
    match try_piped_call(v, e) {
        Some(r) => r,
        None => match BuiltinFunction::from_name(e) {
            Some(f) => apply_bare(f, v),
            None => {
                let shown = text_of(e);
                Err(ExprError::Unsupported(concat("Unsupported pipe stage: ", shown.as_str())))
            },
        },
    }
}

/// The truth of a value that must be a boolean.
pub open spec fn truth(r: Result<Val, Fault>) -> Result<bool, Fault> {
    match r {
        Err(f) => Err(f),
        Ok(Val::Bool(b)) => Ok(b),
        Ok(v) => Err(Fault::Mismatch("bool"@, describe(v))),
    }
}

fn as_truth(r: Result<ExprValue, ExprError>) -> (b: Result<bool, ExprError>)
    ensures
        verdict(b) == truth(outcome(r)),
{
    match r {
        Err(f) => Err(f),
        Ok(ExprValue::Bool(b)) => Ok(b),
        Ok(v) => Err(mismatch("bool", description(&v))),
    }
}

/// The first relation from the `k`-th on whose sign stands in `s` after the
/// bare name of a function, and where it stands.
pub open spec fn bare_relation(s: Seq<char>, k: int) -> Option<(Relation, int, BuiltinFunction)>
    decreases RELATIONS - k,
{
    if k < 0 || k >= RELATIONS {
        None
    } else {
        match find_operator(s, relation_sign(relation(k))) {
            Some(p) => match function_named(trim(s.subrange(0, p))) {
                Some(f) => Some((relation(k), p, f)),
                None => bare_relation(s, k + 1),
            },
            None => bare_relation(s, k + 1),
        }
    }
}

/// The first relation from the `k`-th on whose sign stands in `s`, and where.
pub open spec fn first_relation(s: Seq<char>, k: int) -> Option<(Relation, int)>
    decreases RELATIONS - k,
{
    if k < 0 || k >= RELATIONS {
        None
    } else {
        match find_operator(s, relation_sign(relation(k))) {
            Some(p) => Some((relation(k), p)),
            None => first_relation(s, k + 1),
        }
    }
}

/// What stands behind the sign of a relation at `p`.
pub open spec fn behind(s: Seq<char>, rel: Relation, p: int) -> Seq<char> {
    trim(s.subrange(p + relation_sign(rel).len(), s.len() as int))
}

/// The first relation from the `k`-th on whose sign `s` begins with.
pub open spec fn leading_relation(s: Seq<char>, k: int) -> Option<Relation>
    decreases RELATIONS - k,
{
    if k < 0 || k >= RELATIONS {
        None
    } else if starts_with(s, relation_sign(relation(k))) {
        Some(relation(k))
    } else {
        leading_relation(s, k + 1)
    }
}

/// The function, its arguments, the relation and the text behind the relation
/// of `function(arguments) relation text`.
pub open spec fn called_relation(e: Seq<char>) -> Option<
    (BuiltinFunction, Seq<char>, Relation, Seq<char>),
> {
    match call_parts(e) {
        Some((f, Some(inside))) => {
            let tail = trim(e.subrange(char_index(e, '(') + inside.len() + 2, e.len() as int));
            match leading_relation(tail, 0) {
                Some(rel) => Some((f, inside, rel, behind(tail, rel, 0))),
                None => None,
            }
        },
        _ => None,
    }
}

/// Whether what a call makes of the value before a pipe is in a relation to a
/// literal.
pub open spec fn call_related(
    v: Val,
    f: BuiltinFunction,
    inside: Seq<char>,
    rel: Relation,
    text: Seq<char>,
) -> Result<bool, Fault> {
    match literal(text) {
        Err(fault) => Err(fault),
        Ok(w) => match arguments(inside) {
            Err(fault) => Err(fault),
            Ok(args) => match piped(f, args, v) {
                Err(fault) => Err(fault),
                Ok(x) => related(x, w, rel),
            },
        },
    }
}

/// Whether the value before a pipe is passed by the last stage: a function with
/// arguments and a relation, a function without arguments and a relation, a
/// function alone, or a relation alone.
pub open spec fn last_stage(v: Val, e: Seq<char>) -> Result<bool, Fault> {
    match called_relation(e) {
        Some((f, inside, rel, text)) => call_related(v, f, inside, rel, text),
        None => uncalled_stage(v, e),
    }
}

/// Whether the value before a pipe is passed by a last stage that is not a call
/// in a relation.
pub open spec fn uncalled_stage(v: Val, e: Seq<char>) -> Result<bool, Fault> {
    match bare_relation(e, 0) {
        Some((rel, p, f)) => match literal(behind(e, rel, p)) {
            Err(fault) => Err(fault),
            Ok(w) => match piped(f, Seq::empty(), v) {
                Err(fault) => Err(fault),
                Ok(x) => related(x, w, rel),
            },
        },
        None => match piped_call(v, e) {
            Some(r) => truth(r),
            None => match function_named(e) {
                Some(f) => truth(piped(f, Seq::empty(), v)),
                None => if call_parts(e) is Some {
                    Err(Fault::Parse("Unbalanced parentheses in function call: "@ + e))
                } else {
                    match first_relation(e, 0) {
                        Some((rel, p)) => match literal(behind(e, rel, p)) {
                            Err(fault) => Err(fault),
                            Ok(w) => related(v, w, rel),
                        },
                        None => Err(Fault::Unsupported("Unsupported pipe expression: | "@ + e)),
                    }
                },
            },
        },
    }
}

/// Whether a value passes the stages behind a pipe.
pub open spec fn passes(v: Val, s: Seq<char>) -> Result<bool, Fault>
    decreases s.len(),
{
    let e = trim(s);
    match find_pipe(e) {
        Some(p) => {
            proof {
                trim_len(s);
                pipe_bounds(e, 0);
                trim_len(e.subrange(p + 1, e.len() as int));
            }
            match stage(v, trim(e.subrange(0, p))) {
                Err(f) => Err(f),
                Ok(w) => passes(w, trim(e.subrange(p + 1, e.len() as int))),
            }
        },
        None => last_stage(v, e),
    }
}

/// The first relation whose sign stands after the bare name of a function.
fn find_bare_relation(e: &[char]) -> (r: Option<(Relation, usize, BuiltinFunction)>)
    ensures
        match r {
            Some((rel, p, f)) => bare_relation(e@, 0) == Some((rel, p as int, f)) && p
                + relation_sign(rel).len() <= e@.len(),
            None => bare_relation(e@, 0) is None,
        },
{
    let mut k: usize = 0;
    while k < RELATIONS
        invariant
            k <= RELATIONS,
            bare_relation(e@, 0) == bare_relation(e@, k as int),
        decreases RELATIONS - k,
    {
        let rel = nth_relation(k);
        let sign = sign_of(rel);
        if let Some(p) = find_top_level_operator(e, sign.as_slice()) {
            if let Some(f) = BuiltinFunction::from_name(trimmed(slice_subrange(e, 0, p))) {
                return Some((rel, p, f));
            }
        }
        k = k + 1;
    }
    None
}

/// The first relation whose sign stands in the text.
fn find_relation(e: &[char]) -> (r: Option<(Relation, usize)>)
    ensures
        match r {
            Some((rel, p)) => first_relation(e@, 0) == Some((rel, p as int)) && p + relation_sign(
                rel,
            ).len() <= e@.len(),
            None => first_relation(e@, 0) is None,
        },
{
    let mut k: usize = 0;
    while k < RELATIONS
        invariant
            k <= RELATIONS,
            first_relation(e@, 0) == first_relation(e@, k as int),
        decreases RELATIONS - k,
    {
        let rel = nth_relation(k);
        let sign = sign_of(rel);
        if let Some(p) = find_top_level_operator(e, sign.as_slice()) {
            return Some((rel, p));
        }
        k = k + 1;
    }
    None
}

/// What stands behind the sign of a relation.
fn text_behind<'a>(e: &'a [char], rel: Relation, p: usize) -> (r: &'a [char])
    requires
        p + relation_sign(rel).len() <= e@.len(),
    ensures
        r@ == behind(e@, rel, p as int),
{
    let sign = sign_of(rel);
    let n: usize = e.len();
    trimmed(slice_subrange(e, p + sign.len(), n))
}

/// The first relation whose sign a text begins with.
fn find_leading_relation(s: &[char]) -> (r: Option<Relation>)
    ensures
        r == leading_relation(s@, 0),
        r matches Some(rel) ==> relation_sign(rel).len() <= s@.len(),
{
    let mut k: usize = 0;
    while k < RELATIONS
        invariant
            k <= RELATIONS,
            leading_relation(s@, 0) == leading_relation(s@, k as int),
        decreases RELATIONS - k,
    {
        let rel = nth_relation(k);
        let sign = sign_of(rel);
        if begins(s, sign.as_slice()) {
            return Some(rel);
        }
        k = k + 1;
    }
    None
}

/// Whether what a call makes of the value before a pipe is in a relation to a
/// literal, where the text is such a call.
fn try_called_relation(v: &ExprValue, e: &[char]) -> (r: Option<Result<bool, ExprError>>)
    ensures
        match (r, called_relation(e@)) {
            (Some(x), Some((f, inside, rel, text))) => verdict(x) == call_related(
                v@,
                f,
                inside,
                rel,
                text,
            ),
            (None, None) => true,
            _ => false,
        },
{
    match read_call(e) {
        Some((f, Some(inside))) => {
            let n: usize = e.len();
            let start: usize = index_of_char(e, '(') + inside.len() + 2;
            let tail = trimmed(slice_subrange(e, start, n));
            match find_leading_relation(tail) {
                Some(rel) => Some(
                    match parse_literal(text_behind(tail, rel, 0)) {
                        Err(fault) => Err(fault),
                        Ok(w) => match split_function_args(inside) {
                            Err(fault) => Err(fault),
                            Ok(args) => match eval_builtin_function_on_value(f, &args, v) {
                                Err(fault) => Err(fault),
                                Ok(x) => compare_values(&x, &w, rel),
                            },
                        },
                    },
                ),
                None => None,
            }
        },
        _ => None,
    }
}

/// Whether the value before a pipe is passed by the last stage.
fn apply_last_stage(v: &ExprValue, e: &[char]) -> (r: Result<bool, ExprError>)
    ensures
        verdict(r) == last_stage(v@, e@),
{
    if let Some(r) = try_called_relation(v, e) {
        return r;
    }
    if let Some((rel, p, f)) = find_bare_relation(e) {
        return match parse_literal(text_behind(e, rel, p)) {
            Err(fault) => Err(fault),
            Ok(w) => match apply_bare(f, v) {
                Err(fault) => Err(fault),
                Ok(x) => compare_values(&x, &w, rel),
            },
        };
    }
    if let Some(x) = try_piped_call(v, e) {
        return as_truth(x);
    }
    if let Some(f) = BuiltinFunction::from_name(e) {
        return as_truth(apply_bare(f, v));
    }
    let shown = text_of(e);
    if read_call(e).is_some() {
        return Err(
            parse_fault(concat("Unbalanced parentheses in function call: ", shown.as_str())),
        );
    }
    match find_relation(e) {
        Some((rel, p)) => match parse_literal(text_behind(e, rel, p)) {
            Err(fault) => Err(fault),
            Ok(w) => compare_values(v, &w, rel),
        },
        None => Err(
            ExprError::Unsupported(concat("Unsupported pipe expression: | ", shown.as_str())),
        ),
    }
}

/// Whether a value passes the stages behind a pipe.
pub fn apply_pipe_filter(v: &ExprValue, s: &[char]) -> (r: Result<bool, ExprError>)
    ensures
        verdict(r) == passes(v@, s@),
    decreases s@.len(),
{
    let e = trimmed(s);
    match find_top_level_pipe(e) {
        Some(p) => {
            let n: usize = e.len();
            let first = trimmed(slice_subrange(e, 0, p));
            let rest = trimmed(slice_subrange(e, p + 1, n));
            match resolve_pipe_stage(v, first) {
                Err(f) => Err(f),
                Ok(w) => apply_pipe_filter(&w, rest),
            }
        },
        None => apply_last_stage(v, e),
    }
}

// ---------------------------------------------------------------------------
// Method calls
// ---------------------------------------------------------------------------

/// The pattern for words with dots between them.
pub open spec fn word_pattern() -> Seq<char> {
    "^\\w+(?:\\.\\w+)*$"@
}

/// Whether `path` is made of words with dots between them.
pub open spec fn is_word_path(path: Seq<char>) -> bool {
    compiles(word_pattern()) && regex_found(word_pattern(), path)
}

/// The field path and the argument of `p.path.includes(argument)`.
pub open spec fn includes_parts(e: Seq<char>) -> Option<(Seq<char>, Seq<char>)> {
    let k = char_index(e, '(');
    let head = e.subrange(0, k);
    let path = head.subrange(2, head.len() - 9);
    let inner = e.subrange(k + 1, e.len() - 1);
    if k + 2 < e.len() && e.last() == ')' && head.len() >= 12 && starts_with(head, seq!['p', '.'])
        && ends_with(head, ".includes"@) && is_word_path(path) && !inner.contains('\n') {
        Some((path, inner))
    } else {
        None
    }
}

/// Whether the text of a field contains the text that `argument` denotes;
/// `method` is how the test was called.
pub open spec fn text_test(
    item: Json,
    path: Seq<char>,
    argument: Seq<char>,
    method: Seq<char>,
) -> Result<bool, Fault> {
    match nested_field(item, path) {
        Err(f) => Err(f),
        Ok(v) => match literal(argument) {
            Err(f) => Err(f),
            Ok(w) => match (v, w) {
                (Json::Str(s), Val::Str(t)) => Ok(contains_text(s, t)),
                _ => Err(
                    Fault::Mismatch(
                        "string"@ + method + "(string)"@,
                        describe_json(v) + method + "("@ + describe(w) + ")"@,
                    ),
                ),
            },
        },
    }
}

/// The truth of `p.path.includes(argument)`.
pub open spec fn includes_value(e: Seq<char>, item: Json) -> Option<Result<bool, Fault>> {
    match includes_parts(e) {
        None => None,
        Some((path, argument)) => Some(text_test(item, path, argument, ".includes"@)),
    }
}

/// A path without the prefix `p.`, where it has it.
pub open spec fn bare_path(s: Seq<char>) -> Seq<char> {
    if starts_with(s, seq!['p', '.']) {
        s.subrange(2, s.len() as int)
    } else {
        s
    }
}

/// The field path and the argument of `path.contains(argument)`, with or without
/// `p.` before the path.
pub open spec fn contains_parts(e: Seq<char>) -> Option<(Seq<char>, Seq<char>)> {
    let k = char_index(e, '(');
    let head = e.subrange(0, k);
    if k + 1 < e.len() && e.last() == ')' && head.len() > ".contains"@.len() && ends_with(
        head,
        ".contains"@,
    ) {
        Some(
            (
                bare_path(head.subrange(0, head.len() - ".contains"@.len())),
                e.subrange(k + 1, e.len() - 1),
            ),
        )
    } else {
        None
    }
}

/// The truth of `path.contains(argument)`.
pub open spec fn contains_value(e: Seq<char>, item: Json) -> Option<Result<bool, Fault>> {
    match contains_parts(e) {
        None => None,
        Some((path, argument)) => Some(text_test(item, path, argument, ".contains"@)),
    }
}

/// The field path and the pattern of `p.path.match(/pattern/...`.
pub open spec fn match_parts(e: Seq<char>) -> Option<(Seq<char>, Seq<char>)> {
    match find_text(e, ".match("@) {
        None => None,
        Some(p) => {
            let before = e.subrange(0, p);
            let args = e.subrange(p + ".match("@.len(), e.len() as int);
            let after = args.subrange(1, args.len() as int);
            let end = char_index(after, '/');
            if starts_with(before, seq!['p', '.']) && args.len() > 0 && args[0] == '/' && end
                < after.len() {
                Some((before.subrange(2, before.len() as int), after.subrange(0, end)))
            } else {
                None
            }
        },
    }
}

/// Whether a text that is a string matches a pattern.
pub open spec fn match_value(e: Seq<char>, item: Json) -> Option<Result<bool, Fault>> {
    match match_parts(e) {
        None => None,
        Some((path, pattern)) => Some(
            match nested_field(item, path) {
                Err(f) => Err(f),
                Ok(v) => if !compiles(pattern) {
                    Err(Fault::Regex(regex_fault(pattern)))
                } else {
                    match v {
                        Json::Str(s) => Ok(regex_found(pattern, s)),
                        _ => Err(Fault::Mismatch("string"@, describe_json(v))),
                    }
                },
            },
        ),
    }
}

/// The truth of a method call.
pub open spec fn method_value(e: Seq<char>, item: Json) -> Option<Result<bool, Fault>> {
    match includes_value(e, item) {
        Some(r) => Some(r),
        None => match contains_value(e, item) {
            Some(r) => Some(r),
            None => match_value(e, item),
        },
    }
}

fn word_path(path: &[char]) -> (r: bool)
    ensures
        r == is_word_path(path@),
{
    let text = text_of(path);
    match pattern_matches("^\\w+(?:\\.\\w+)*$", text.as_str()) {
        Ok(b) => b,
        Err(_) => false,
    }
}

fn has_newline(s: &[char]) -> (r: bool)
    ensures
        r == s@.contains('\n'),
{
    let mut i: usize = 0;
    while i < s.len()
        invariant
            i <= s@.len(),
            forall|j: int| 0 <= j < i ==> s@[j] != '\n',
        decreases s@.len() - i,
    {
        if s[i] == '\n' {
            assert(s@[i as int] == '\n');
            return true;
        }
        i = i + 1;
    }
    false
}

fn read_includes<'a>(e: &'a [char]) -> (r: Option<(&'a [char], &'a [char])>)
    ensures
        match r {
            Some((p, a)) => includes_parts(e@) == Some((p@, a@)),
            None => includes_parts(e@) is None,
        },
{
    let k: usize = index_of_char(e, '(');
    let n: usize = e.len();
    if n < 3 || k >= n - 2 || e[n - 1] != ')' || k < 12 {
        return None;
    }
    let head = slice_subrange(e, 0, k);
    let suffix = chars_of(".includes");
    if !has_prefix(head) || !ends(head, suffix.as_slice()) {
        return None;
    }
    let path = slice_subrange(head, 2, k - 9);
    let inner = slice_subrange(e, k + 1, n - 1);
    if word_path(path) && !has_newline(inner) {
        Some((path, inner))
    } else {
        None
    }
}

fn test_text(item: &Document, path: &[char], argument: &[char], method: &str) -> (r: Result<
    bool,
    ExprError,
>)
    ensures
        verdict(r) == text_test(item@, path@, argument@, method@),
{
    match get_nested_field(item, path) {
        Err(f) => Err(f),
        Ok(v) => match parse_literal(argument) {
            Err(f) => Err(f),
            Ok(w) => match (v, &w) {
                (Document::String(s), ExprValue::String(t)) => {
                    let text = chars_of(s.as_str());
                    let part = chars_of(t.as_str());
                    Ok(holds(text.as_slice(), part.as_slice()))
                },
                _ => {
                    let mut expected: String = concat("string", method);
                    expected.append("(string)");
                    let mut actual: String = json_description(v);
                    actual.append(method);
                    actual.append("(");
                    let shown = description(&w);
                    actual.append(shown.as_str());
                    actual.append(")");
                    Err(mismatch(expected.as_str(), actual))
                },
            },
        },
    }
}

fn eval_includes(e: &[char], item: &Document) -> (r: Option<Result<bool, ExprError>>)
    ensures
        match r {
            Some(x) => includes_value(e@, item@) == Some(verdict(x)),
            None => includes_value(e@, item@) is None,
        },
{
    match read_includes(e) {
        None => None,
        Some((path, argument)) => Some(test_text(item, path, argument, ".includes")),
    }
}

fn read_contains<'a>(e: &'a [char]) -> (r: Option<(&'a [char], &'a [char])>)
    ensures
        match r {
            Some((p, a)) => contains_parts(e@) == Some((p@, a@)),
            None => contains_parts(e@) is None,
        },
{
    let k: usize = index_of_char(e, '(');
    let n: usize = e.len();
    if n < 2 || k >= n - 1 || e[n - 1] != ')' {
        return None;
    }
    let head = slice_subrange(e, 0, k);
    let suffix = chars_of(".contains");
    if head.len() <= suffix.len() || !ends(head, suffix.as_slice()) {
        return None;
    }
    let whole = slice_subrange(head, 0, k - suffix.len());
    let path = if has_prefix(whole) {
        slice_subrange(whole, 2, whole.len())
    } else {
        whole
    };
    Some((path, slice_subrange(e, k + 1, n - 1)))
}

fn eval_contains(e: &[char], item: &Document) -> (r: Option<Result<bool, ExprError>>)
    ensures
        match r {
            Some(x) => contains_value(e@, item@) == Some(verdict(x)),
            None => contains_value(e@, item@) is None,
        },
{
    match read_contains(e) {
        None => None,
        Some((path, argument)) => Some(test_text(item, path, argument, ".contains")),
    }
}

fn read_match<'a>(e: &'a [char]) -> (r: Option<(&'a [char], &'a [char])>)
    ensures
        match r {
            Some((p, a)) => match_parts(e@) == Some((p@, a@)),
            None => match_parts(e@) is None,
        },
{
    let name = chars_of(".match(");
    match find(e, name.as_slice()) {
        None => None,
        Some(p) => {
            let n: usize = e.len();
            let before = slice_subrange(e, 0, p);
            let args = slice_subrange(e, p + name.len(), n);
            if !has_prefix(before) || args.len() == 0 || args[0] != '/' {
                return None;
            }
            let after = slice_subrange(args, 1, args.len());
            let end: usize = index_of_char(after, '/');
            if end >= after.len() {
                return None;
            }
            Some((slice_subrange(before, 2, before.len()), slice_subrange(after, 0, end)))
        },
    }
}

fn eval_match(e: &[char], item: &Document) -> (r: Option<Result<bool, ExprError>>)
    ensures
        match r {
            Some(x) => match_value(e@, item@) == Some(verdict(x)),
            None => match_value(e@, item@) is None,
        },
{
    match read_match(e) {
        None => None,
        Some((path, pattern)) => Some(
            match get_nested_field(item, path) {
                Err(f) => Err(f),
                Ok(v) => {
                    let pat = text_of(pattern);
                    match v {
                        Document::String(s) => match pattern_matches(pat.as_str(), s.as_str()) {
                            Ok(b) => Ok(b),
                            Err(m) => Err(ExprError::RegexError(m)),
                        },
                        _ => match get_cached_regex(pat.as_str()) {
                            Ok(_) => Err(mismatch("string", json_description(v))),
                            Err(m) => Err(ExprError::RegexError(m)),
                        },
                    }
                },
            },
        ),
    }
}

/// Evaluates `p.path.includes("text")`, `path.contains("text")` and
/// `p.path.match(/pattern/)`.
pub fn eval_method_call(e: &[char], item: &Document) -> (r: Option<Result<bool, ExprError>>)
    ensures
        match r {
            Some(x) => method_value(e@, item@) == Some(verdict(x)),
            None => method_value(e@, item@) is None,
        },
{
    match eval_includes(e, item) {
        Some(r) => Some(r),
        None => match eval_contains(e, item) {
            Some(r) => Some(r),
            None => eval_match(e, item),
        },
    }
}

// ---------------------------------------------------------------------------
// Predicates
// ---------------------------------------------------------------------------

/// The greatest depth of nested expressions.
pub const MAX_PRED_DEPTH: u32 = 64;

/// The message for an expression that is nested too deeply.
pub open spec fn too_deep() -> Seq<char> {
    "Expression recursion depth exceeded limit (64). Check for excessively nested parentheses or operators."@
}

/// The left operand of a relation: a call or a field.
pub open spec fn left_operand(s: Seq<char>, item: Json) -> Result<Val, Fault> {
    match call_value(s, item) {
        Err(f) => Err(f),
        Ok(Some(v)) => Ok(v),
        Ok(None) => field_value(s, item),
    }
}

/// Whether a predicate without logical operators, pipes and enclosing brackets
/// holds.
pub open spec fn simple_predicate(e: Seq<char>, item: Json) -> Result<bool, Fault> {
    match first_relation(e, 0) {
        Some((rel, p)) => match left_operand(trim(e.subrange(0, p)), item) {
            Err(f) => Err(f),
            Ok(v) => match literal(behind(e, rel, p)) {
                Err(f) => Err(f),
                Ok(w) => related(v, w, rel),
            },
        },
        None => match method_value(e, item) {
            Some(r) => r,
            None => match call_value(e, item) {
                Err(f) => Err(f),
                Ok(Some(v)) => truth(Ok(v)),
                Ok(None) => Err(Fault::Unsupported(e)),
            },
        },
    }
}

/// Whether a predicate holds of an item, `depth` levels down.
///
/// An expression is split at the first `||`, else at the first `&&`; the right
/// side counts only where the left one does not decide.
pub open spec fn predicate_at(s: Seq<char>, item: Json, depth: int) -> Result<bool, Fault>
    decreases MAX_PRED_DEPTH + 1 - depth,
{
    let e = trim(s);
    if depth > MAX_PRED_DEPTH {
        Err(Fault::Parse(too_deep()))
    } else if find_operator(e, seq!['|', '|']) is Some {
        let p = find_operator(e, seq!['|', '|'])->0;
        match predicate_at(trim(e.subrange(0, p)), item, depth + 1) {
            Err(f) => Err(f),
            Ok(true) => Ok(true),
            Ok(false) => predicate_at(trim(e.subrange(p + 2, e.len() as int)), item, depth + 1),
        }
    } else if find_operator(e, seq!['&', '&']) is Some {
        let p = find_operator(e, seq!['&', '&'])->0;
        match predicate_at(trim(e.subrange(0, p)), item, depth + 1) {
            Err(f) => Err(f),
            Ok(false) => Ok(false),
            Ok(true) => predicate_at(trim(e.subrange(p + 2, e.len() as int)), item, depth + 1),
        }
    } else if e.len() > 0 && e[0] == '!' {
        match predicate_at(trim(e.subrange(1, e.len() as int)), item, depth + 1) {
            Err(f) => Err(f),
            Ok(b) => Ok(!b),
        }
    } else if find_pipe(e) is Some {
        let p = find_pipe(e)->0;
        match operand(trim(e.subrange(0, p)), item) {
            Err(f) => Err(f),
            Ok(v) => passes(v, trim(e.subrange(p + 1, e.len() as int))),
        }
    } else if unwrapped(e) is Some {
        predicate_at(unwrapped(e)->0, item, depth + 1)
    } else {
        simple_predicate(e, item)
    }
}

/// Whether a predicate holds of an item.
pub open spec fn predicate(s: Seq<char>, item: Json) -> Result<bool, Fault> {
    predicate_at(s, item, 0)
}

fn eval_simple(e: &[char], item: &Document) -> (r: Result<bool, ExprError>)
    ensures
        verdict(r) == simple_predicate(e@, item@),
{
    if let Some((rel, p)) = find_relation(e) {
        let left = trimmed(slice_subrange(e, 0, p));
        let value = match try_eval_function_call(left, item) {
            Err(f) => return Err(f),
            Ok(Some(v)) => v,
            Ok(None) => match resolve_value_expr(left, item) {
                Err(f) => return Err(f),
                Ok(v) => v,
            },
        };
        return match parse_literal(text_behind(e, rel, p)) {
            Err(f) => Err(f),
            Ok(w) => compare_values(&value, &w, rel),
        };
    }
    if let Some(r) = eval_method_call(e, item) {
        return r;
    }
    match try_eval_function_call(e, item) {
        Err(f) => Err(f),
        Ok(Some(v)) => as_truth(Ok(v)),
        Ok(None) => Err(ExprError::Unsupported(text_of(e))),
    }
}

/// Evaluates a predicate `depth` levels down.
pub fn evaluate_predicate_inner(s: &[char], item: &Document, depth: u32) -> (r: Result<
    bool,
    ExprError,
>)
    requires
        depth <= MAX_PRED_DEPTH + 1,
    ensures
        verdict(r) == predicate_at(s@, item@, depth as int),
    decreases MAX_PRED_DEPTH + 1 - depth,
{
    if depth > MAX_PRED_DEPTH {
        return Err(
            parse_fault(
                "Expression recursion depth exceeded limit (64). Check for excessively nested parentheses or operators.".to_owned(),
            ),
        );
    }
    let e = trimmed(s);
    let n: usize = e.len();
    let either: [char; 2] = ['|', '|'];
    let both: [char; 2] = ['&', '&'];
    assert(either@ =~= seq!['|', '|']);
    assert(both@ =~= seq!['&', '&']);
    if let Some(p) = find_top_level_operator(e, &either) {
        let left = trimmed(slice_subrange(e, 0, p));
        let right = trimmed(slice_subrange(e, p + 2, n));
        return match evaluate_predicate_inner(left, item, depth + 1) {
            Err(f) => Err(f),
            Ok(true) => Ok(true),
            Ok(false) => evaluate_predicate_inner(right, item, depth + 1),
        };
    }
    if let Some(p) = find_top_level_operator(e, &both) {
        let left = trimmed(slice_subrange(e, 0, p));
        let right = trimmed(slice_subrange(e, p + 2, n));
        return match evaluate_predicate_inner(left, item, depth + 1) {
            Err(f) => Err(f),
            Ok(false) => Ok(false),
            Ok(true) => evaluate_predicate_inner(right, item, depth + 1),
        };
    }
    if n > 0 && e[0] == '!' {
        let rest = trimmed(slice_subrange(e, 1, n));
        return match evaluate_predicate_inner(rest, item, depth + 1) {
            Err(f) => Err(f),
            Ok(b) => Ok(!b),
        };
    }
    if let Some(p) = find_top_level_pipe(e) {
        let left = trimmed(slice_subrange(e, 0, p));
        let right = trimmed(slice_subrange(e, p + 1, n));
        return match resolve_expr_to_value(left, item) {
            Err(f) => Err(f),
            Ok(v) => apply_pipe_filter(&v, right),
        };
    }
    if let Some(inner) = strip_outer_parens(e) {
        return evaluate_predicate_inner(inner, item, depth + 1);
    }
    eval_simple(e, item)
}

/// Evaluates a predicate against an item.
pub fn evaluate_predicate(expr: &str, item: &Document) -> (r: Result<bool, ExprError>)
    ensures
        verdict(r) == predicate(expr@, item@),
{
    let chars = chars_of(expr);
    evaluate_predicate_inner(chars.as_slice(), item, 0)
}

// ---------------------------------------------------------------------------
// Laws
// ---------------------------------------------------------------------------

/// Where neither `||` nor `&&` stands at the top level, `!` negates.
pub proof fn not_negates(s: Seq<char>, item: Json, depth: int)
    requires
        depth <= MAX_PRED_DEPTH,
        trim(s).len() > 0,
        trim(s)[0] == '!',
        find_operator(trim(s), seq!['|', '|']) is None,
        find_operator(trim(s), seq!['&', '&']) is None,
    ensures
        ({
            let e = trim(s);
            let inner = predicate_at(trim(e.subrange(1, e.len() as int)), item, depth + 1);
            match predicate_at(s, item, depth) {
                Ok(b) => inner == Ok::<bool, Fault>(!b),
                Err(f) => inner == Err::<bool, Fault>(f),
            }
        }),
{
}

/// A relation and its opposite: where one has an answer, so has the other, and
/// the answers differ, unless one of the sides is not a number.
pub proof fn relations_complement(a: Val, b: Val)
    ensures
        related(a, b, Relation::Equal) is Ok,
        related(a, b, Relation::NotEqual) is Ok,
        related(a, b, Relation::Equal)->Ok_0 == !related(a, b, Relation::NotEqual)->Ok_0,
        related(a, b, Relation::Above) is Ok <==> related(a, b, Relation::AtMost) is Ok,
        related(a, b, Relation::Below) is Ok <==> related(a, b, Relation::AtLeast) is Ok,
        related(a, b, Relation::Above) is Ok && a != Val::Num(crate::number::Num::NotANumber) && b
            != Val::Num(crate::number::Num::NotANumber) ==> related(a, b, Relation::Above)->Ok_0
            == !related(a, b, Relation::AtMost)->Ok_0 && related(a, b, Relation::Below)->Ok_0
            == !related(a, b, Relation::AtLeast)->Ok_0,
{
}

/// Nesting beyond the limit is refused whatever the expression is.
pub proof fn depth_is_limited(s: Seq<char>, item: Json, depth: int)
    requires
        depth > MAX_PRED_DEPTH,
    ensures
        predicate_at(s, item, depth) == Err::<bool, Fault>(Fault::Parse(too_deep())),
{
}

/// White space around an expression does not matter.
pub proof fn white_space_around_does_not_matter(s: Seq<char>, item: Json, depth: int)
    ensures
        predicate_at(trim(s), item, depth) == predicate_at(s, item, depth),
{
    trim_twice(s);
}

/// An expression with `||` outside brackets and strings holds where what stands
/// before the first `||` holds, and else where what stands behind it holds; a
/// fault on the left is the fault of the whole.  Whether `&&` stands outside
/// brackets and strings too does not matter.
#[verifier::rlimit(40)]
pub proof fn or_decides_first(s: Seq<char>, item: Json, depth: int, p: int)
    requires
        depth <= MAX_PRED_DEPTH,
        stands_first(trim(s), seq!['|', '|'], p),
    ensures
        predicate_at(s, item, depth) == (match predicate_at(trim(s).take(p), item, depth + 1) {
            Ok(false) => predicate_at(trim(s).skip(p + 2), item, depth + 1),
            other => other,
        }),
{
    let e = trim(s);
    first_operator(e, seq!['|', '|']);
    assert(e.take(p) =~= e.subrange(0, p));
    assert(e.skip(p + 2) =~= e.subrange(p + 2, e.len() as int));
    white_space_around_does_not_matter(e.take(p), item, depth + 1);
    white_space_around_does_not_matter(e.skip(p + 2), item, depth + 1);
}

/// An expression with `&&`, and without `||`, outside brackets and strings holds
/// where both what stands before the first `&&` and what stands behind it hold;
/// the right side is only asked where the left one holds.
#[verifier::rlimit(40)]
pub proof fn and_decides_next(s: Seq<char>, item: Json, depth: int, p: int)
    requires
        depth <= MAX_PRED_DEPTH,
        lacks_operator(trim(s), seq!['|', '|']),
        stands_first(trim(s), seq!['&', '&'], p),
    ensures
        predicate_at(s, item, depth) == (match predicate_at(trim(s).take(p), item, depth + 1) {
            Ok(true) => predicate_at(trim(s).skip(p + 2), item, depth + 1),
            other => other,
        }),
{
    let e = trim(s);
    first_operator(e, seq!['|', '|']);
    first_operator(e, seq!['&', '&']);
    assert(e.take(p) =~= e.subrange(0, p));
    assert(e.skip(p + 2) =~= e.subrange(p + 2, e.len() as int));
    white_space_around_does_not_matter(e.take(p), item, depth + 1);
    white_space_around_does_not_matter(e.skip(p + 2), item, depth + 1);
}

/// Two texts with an operator between them.
pub open spec fn operation(a: Seq<char>, op: Seq<char>, b: Seq<char>) -> Seq<char> {
    a + seq![' '] + op + seq![' '] + b
}

/// Whether a text can stand beside an operator as it is: there is something in it,
/// no white space at its ends, and every bracket and string is closed.
pub open spec fn standing(s: Seq<char>) -> bool {
    s.len() > 0 && tight(s) && complete(operator_rules(), s)
}

proof fn operation_is_tight(a: Seq<char>, op: Seq<char>, b: Seq<char>)
    requires
        a.len() > 0 && tight(a),
        b.len() > 0 && tight(b),
    ensures
        tight(operation(a, op, b)),
        trim(operation(a, op, b)) == operation(a, op, b),
{
    let s = operation(a, op, b);
    assert(s[0] == a[0]);
    assert(s.last() == b.last());
    trim_of_tight(s);
}

#[verifier::rlimit(40)]
proof fn sides_of_operation(a: Seq<char>, op: Seq<char>, b: Seq<char>, item: Json, depth: int)
    requires
        a.len() > 0 && tight(a),
        b.len() > 0 && tight(b),
    ensures
        predicate_at(operation(a, op, b).take(a.len() as int + 1), item, depth) == predicate_at(
            a,
            item,
            depth,
        ),
        predicate_at(operation(a, op, b).skip(a.len() as int + 1 + op.len()), item, depth)
            == predicate_at(b, item, depth),
        trim(operation(a, op, b).take(a.len() as int + 1)) == a,
        trim(operation(a, op, b).skip(a.len() as int + 1 + op.len())) == b,
{
    let s = operation(a, op, b);
    let left = s.take(a.len() as int + 1);
    let right = s.skip(a.len() as int + 1 + op.len());
    trim_of_padded(Seq::empty(), a, seq![' ']);
    assert(left =~= Seq::<char>::empty() + a + seq![' ']);
    trim_of_padded(seq![' '], b, Seq::empty());
    assert(right =~= seq![' '] + b + Seq::<char>::empty());
    white_space_around_does_not_matter(left, item, depth);
    white_space_around_does_not_matter(right, item, depth);
}

/// `a || b` holds where `a` does, and else where `b` does, whatever operators
/// stand in `b` and whether or not `&&` stands in `a`.
#[verifier::rlimit(40)]
pub proof fn either_of_two(a: Seq<char>, b: Seq<char>, item: Json, depth: int)
    requires
        depth <= MAX_PRED_DEPTH,
        standing(a),
        lacks_operator(a, seq!['|', '|']),
        b.len() > 0 && tight(b),
    ensures
        predicate_at(operation(a, "||"@, b), item, depth) == (match predicate_at(
            a,
            item,
            depth + 1,
        ) {
            Ok(false) => predicate_at(b, item, depth + 1),
            other => other,
        }),
{
    reveal_strlit("||");
    let op = seq!['|', '|'];
    assert("||"@ =~= op);
    let s = operation(a, op, b);
    operation_is_tight(a, op, b);
    operator_between(a, op, b);
    let p = a.len() as int + 1;
    first_operator(s, op);
    or_decides_first(s, item, depth, p);
    sides_of_operation(a, op, b, item, depth + 1);
}

/// `a && b`, without `||` outside brackets and strings, holds where both do.
#[verifier::rlimit(40)]
pub proof fn both_of_two(a: Seq<char>, b: Seq<char>, item: Json, depth: int)
    requires
        depth <= MAX_PRED_DEPTH,
        standing(a),
        lacks_operator(a, seq!['&', '&']),
        lacks_operator(a, seq!['|', '|']),
        lacks_operator(b, seq!['|', '|']),
        b.len() > 0 && tight(b),
    ensures
        predicate_at(operation(a, "&&"@, b), item, depth) == (match predicate_at(
            a,
            item,
            depth + 1,
        ) {
            Ok(true) => predicate_at(b, item, depth + 1),
            other => other,
        }),
{
    reveal_strlit("&&");
    let op = seq!['&', '&'];
    assert("&&"@ =~= op);
    let s = operation(a, op, b);
    operation_is_tight(a, op, b);
    operator_between(a, op, b);
    and_lacks_or(a, b);
    let p = a.len() as int + 1;
    first_operator(s, op);
    and_decides_next(s, item, depth, p);
    sides_of_operation(a, op, b, item, depth + 1);
}

#[verifier::rlimit(40)]
proof fn and_lacks_or(a: Seq<char>, b: Seq<char>)
    requires
        complete(operator_rules(), a),
        lacks_operator(a, seq!['|', '|']),
        lacks_operator(b, seq!['|', '|']),
    ensures
        lacks_operator(operation(a, seq!['&', '&'], b), seq!['|', '|']),
        complete(operator_rules(), b) ==> complete(
            operator_rules(),
            operation(a, seq!['&', '&'], b),
        ),
{
    let or = seq!['|', '|'];
    let and = seq!['&', '&'];
    let rules = operator_rules();
    assert(!and.contains('|'));
    no_operator_without_its_sign(and, or);
    assert(!or.contains(' '));
    let front = a + seq![' '] + and;
    operator_in_parts(a, and, or);
    assert(all_inert(rules, seq![' '] + and));
    scan_of_inert(rules, seq![' '] + and, 3);
    complete_in_parts(rules, a, seq![' '] + and);
    assert(a + (seq![' '] + and) =~= front);
    operator_in_parts(front, b, or);
    assert(front + seq![' '] + b =~= operation(a, and, b));
    assert(all_inert(rules, seq![' ']));
    scan_of_inert(rules, seq![' '], 1);
    complete_in_parts(rules, front, seq![' ']);
    complete_in_parts(rules, front + seq![' '], b);
}

/// `&&` binds tighter than `||`: `a && b || c` holds where `a` and `b` both hold,
/// and else where `c` holds; `a || b && c` holds where `a` holds, and else where
/// `b` and `c` both hold.
#[verifier::rlimit(40)]
pub proof fn and_binds_tighter_than_or(
    a: Seq<char>,
    b: Seq<char>,
    c: Seq<char>,
    item: Json,
    depth: int,
)
    requires
        depth < MAX_PRED_DEPTH,
        standing(a) && standing(b) && standing(c),
        lacks_operator(a, seq!['|', '|']) && lacks_operator(a, seq!['&', '&']),
        lacks_operator(b, seq!['|', '|']) && lacks_operator(b, seq!['&', '&']),
        lacks_operator(c, seq!['|', '|']),
    ensures
        predicate_at(operation(operation(a, "&&"@, b), "||"@, c), item, depth) == (match (
            predicate_at(a, item, depth + 2),
            predicate_at(b, item, depth + 2),
        ) {
            (Ok(true), Ok(true)) => Ok(true),
            (Err(f), _) => Err(f),
            (Ok(true), Err(f)) => Err(f),
            _ => predicate_at(c, item, depth + 1),
        }),
        predicate_at(operation(a, "||"@, operation(b, "&&"@, c)), item, depth) == (match (
            predicate_at(a, item, depth + 1),
            predicate_at(b, item, depth + 2),
        ) {
            (Ok(true), _) => Ok(true),
            (Err(f), _) => Err(f),
            (_, Ok(true)) => predicate_at(c, item, depth + 2),
            (_, other) => other,
        }),
{
    and_before_or(a, b, c, item, depth);
    or_before_and(a, b, c, item, depth);
}

proof fn and_is_standing(a: Seq<char>, b: Seq<char>)
    requires
        standing(a) && standing(b),
        lacks_operator(a, seq!['|', '|']),
        lacks_operator(b, seq!['|', '|']),
    ensures
        standing(operation(a, "&&"@, b)),
        lacks_operator(operation(a, "&&"@, b), seq!['|', '|']),
{
    reveal_strlit("&&");
    assert("&&"@ =~= seq!['&', '&']);
    and_lacks_or(a, b);
    operation_is_tight(a, "&&"@, b);
}

#[verifier::rlimit(40)]
proof fn and_before_or(a: Seq<char>, b: Seq<char>, c: Seq<char>, item: Json, depth: int)
    requires
        depth < MAX_PRED_DEPTH,
        standing(a) && standing(b) && standing(c),
        lacks_operator(a, seq!['|', '|']) && lacks_operator(a, seq!['&', '&']),
        lacks_operator(b, seq!['|', '|']),
    ensures
        predicate_at(operation(operation(a, "&&"@, b), "||"@, c), item, depth) == (match (
            predicate_at(a, item, depth + 2),
            predicate_at(b, item, depth + 2),
        ) {
            (Ok(true), Ok(true)) => Ok(true),
            (Err(f), _) => Err(f),
            (Ok(true), Err(f)) => Err(f),
            _ => predicate_at(c, item, depth + 1),
        }),
{
    and_is_standing(a, b);
    either_of_two(operation(a, "&&"@, b), c, item, depth);
    both_of_two(a, b, item, depth + 1);
}

#[verifier::rlimit(40)]
proof fn or_before_and(a: Seq<char>, b: Seq<char>, c: Seq<char>, item: Json, depth: int)
    requires
        depth < MAX_PRED_DEPTH,
        standing(a) && standing(b) && standing(c),
        lacks_operator(a, seq!['|', '|']),
        lacks_operator(b, seq!['|', '|']) && lacks_operator(b, seq!['&', '&']),
        lacks_operator(c, seq!['|', '|']),
    ensures
        predicate_at(operation(a, "||"@, operation(b, "&&"@, c)), item, depth) == (match (
            predicate_at(a, item, depth + 1),
            predicate_at(b, item, depth + 2),
        ) {
            (Ok(true), _) => Ok(true),
            (Err(f), _) => Err(f),
            (_, Ok(true)) => predicate_at(c, item, depth + 2),
            (_, other) => other,
        }),
{
    and_is_standing(b, c);
    either_of_two(a, operation(b, "&&"@, c), item, depth);
    both_of_two(b, c, item, depth + 1);
}

/// Brackets around an expression only group: the expression holds where what
/// stands between them holds one level further down.
#[verifier::rlimit(40)]
pub proof fn brackets_only_group(s: Seq<char>, item: Json, depth: int)
    requires
        depth <= MAX_PRED_DEPTH,
        complete(operator_rules(), s),
        never_below(operator_rules(), s),
        never_below(pipe_rules(), s),
    ensures
        predicate_at(seq!['('] + s + seq![')'], item, depth) == predicate_at(s, item, depth + 1),
{
    let t = seq!['('] + s + seq![')'];
    assert(t[0] == '(' && t.last() == ')');
    trim_of_tight(t);
    enclosed_operator_is_not_found(s, seq!['|', '|']);
    enclosed_operator_is_not_found(s, seq!['&', '&']);
    first_operator(t, seq!['|', '|']);
    first_operator(t, seq!['&', '&']);
    content_of_brackets(s, Seq::empty());
    first_pipe(t);
    if let Some(p) = find_pipe(t) {
        assert(0 < p <= s.len());
        brackets_enclose(pipe_rules(), s, p - 1);
        assert(lex_at(pipe_rules(), s, p - 1).depth >= 0);
    }
}

/// `!` before an expression without `||` and `&&` outside brackets and strings
/// turns the answer round, and keeps a fault.
#[verifier::rlimit(40)]
pub proof fn exclamation_mark_negates(s: Seq<char>, item: Json, depth: int)
    requires
        depth <= MAX_PRED_DEPTH,
        s.len() > 0 && !white(s.last()),
        lacks_operator(s, seq!['|', '|']),
        lacks_operator(s, seq!['&', '&']),
    ensures
        predicate_at(seq!['!'] + s, item, depth) == (match predicate_at(s, item, depth + 1) {
            Ok(b) => Ok(!b),
            Err(f) => Err(f),
        }),
{
    let t = seq!['!'] + s;
    assert(t[0] == '!' && t.last() == s.last());
    trim_of_tight(t);
    one_more_in_front('!', s, seq!['|', '|']);
    one_more_in_front('!', s, seq!['&', '&']);
    first_operator(t, seq!['|', '|']);
    first_operator(t, seq!['&', '&']);
    assert(t.subrange(1, t.len() as int) =~= s);
    white_space_around_does_not_matter(s, item, depth + 1);
}

#[verifier::rlimit(40)]
proof fn one_more_in_front(c: char, s: Seq<char>, op: Seq<char>)
    requires
        inert(operator_rules(), c),
        op.len() == 2 && op[0] != c,
        lacks_operator(s, op),
    ensures
        lacks_operator(seq![c] + s, op),
{
    let t = seq![c] + s;
    assert(all_inert(operator_rules(), seq![c]));
    scan_of_inert(operator_rules(), seq![c], 1);
    assert forall|j: int| 0 <= j < t.len() implies !#[trigger] operator_at(t, op, j) by {
        if operator_at(t, op, j) {
            let w = t.subrange(j, j + 2);
            assert(w[0] == t[j]);
            scan_of_end(operator_rules(), seq![c], s, j - 1);
            assert(s.subrange(j - 1, j + 1) =~= w);
            assert(operator_at(s, op, j - 1));
        }
    }
}

/// Whether a text is a simple literal: a number, a word, or a text in quotes in
/// which neither that quote nor a backslash stands.
pub open spec fn simple_literal(w: Seq<char>) -> bool {
    ||| is_dotted(w)
    ||| quoted_literal(w)
}

/// Whether a text is a text in quotes in which neither that quote nor a backslash
/// stands.
pub open spec fn quoted_literal(w: Seq<char>) -> bool {
    &&& w.len() >= 2
    &&& w[0] == '"' || w[0] == '\''
    &&& w.last() == w[0]
    &&& !w.subrange(1, w.len() - 1).contains(w[0])
    &&& !w.subrange(1, w.len() - 1).contains('\\')
}

/// Whether a character begins an operator of predicates.
pub open spec fn operator_sign(c: char) -> bool {
    c == '|' || c == '&' || c == '!' || c == '=' || c == '<' || c == '>'
}

#[verifier::rlimit(40)]
proof fn literal_is_closed(rules: Rules, w: Seq<char>)
    requires
        simple_literal(w),
    ensures
        w.len() > 0 && tight(w),
        complete(rules, w),
        never_below(rules, w),
        forall|j: int|
            0 <= j < w.len() && operator_sign(#[trigger] w[j]) ==> !plain(lex_at(rules, w, j)),
{
    if is_dotted(w) {
        assert forall|i: int| 0 <= i < w.len() implies inert(rules, #[trigger] w[i]) by {
            assert(key_char(w[i]) || w[i] == '.');
        }
        assert forall|i: int| 0 <= i <= w.len() implies #[trigger] lex_at(rules, w, i)
            == fresh() by {
            scan_of_inert(rules, w, i);
        }
        assert(key_char(w[0]) || w[0] == '.');
        assert(key_char(w[w.len() - 1]) || w[w.len() - 1] == '.');
        scan_of_inert(rules, w, w.len() as int);
        assert forall|j: int| 0 <= j < w.len() && operator_sign(#[trigger] w[j]) implies !plain(
            lex_at(rules, w, j),
        ) by {
            assert(key_char(w[j]) || w[j] == '.');
        }
    } else {
        let q = w[0];
        let t = w.subrange(1, w.len() - 1);
        assert(w =~= seq![q] + t + seq![q]);
        strings_are_closed(rules, q, t);
        assert forall|i: int| 0 <= i <= w.len() implies (#[trigger] lex_at(rules, w, i)).depth
            >= 0 by {
            if 0 < i < w.len() {
                depth_in_string(rules, q, t, i);
            }
        }
        assert forall|j: int| 0 <= j < w.len() && operator_sign(#[trigger] w[j]) implies !plain(
            lex_at(rules, w, j),
        ) by {
            assert(j > 0);
        }
    }
}

#[verifier::rlimit(40)]
proof fn depth_in_string(rules: Rules, q: char, t: Seq<char>, i: int)
    requires
        q == '"' || q == '\'',
        !t.contains(q),
        !t.contains('\\'),
        0 < i <= t.len() + 1,
    ensures
        lex_at(rules, seq![q] + t + seq![q], i).depth == 0,
    decreases i,
{
    let s = seq![q] + t + seq![q];
    strings_are_closed(rules, q, t);
    if i > 1 {
        depth_in_string(rules, q, t, i - 1);
        assert(!plain(lex_at(rules, s, i - 1)));
    } else {
        assert(lex_at(rules, s, 0) == fresh());
        assert(lex_at(rules, s, 1) == lex_step(rules, lex_at(rules, s, 0), s[0]));
    }
}

#[verifier::rlimit(40)]
proof fn literal_lacks(w: Seq<char>, op: Seq<char>)
    requires
        simple_literal(w),
        op.len() > 0,
        operator_sign(op[0]),
    ensures
        lacks_operator(w, op),
        find_pipe(w) is None,
{
    literal_is_closed(operator_rules(), w);
    literal_is_closed(pipe_rules(), w);
    assert forall|j: int| 0 <= j < w.len() implies !#[trigger] operator_at(w, op, j) by {
        if operator_at(w, op, j) {
            assert(w.subrange(j, j + op.len())[0] == w[j]);
        }
    }
    first_pipe(w);
    if let Some(p) = find_pipe(w) {
        assert(operator_sign(w[p]));
    }
}

/// Whether a sign stands for a relation.
pub open spec fn sign_stands_for(sign: Seq<char>, rel: Relation) -> bool {
    match rel {
        Relation::Equal => sign == "=="@,
        Relation::NotEqual => sign == "!="@,
        Relation::AtLeast => sign == ">="@,
        Relation::AtMost => sign == "<="@,
        Relation::Above => sign == ">"@,
        Relation::Below => sign == "<"@,
    }
}

#[verifier::rlimit(40)]
proof fn sign_is_sign(sign: Seq<char>, rel: Relation)
    requires
        sign_stands_for(sign, rel),
    ensures
        sign == relation_sign(rel),
        0 < sign.len() <= 2,
        operator_sign(sign[0]),
        !sign.contains(' ') && !sign.contains('|') && !sign.contains('&'),
        all_inert(operator_rules(), sign),
{
    reveal_strlit("==");
    reveal_strlit("!=");
    reveal_strlit(">=");
    reveal_strlit("<=");
    reveal_strlit(">");
    reveal_strlit("<");
    assert(sign =~= relation_sign(rel));
    assert forall|i: int| 0 <= i < sign.len() implies inert(operator_rules(), #[trigger] sign[i]) by {}
}

#[verifier::rlimit(40)]
proof fn earlier_signs_do_not_stand_in_it(rel: Relation, j: int)
    requires
        0 <= j < RELATIONS,
        relation(j) != rel,
        forall|i: int| 0 <= i <= j ==> #[trigger] relation(i) != rel,
    ensures
        lacks_operator(relation_sign(rel), relation_sign(relation(j))),
{
    let s = relation_sign(rel);
    let op = relation_sign(relation(j));
    assert(relation(0) != rel);
    if j >= 1 {
        assert(relation(1) != rel);
    }
    if j >= 2 {
        assert(relation(2) != rel);
    }
    if j >= 3 {
        assert(relation(3) != rel);
    }
    if j >= 4 {
        assert(relation(4) != rel);
    }
    assert forall|i: int| 0 <= i < s.len() implies !#[trigger] operator_at(s, op, i) by {
        if operator_at(s, op, i) {
            let w = s.subrange(i, i + op.len());
            assert(w[0] == s[i]);
            if op.len() == 2 {
                assert(w[1] == s[i + 1]);
            }
        }
    }
}

#[verifier::rlimit(40)]
proof fn signs_apart(left: Seq<char>, sign: Seq<char>, w: Seq<char>, op: Seq<char>)
    requires
        complete(operator_rules(), left),
        all_inert(operator_rules(), sign),
        lacks_operator(left, op),
        lacks_operator(sign, op),
        lacks_operator(w, op),
        op.len() > 0,
        !op.contains(' '),
    ensures
        lacks_operator(operation(left, sign, w), op),
{
    let rules = operator_rules();
    operator_in_parts(left, sign, op);
    let tail = seq![' '] + sign;
    assert forall|i: int| 0 <= i < tail.len() implies inert(rules, #[trigger] tail[i]) by {
        if i > 0 {
            assert(tail[i] == sign[i - 1]);
        }
    }
    scan_of_inert(rules, tail, tail.len() as int);
    complete_in_parts(rules, left, tail);
    assert(left + tail =~= left + seq![' '] + sign);
    operator_in_parts(left + seq![' '] + sign, w, op);
    assert(left + seq![' '] + sign + seq![' '] + w =~= operation(left, sign, w));
}

#[verifier::rlimit(40)]
proof fn first_relation_is(e: Seq<char>, rel: Relation, p: int, k: int)
    requires
        0 <= k < RELATIONS,
        find_operator(e, relation_sign(rel)) == Some(p),
        forall|i: int|
            k <= i < RELATIONS && (forall|m: int| 0 <= m <= i ==> #[trigger] relation(m) != rel)
                ==> find_operator(e, relation_sign(#[trigger] relation(i))) is None,
        forall|m: int| 0 <= m < k ==> #[trigger] relation(m) != rel,
    ensures
        first_relation(e, k) == Some((rel, p)),
    decreases RELATIONS - k,
{
    if relation(k) != rel {
        assert forall|m: int| 0 <= m <= k implies #[trigger] relation(m) != rel by {}
        assert(find_operator(e, relation_sign(relation(k))) is None);
        assert(k < 5) by {
            assert(relation(0) != rel);
            if k >= 5 {
                assert(relation(1) != rel);
                assert(relation(2) != rel);
                assert(relation(3) != rel);
                assert(relation(4) != rel);
                assert(relation(5) != rel);
            }
        }
        first_relation_is(e, rel, p, k + 1);
    }
}

/// What stands on the left of a relation, where nothing in it splits the
/// expression.
pub open spec fn left_side(s: Seq<char>) -> bool {
    &&& standing(s)
    &&& s[0] != '!' && s[0] != '('
    &&& find_pipe(s) is None && complete(pipe_rules(), s)
    &&& forall|op: Seq<char>|
        op.len() > 0 && operator_sign(op[0]) ==> #[trigger] lacks_operator(s, op)
}

#[verifier::rlimit(40)]
proof fn nothing_splits_a_relation(left: Seq<char>, sign: Seq<char>, rel: Relation, w: Seq<char>)
    requires
        left_side(left),
        sign_stands_for(sign, rel),
        simple_literal(w),
    ensures
        trim(operation(left, sign, w)) == operation(left, sign, w),
        find_operator(operation(left, sign, w), seq!['|', '|']) is None,
        find_operator(operation(left, sign, w), seq!['&', '&']) is None,
        find_pipe(operation(left, sign, w)) is None,
{
    let or = seq!['|', '|'];
    let and = seq!['&', '&'];
    let e = operation(left, sign, w);
    sign_is_sign(sign, rel);
    literal_is_closed(operator_rules(), w);
    operation_is_tight(left, sign, w);
    literal_lacks(w, or);
    literal_lacks(w, and);
    no_operator_without_its_sign(sign, or);
    no_operator_without_its_sign(sign, and);
    assert(lacks_operator(left, or) && lacks_operator(left, and));
    assert(!or.contains(' ') && !and.contains(' '));
    signs_apart(left, sign, w, or);
    signs_apart(left, sign, w, and);
    first_operator(e, or);
    first_operator(e, and);
    first_pipe(e);
    if let Some(p) = find_pipe(e) {
        pipe_in_operation(left, sign, w, p);
    }
}

#[verifier::rlimit(40)]
proof fn the_relation_is_found(left: Seq<char>, sign: Seq<char>, rel: Relation, w: Seq<char>)
    requires
        left_side(left),
        sign_stands_for(sign, rel),
        simple_literal(w),
    ensures
        first_relation(operation(left, sign, w), 0) == Some((rel, left.len() as int + 1)),
        find_operator(operation(left, sign, w), sign) == Some(left.len() as int + 1),
        forall|i: int|
            0 <= i < RELATIONS && (forall|m: int| 0 <= m <= i ==> #[trigger] relation(m) != rel)
                ==> find_operator(
                operation(left, sign, w),
                relation_sign(#[trigger] relation(i)),
            ) is None,
{
    let e = operation(left, sign, w);
    sign_is_sign(sign, rel);
    assert(lacks_operator(left, sign));
    assert(!longer(sign + seq![' '] + w, sign, 0)) by {
        if sign.len() == 1 {
            assert((sign + seq![' '] + w)[1] == ' ');
        }
    }
    operator_between(left, sign, w);
    assert forall|i: int|
        0 <= i < RELATIONS && (forall|m: int| 0 <= m <= i ==> #[trigger] relation(m)
            != rel) implies find_operator(e, relation_sign(#[trigger] relation(i))) is None by {
        let op = relation_sign(relation(i));
        assert(operator_sign(op[0]));
        assert(relation(i) != rel);
        earlier_signs_do_not_stand_in_it(rel, i);
        assert(lacks_operator(left, op));
        literal_lacks(w, op);
        assert(!op.contains(' '));
        signs_apart(left, sign, w, op);
        first_operator(e, op);
    }
    first_relation_is(e, rel, left.len() as int + 1, 0);
}

proof fn nothing_left_to_split(e: Seq<char>, item: Json, depth: int)
    requires
        depth <= MAX_PRED_DEPTH,
        trim(e) == e,
        e.len() > 0 && e[0] != '!' && e[0] != '(',
        find_operator(e, seq!['|', '|']) is None,
        find_operator(e, seq!['&', '&']) is None,
        find_pipe(e) is None,
    ensures
        predicate_at(e, item, depth) == simple_predicate(e, item),
{
}

/// A relation between what stands on its left and a literal on its right: it holds
/// where the values of the two are in that relation.
#[verifier::rlimit(40)]
proof fn relation_decides(
    left: Seq<char>,
    sign: Seq<char>,
    rel: Relation,
    w: Seq<char>,
    item: Json,
    depth: int,
)
    requires
        depth <= MAX_PRED_DEPTH,
        left_side(left),
        sign_stands_for(sign, rel),
        simple_literal(w),
    ensures
        predicate_at(operation(left, sign, w), item, depth) == (match left_operand(left, item) {
            Err(f) => Err(f),
            Ok(v) => match literal(w) {
                Err(f) => Err(f),
                Ok(x) => related(v, x, rel),
            },
        }),
{
    let e = operation(left, sign, w);
    let p = left.len() as int + 1;
    nothing_splits_a_relation(left, sign, rel, w);
    assert(e[0] == left[0]);
    nothing_left_to_split(e, item, depth);
    the_relation_is_found(left, sign, rel, w);
    sign_is_sign(sign, rel);
    literal_is_closed(operator_rules(), w);
    sides_of_operation(left, sign, w, item, 0);
    assert(e.subrange(0, p) =~= e.take(p));
    assert(e.subrange(p + sign.len(), e.len() as int) =~= e.skip(p + sign.len()));
}

#[verifier::rlimit(40)]
proof fn pipe_in_operation(left: Seq<char>, sign: Seq<char>, w: Seq<char>, p: int)
    requires
        complete(pipe_rules(), left),
        find_pipe(left) is None,
        all_inert(operator_rules(), sign),
        !sign.contains('|'),
        simple_literal(w),
        0 <= p < operation(left, sign, w).len(),
    ensures
        !pipe_at(operation(left, sign, w), p),
{
    let rules = pipe_rules();
    let e = operation(left, sign, w);
    let mid = seq![' '] + sign + seq![' '];
    let n = left.len() as int;
    assert(e =~= left + (mid + w));
    assert forall|i: int| 0 <= i < mid.len() implies inert(rules, #[trigger] mid[i]) by {
        if 0 < i <= sign.len() {
            assert(mid[i] == sign[i - 1]);
        }
    }
    if p < n {
        scan_of_start(rules, left, mid + w, p);
        if p + 1 < n {
            assert(e[p + 1] == left[p + 1]);
        }
        if p > 0 {
            assert(e[p - 1] == left[p - 1]);
        }
        first_pipe(left);
        assert(!pipe_at(left, p));
    } else if p < n + mid.len() {
        assert(e[p] == mid[p - n]);
        if 0 < p - n <= sign.len() {
            assert(sign.contains(sign[p - n - 1]));
        }
    } else {
        let front = left + mid;
        scan_of_inert(rules, mid, mid.len() as int);
        complete_in_parts(rules, left, mid);
        assert(e =~= front + w);
        scan_of_end(rules, front, w, p - front.len());
        literal_is_closed(rules, w);
        assert(e[p] == w[p - front.len()]);
        if e[p] == '|' {
            assert(operator_sign(w[p - front.len()]));
        }
    }
}

#[verifier::rlimit(40)]
proof fn name_is_left_side(k: Seq<char>)
    requires
        is_dotted(k),
    ensures
        left_side(k),
        char_index(k, '(') == k.len(),
{
    literal_is_closed(operator_rules(), k);
    literal_is_closed(pipe_rules(), k);
    assert(key_char(k[0]) || k[0] == '.');
    literal_lacks(k, seq!['|']);
    assert forall|op: Seq<char>| op.len() > 0 && operator_sign(op[0]) implies
        #[trigger] lacks_operator(k, op) by {
        literal_lacks(k, op);
    }
    char_index_first(k, '(');
    if char_index(k, '(') < k.len() {
        let i = char_index(k, '(');
        assert(key_char(k[i]) || k[i] == '.');
    }
}

/// A name behind `p.`.
pub open spec fn field_reference(k: Seq<char>) -> Seq<char> {
    "p."@ + k
}

#[verifier::rlimit(40)]
proof fn reference_is_field(k: Seq<char>, item: Json)
    requires
        is_key(k),
    ensures
        left_side(field_reference(k)),
        left_side(k),
        is_dotted(field_reference(k)),
        call_value(field_reference(k), item) == Ok::<Option<Val>, Fault>(None),
        call_value(k, item) == Ok::<Option<Val>, Fault>(None),
        field_name(field_reference(k)) == k,
        field_name(k) == k,
        starts_with(field_reference(k), seq!['p', '.']),
{
    reveal_strlit("p.");
    let e = field_reference(k);
    assert forall|i: int| 0 <= i < e.len() implies key_char(#[trigger] e[i]) || e[i] == '.' by {
        if i >= 2 {
            assert(e[i] == k[i - 2]);
        }
    }
    name_is_left_side(e);
    name_is_left_side(k);
    trim_of_tight(e);
    trim_of_tight(k);
    assert(e.subrange(0, 2) =~= seq!['p', '.']);
    assert(e.subrange(2, e.len() as int) =~= k);
    if starts_with(k, seq!['p', '.']) {
        assert(k.subrange(0, 2)[1] == k[1]);
        assert(key_char(k[1]));
    }
}

/// A field in a relation to a literal, with or without `p.` before its name: the
/// answer is that of the relation between the value of the field and that of the
/// literal; an item without the field is a fault.
pub proof fn field_in_relation(
    k: Seq<char>,
    sign: Seq<char>,
    rel: Relation,
    w: Seq<char>,
    item: Json,
    depth: int,
)
    requires
        depth <= MAX_PRED_DEPTH,
        is_key(k),
        sign_stands_for(sign, rel),
        simple_literal(w),
    ensures
        predicate_at(operation(field_reference(k), sign, w), item, depth) == (match field(item, k) {
            None => Err(Fault::Field(k)),
            Some(v) => match (json_value(v), literal(w)) {
                (Err(f), _) => Err(f),
                (_, Err(f)) => Err(f),
                (Ok(x), Ok(y)) => related(x, y, rel),
            },
        }),
        predicate_at(operation(k, sign, w), item, depth) == predicate_at(
            operation(field_reference(k), sign, w),
            item,
            depth,
        ),
{
    reference_is_field(k, item);
    relation_decides(field_reference(k), sign, rel, w, item, depth);
    relation_decides(k, sign, rel, w, item, depth);
}

/// A field that holds an integer, in a relation to a number in digits: the answer
/// is that of arithmetic.
#[verifier::rlimit(40)]
pub proof fn number_field_in_relation(
    k: Seq<char>,
    sign: Seq<char>,
    rel: Relation,
    n: nat,
    a: i64,
    item: Json,
    depth: int,
)
    requires
        depth <= MAX_PRED_DEPTH,
        is_key(k),
        sign_stands_for(sign, rel),
        n < 1_000_000_000_000_000_000,
        rel is Equal || rel is NotEqual ==> n <= 1_000_000_000 && -1_000_000_000 <= a
            <= 1_000_000_000,
        field(item, k) == Some(Json::Num(crate::number::Number::Int(a))),
    ensures
        predicate_at(operation(field_reference(k), sign, decimal(n)), item, depth) == Ok::<
            bool,
            Fault,
        >(integers_related(a as int, n as int, rel)),
{
    let w = decimal(n);
    crate::text::decimal_is_read_back(n);
    assert forall|i: int| 0 <= i < w.len() implies key_char(#[trigger] w[i]) || w[i] == '.' by {
        assert(is_digit(w[i]));
    }
    field_in_relation(k, sign, rel, w, item, depth);
    digits_stand_for_their_number(n);
    integers_compare_as_in_arithmetic(a, n as i64, rel);
}

/// A field that holds a text, compared with a text in quotes.
#[verifier::rlimit(40)]
pub proof fn text_field_is_compared(
    k: Seq<char>,
    q: char,
    t: Seq<char>,
    v: Seq<char>,
    item: Json,
    depth: int,
)
    requires
        depth <= MAX_PRED_DEPTH,
        is_key(k),
        q == '"' || q == '\'',
        !t.contains(q) && !t.contains('\\'),
        field(item, k) == Some(Json::Str(v)),
    ensures
        ({
            let w = seq![q] + t + seq![q];
            &&& predicate_at(operation(field_reference(k), "=="@, w), item, depth) == Ok::<
                bool,
                Fault,
            >(v == t)
            &&& predicate_at(operation(field_reference(k), "!="@, w), item, depth) == Ok::<
                bool,
                Fault,
            >(v != t)
        }),
{
    let w = seq![q] + t + seq![q];
    assert(w[0] == q && w.last() == q);
    assert(w.subrange(1, w.len() - 1) =~= t);
    field_in_relation(k, "=="@, Relation::Equal, w, item, depth);
    field_in_relation(k, "!="@, Relation::NotEqual, w, item, depth);
    quoted_text_stands_for_itself(q, t);
}

/// A name and something in brackets behind it.
pub open spec fn call_text(head: Seq<char>, inside: Seq<char>) -> Seq<char> {
    head + (seq!['('] + inside + seq![')'])
}

#[verifier::rlimit(40)]
proof fn call_is_left_side(head: Seq<char>, inside: Seq<char>)
    requires
        is_dotted(head),
        complete(operator_rules(), inside) && never_below(operator_rules(), inside),
        complete(pipe_rules(), inside) && never_below(pipe_rules(), inside),
    ensures
        left_side(call_text(head, inside)),
{
    let e = call_text(head, inside);
    let t = seq!['('] + inside + seq![')'];
    let n = head.len() as int;
    assert forall|i: int| 0 <= i < n implies inert(operator_rules(), #[trigger] head[i]) && inert(
        pipe_rules(),
        head[i],
    ) && !operator_sign(head[i]) by {
        assert(key_char(head[i]) || head[i] == '.');
    }
    assert(key_char(head[0]) || head[0] == '.');
    assert(e[0] == head[0] && e.last() == ')');
    inside_a_call(operator_rules(), head, inside, n + 1);
    inside_a_call(pipe_rules(), head, inside, n + 1);
    assert forall|op: Seq<char>| op.len() > 0 && operator_sign(op[0]) implies
        #[trigger] lacks_operator(e, op) by {
        assert forall|j: int| 0 <= j < e.len() implies !#[trigger] operator_at(e, op, j) by {
            if operator_at(e, op, j) {
                assert(e.subrange(j, j + op.len())[0] == e[j]);
                if j < n {
                    assert(e[j] == head[j]);
                } else if j > n {
                    inside_a_call(operator_rules(), head, inside, j);
                }
            }
        }
    }
    first_pipe(e);
    if let Some(p) = find_pipe(e) {
        if p < n {
            assert(e[p] == head[p]);
        } else if p > n {
            inside_a_call(pipe_rules(), head, inside, p);
        }
    }
}

/// Whether nothing in a text but strings means anything to a scan, under all the
/// rules there are.
#[verifier::rlimit(40)]
proof fn reference_and_literal(k: Seq<char>, w: Seq<char>, rules: Rules)
    requires
        is_dotted(k),
        simple_literal(w),
    ensures
        complete(rules, k) && never_below(rules, k),
        complete(rules, k + seq![','] + (seq![' '] + w)),
        never_below(rules, k + seq![','] + (seq![' '] + w)),
        complete(rules, seq![' '] + w) && never_below(rules, seq![' '] + w),
{
    literal_is_closed(rules, k);
    literal_is_closed(rules, w);
    assert(all_inert(rules, seq![' ']));
    inert_is_complete(rules, seq![' ']);
    complete_in_parts(rules, seq![' '], w);
    never_below_in_parts(rules, seq![' '], w);
    assert(all_inert(rules, seq![',']));
    inert_is_complete(rules, seq![',']);
    complete_in_parts(rules, k, seq![',']);
    never_below_in_parts(rules, k, seq![',']);
    complete_in_parts(rules, k + seq![','], seq![' '] + w);
    never_below_in_parts(rules, k + seq![','], seq![' '] + w);
}

#[verifier::rlimit(40)]
proof fn no_comma_in_literal(w: Seq<char>)
    requires
        simple_literal(w),
    ensures
        forall|j: int|
            0 <= j < w.len() && top_level(#[trigger] lex_at(list_rules(), w, j)) ==> w[j] != ',',
        forall|j: int|
            0 <= j < w.len() + 1 && top_level(#[trigger] lex_at(list_rules(), seq![' '] + w, j))
                ==> (seq![' '] + w)[j] != ',',
{
    let rules = list_rules();
    assert forall|j: int| 0 <= j < w.len() && top_level(#[trigger] lex_at(rules, w, j)) implies w[j]
        != ',' by {
        if is_dotted(w) {
            assert(key_char(w[j]) || w[j] == '.');
        } else {
            let q = w[0];
            let t = w.subrange(1, w.len() - 1);
            assert(w =~= seq![q] + t + seq![q]);
            strings_are_closed(rules, q, t);
            assert(j == 0);
        }
    }
    let s = seq![' '] + w;
    assert(all_inert(rules, seq![' ']));
    inert_is_complete(rules, seq![' ']);
    assert forall|j: int| 0 <= j < s.len() && top_level(#[trigger] lex_at(rules, s, j)) implies s[j]
        != ',' by {
        if j > 0 {
            scan_of_end(rules, seq![' '], w, j - 1);
            assert(s[j] == w[j - 1]);
            assert(top_level(lex_at(rules, w, j - 1)));
        }
    }
}

/// A call of a function on a field.
pub open spec fn field_call(f: BuiltinFunction, k: Seq<char>) -> Seq<char> {
    call_text(function_name(f), field_reference(k))
}

/// A call of a function on a field and a literal.
pub open spec fn field_call_with(f: BuiltinFunction, k: Seq<char>, w: Seq<char>) -> Seq<char> {
    call_text(function_name(f), field_reference(k) + seq![','] + (seq![' '] + w))
}

#[verifier::rlimit(40)]
proof fn value_of_field_call(f: BuiltinFunction, k: Seq<char>, item: Json)
    requires
        is_key(k),
        !takes_two(f),
    ensures
        left_side(field_call(f, k)),
        call_value(field_call(f, k), item) == (match field(item, k) {
            None => Err::<Option<Val>, Fault>(Fault::Field(k)),
            Some(v) => match json_value(v) {
                Err(fault) => Err(fault),
                Ok(x) => match applied(f, x) {
                    Err(fault) => Err(fault),
                    Ok(y) => Ok(Some(y)),
                },
            },
        }),
{
    let inside = field_reference(k);
    let e = field_call(f, k);
    reference_is_field(k, item);
    let any = seq!['0'];
    assert(key_char('0'));
    assert(is_dotted(any));
    reference_and_literal(inside, any, operator_rules());
    reference_and_literal(inside, any, pipe_rules());
    reference_and_literal(inside, any, argument_rules());
    reference_and_literal(inside, any, list_rules());
    calls_are_names_and_arguments(f, inside, Seq::empty());
    assert(function_name(f) + (seq!['('] + inside + seq![')']) + Seq::<char>::empty() =~= e);
    call_is_left_side(function_name(f), inside);
    trim_of_tight(e);
    trim_of_tight(inside);
    no_comma_in_literal(inside);
    commas_divide_arguments(inside, Seq::empty());
}

proof fn value_of_a_call(
    f: BuiltinFunction,
    inside: Seq<char>,
    args: Seq<Seq<char>>,
    item: Json,
)
    requires
        complete(argument_rules(), inside) && never_below(argument_rules(), inside),
        tight(call_text(function_name(f), inside)),
        arguments(inside) == Ok::<Seq<Seq<char>>, Fault>(args),
    ensures
        call_value(call_text(function_name(f), inside), item) == (match call(f, args, item) {
            Err(fault) => Err::<Option<Val>, Fault>(fault),
            Ok(v) => Ok(Some(v)),
        }),
{
    let e = call_text(function_name(f), inside);
    calls_are_names_and_arguments(f, inside, Seq::empty());
    assert(function_name(f) + (seq!['('] + inside + seq![')']) + Seq::<char>::empty() =~= e);
    trim_of_tight(e);
}

#[verifier::rlimit(40)]
proof fn two_arguments(r: Seq<char>, w: Seq<char>)
    requires
        is_dotted(r),
        simple_literal(w),
    ensures
        arguments(r + seq![','] + (seq![' '] + w)) == Ok::<Seq<Seq<char>>, Fault>(
            seq![r, seq![' '] + w],
        ),
        trim(r) == r,
        trim(seq![' '] + w) == w,
{
    let second = seq![' '] + w;
    reference_and_literal(r, w, list_rules());
    literal_is_closed(list_rules(), r);
    literal_is_closed(list_rules(), w);
    trim_of_tight(r);
    trim_of_padded(seq![' '], w, Seq::empty());
    assert(seq![' '] + w + Seq::<char>::empty() =~= second);
    no_comma_in_literal(r);
    no_comma_in_literal(w);
    commas_divide_arguments(second, Seq::empty());
    commas_divide_arguments(r, second);
    assert(seq![r] + seq![second] =~= seq![r, second]);
}

#[verifier::rlimit(40)]
proof fn field_call_with_is_left_side(f: BuiltinFunction, k: Seq<char>, w: Seq<char>, item: Json)
    requires
        is_key(k),
        simple_literal(w),
    ensures
        left_side(field_call_with(f, k, w)),
        is_dotted(field_reference(k)),
        ({
            let inside = field_reference(k) + seq![','] + (seq![' '] + w);
            &&& complete(argument_rules(), inside)
            &&& never_below(argument_rules(), inside)
            &&& tight(call_text(function_name(f), inside))
        }),
{
    let r = field_reference(k);
    reference_is_field(k, item);
    reference_and_literal(r, w, operator_rules());
    reference_and_literal(r, w, pipe_rules());
    reference_and_literal(r, w, argument_rules());
    function_names_are_words(f);
    call_is_left_side(function_name(f), r + seq![','] + (seq![' '] + w));
}

#[verifier::rlimit(40)]
proof fn call_on_field_and_literal(f: BuiltinFunction, k: Seq<char>, w: Seq<char>, item: Json)
    requires
        is_key(k),
        takes_two(f),
        simple_literal(w),
    ensures
        call(f, seq![field_reference(k), seq![' '] + w], item) == (match field(item, k) {
            None => Err::<Val, Fault>(Fault::Field(k)),
            Some(v) => match (json_value(v), literal(w)) {
                (Err(fault), _) => Err(fault),
                (_, Err(fault)) => Err(fault),
                (Ok(x), Ok(y)) => applied_with(f, x, y),
            },
        }),
{
    let r = field_reference(k);
    let args = seq![r, seq![' '] + w];
    value_of_reference(k, item);
    two_arguments(r, w);
    assert(args.len() == 2 && args[0] == r && args[1] == seq![' '] + w);
    let v = field_value(r, item);
    assert(call(f, args, item) == (match (v, literal(w)) {
        (Err(e), _) => Err(e),
        (_, Err(e)) => Err(e),
        (Ok(x), Ok(y)) => applied_with(f, x, y),
    }));
}

proof fn value_of_reference(k: Seq<char>, item: Json)
    requires
        is_key(k),
    ensures
        is_dotted(field_reference(k)),
        field_value(field_reference(k), item) == (match field(item, k) {
            None => Err::<Val, Fault>(Fault::Field(k)),
            Some(v) => json_value(v),
        }),
{
    reference_is_field(k, item);
    assert(!k.contains('.')) by {
        if k.contains('.') {
            let i = choose|i: int| 0 <= i < k.len() && k[i] == '.';
            assert(key_char(k[i]));
        }
    }
    paths_lead_through_members(item, k, k);
}

#[verifier::rlimit(40)]
proof fn value_of_field_call_with(f: BuiltinFunction, k: Seq<char>, w: Seq<char>, item: Json)
    requires
        is_key(k),
        takes_two(f),
        simple_literal(w),
    ensures
        left_side(field_call_with(f, k, w)),
        call_value(field_call_with(f, k, w), item) == (match field(item, k) {
            None => Err::<Option<Val>, Fault>(Fault::Field(k)),
            Some(v) => match (json_value(v), literal(w)) {
                (Err(fault), _) => Err(fault),
                (_, Err(fault)) => Err(fault),
                (Ok(x), Ok(y)) => match applied_with(f, x, y) {
                    Err(fault) => Err(fault),
                    Ok(z) => Ok(Some(z)),
                },
            },
        }),
{
    let r = field_reference(k);
    let second = seq![' '] + w;
    field_call_with_is_left_side(f, k, w, item);
    two_arguments(r, w);
    value_of_a_call(f, r + seq![','] + second, seq![r, second], item);
    call_on_field_and_literal(f, k, w, item);
}

/// A function of a field in a relation to a literal, such as `len(p.name) > 3`: the
/// answer is that of the relation between what the function makes of the field and
/// the literal.
pub proof fn function_in_relation(
    f: BuiltinFunction,
    k: Seq<char>,
    sign: Seq<char>,
    rel: Relation,
    w: Seq<char>,
    item: Json,
    depth: int,
)
    requires
        depth <= MAX_PRED_DEPTH,
        is_key(k),
        !takes_two(f),
        sign_stands_for(sign, rel),
        simple_literal(w),
    ensures
        predicate_at(operation(field_call(f, k), sign, w), item, depth) == (match field(item, k) {
            None => Err(Fault::Field(k)),
            Some(v) => match json_value(v) {
                Err(fault) => Err(fault),
                Ok(x) => match (applied(f, x), literal(w)) {
                    (Err(fault), _) => Err(fault),
                    (_, Err(fault)) => Err(fault),
                    (Ok(y), Ok(z)) => related(y, z, rel),
                },
            },
        }),
{
    value_of_field_call(f, k, item);
    relation_decides(field_call(f, k), sign, rel, w, item, depth);
}

/// Whether a function of two texts holds of a field and a text in quotes.
pub open spec fn holds_between(f: BuiltinFunction, v: Seq<char>, t: Seq<char>) -> bool {
    match f {
        BuiltinFunction::Contains => exists|a: Seq<char>, b: Seq<char>| v == #[trigger] (a + t + b),
        BuiltinFunction::StartsWith => t.is_prefix_of(v),
        BuiltinFunction::EndsWith => t.is_suffix_of(v),
        _ => regex_found(t, v),
    }
}

/// A function of a field that holds a text and a text in quotes, such as
/// `contains(p.name, 'US')`, holds where the first text holds the second, begins
/// with it, ends with it, or the second is found in it as a pattern.
#[verifier::rlimit(40)]
pub proof fn function_of_two_texts_decides(
    f: BuiltinFunction,
    k: Seq<char>,
    q: char,
    t: Seq<char>,
    v: Seq<char>,
    item: Json,
    depth: int,
)
    requires
        depth <= MAX_PRED_DEPTH,
        is_key(k),
        takes_two(f),
        q == '"' || q == '\'',
        !t.contains(q) && !t.contains('\\'),
        field(item, k) == Some(Json::Str(v)),
        f is Regex ==> compiles(t),
    ensures
        predicate_at(field_call_with(f, k, seq![q] + t + seq![q]), item, depth) == Ok::<
            bool,
            Fault,
        >(holds_between(f, v, t)),
{
    let w = seq![q] + t + seq![q];
    assert(w[0] == q && w.last() == q);
    assert(w.subrange(1, w.len() - 1) =~= t);
    let e = field_call_with(f, k, w);
    value_of_field_call_with(f, k, w, item);
    quoted_text_stands_for_itself(q, t);
    functions_on_two_texts(v, t);
    alone_on_the_left(e, item, depth);
    calls_are_no_methods(f, field_reference(k) + seq![','] + (seq![' '] + w));
    a_call_alone(e, item, Val::Bool(holds_between(f, v, t)));
}

#[verifier::rlimit(40)]
proof fn alone_on_the_left(e: Seq<char>, item: Json, depth: int)
    requires
        depth <= MAX_PRED_DEPTH,
        left_side(e),
    ensures
        predicate_at(e, item, depth) == simple_predicate(e, item),
        first_relation(e, 0) is None,
{
    trim_of_tight(e);
    assert(lacks_operator(e, seq!['|', '|']));
    assert(lacks_operator(e, seq!['&', '&']));
    first_operator(e, seq!['|', '|']);
    first_operator(e, seq!['&', '&']);
    nothing_left_to_split(e, item, depth);
    no_relation_from(e, 0);
}

#[verifier::rlimit(40)]
proof fn no_relation_from(e: Seq<char>, k: int)
    requires
        left_side(e),
        0 <= k <= RELATIONS,
    ensures
        first_relation(e, k) is None,
    decreases RELATIONS - k,
{
    if k < RELATIONS {
        let op = relation_sign(relation(k));
        assert(operator_sign(op[0]));
        assert(lacks_operator(e, op));
        first_operator(e, op);
        no_relation_from(e, k + 1);
    }
}

#[verifier::rlimit(40)]
proof fn calls_are_no_methods(f: BuiltinFunction, inside: Seq<char>)
    ensures
        includes_parts(call_text(function_name(f), inside)) is None,
        contains_parts(call_text(function_name(f), inside)) is None,
        match_parts(call_text(function_name(f), inside)) is None,
{
    reveal_strlit(".contains");
    reveal_strlit(".includes");
    let name = function_name(f);
    let e = call_text(name, inside);
    function_names_are_words(f);
    name_of_a_call(name, inside);
    long_names(f);
    if ends_with(name, ".includes"@) {
        let i = name.len() - 9;
        assert(name.subrange(i, i + 9)[0] == name[i]);
        assert(key_char(name[i]));
    }
    if ends_with(name, ".contains"@) {
        let i = name.len() - 9;
        assert(name.subrange(i, i + 9)[0] == name[i]);
        assert(key_char(name[i]));
    }
    if let Some(p) = find_text(e, ".match("@) {
        let before = e.subrange(0, p);
        crate::text::find_from_bounds(e, ".match("@, 0);
        if starts_with(before, seq!['p', '.']) {
            assert(before.subrange(0, 2)[1] == before[1]);
            assert(e[1] == name[1]);
            assert(key_char(name[1]));
        }
    }
}

#[verifier::rlimit(40)]
proof fn long_names(f: BuiltinFunction)
    ensures
        function_name(f).len() >= 3,
{
    reveal_strlit("regex");
    reveal_strlit("len");
    reveal_strlit("lower");
    reveal_strlit("upper");
    reveal_strlit("contains");
    reveal_strlit("starts_with");
    reveal_strlit("ends_with");
    reveal_strlit("abs");
    reveal_strlit("type_of");
    reveal_strlit("trim");
}

#[verifier::rlimit(40)]
proof fn name_of_a_call(head: Seq<char>, inside: Seq<char>)
    requires
        is_dotted(head),
    ensures
        char_index(call_text(head, inside), '(') == head.len(),
        call_text(head, inside).subrange(0, head.len() as int) == head,
        call_text(head, inside).last() == ')',
        call_text(head, inside).len() == head.len() + inside.len() + 2,
        call_text(head, inside).subrange(
            head.len() as int + 1,
            call_text(head, inside).len() - 1,
        ) == inside,
{
    let e = call_text(head, inside);
    char_index_first(e, '(');
    let p = char_index(e, '(');
    assert(e[head.len() as int] == '(');
    if p < head.len() {
        assert(e[p] == head[p]);
        assert(key_char(head[p]) || head[p] == '.');
    }
    assert(e.subrange(0, head.len() as int) =~= head);
    assert(e.subrange(head.len() as int + 1, e.len() - 1) =~= inside);
}

proof fn a_call_alone(e: Seq<char>, item: Json, v: Val)
    requires
        first_relation(e, 0) is None,
        includes_parts(e) is None,
        contains_parts(e) is None,
        match_parts(e) is None,
        call_value(e, item) == Ok::<Option<Val>, Fault>(Some(v)),
    ensures
        simple_predicate(e, item) == truth(Ok(v)),
{
}

proof fn a_contains_method_alone(e: Seq<char>, item: Json, path: Seq<char>, argument: Seq<char>)
    requires
        first_relation(e, 0) is None,
        includes_parts(e) is None,
        contains_parts(e) == Some((path, argument)),
    ensures
        simple_predicate(e, item) == text_test(item, path, argument, ".contains"@),
{
}

/// A field, a method and its argument.
pub open spec fn method_text(k: Seq<char>, method: Seq<char>, w: Seq<char>) -> Seq<char> {
    call_text(k + method, w)
}

/// `name.contains('text')`, with or without `p.` before the name, holds of an item
/// whose field of that name, a text, holds the text in quotes.
pub proof fn contains_method_decides(
    k: Seq<char>,
    q: char,
    t: Seq<char>,
    v: Seq<char>,
    item: Json,
    depth: int,
)
    requires
        depth <= MAX_PRED_DEPTH,
        is_key(k),
        q == '"' || q == '\'',
        !t.contains(q) && !t.contains('\\'),
        field(item, k) == Some(Json::Str(v)),
    ensures
        predicate_at(method_text(k, ".contains"@, seq![q] + t + seq![q]), item, depth) == Ok::<
            bool,
            Fault,
        >(exists|a: Seq<char>, b: Seq<char>| v == #[trigger] (a + t + b)),
        predicate_at(
            method_text(field_reference(k), ".contains"@, seq![q] + t + seq![q]),
            item,
            depth,
        ) == Ok::<bool, Fault>(exists|a: Seq<char>, b: Seq<char>| v == #[trigger] (a + t + b)),
{
    reveal_strlit("p.");
    reference_is_field(k, item);
    contains_method_on(k, k, q, t, v, item, depth);
    contains_method_on(field_reference(k), k, q, t, v, item, depth);
}

#[verifier::rlimit(40)]
proof fn parts_of_contains(head: Seq<char>, k: Seq<char>, w: Seq<char>)
    requires
        is_key(k),
        head == k || head == field_reference(k),
        is_dotted(head),
    ensures
        is_dotted(head + ".contains"@),
        contains_parts(method_text(head, ".contains"@, w)) == Some((k, w)),
        includes_parts(method_text(head, ".contains"@, w)) is None,
{
    reveal_strlit("p.");
    reveal_strlit(".contains");
    reveal_strlit(".includes");
    let whole = head + ".contains"@;
    let e = method_text(head, ".contains"@, w);
    assert forall|i: int| 0 <= i < whole.len() implies key_char(#[trigger] whole[i]) || whole[i]
        == '.' by {
        if i < head.len() {
            assert(whole[i] == head[i]);
        }
    }
    name_of_a_call(whole, w);
    let n = ".contains"@.len() as int;
    assert(whole.subrange(whole.len() - n, whole.len() as int) =~= ".contains"@);
    assert(whole.subrange(0, whole.len() - n) =~= head);
    if ends_with(whole, ".includes"@) {
        let x = whole.subrange(whole.len() - 9, whole.len() as int);
        assert(x =~= ".contains"@);
        assert(x[1] == 'c');
        assert(".includes"@[1] == 'i');
    }
    if head == k && starts_with(k, seq!['p', '.']) {
        assert(k.subrange(0, 2)[1] == k[1]);
        assert(key_char(k[1]));
    }
    let r = field_reference(k);
    assert(r.subrange(2, r.len() as int) =~= k);
    assert(r.subrange(0, 2) =~= seq!['p', '.']);
    assert(bare_path(head) == k);
}

#[verifier::rlimit(40)]
proof fn text_is_tested(
    k: Seq<char>,
    q: char,
    t: Seq<char>,
    v: Seq<char>,
    item: Json,
    method: Seq<char>,
)
    requires
        is_key(k),
        q == '"' || q == '\'',
        !t.contains('\\'),
        field(item, k) == Some(Json::Str(v)),
    ensures
        text_test(item, k, seq![q] + t + seq![q], method) == Ok::<bool, Fault>(
            exists|a: Seq<char>, b: Seq<char>| v == #[trigger] (a + t + b),
        ),
{
    assert(!k.contains('.')) by {
        if k.contains('.') {
            let i = choose|i: int| 0 <= i < k.len() && k[i] == '.';
            assert(key_char(k[i]));
        }
    }
    paths_lead_through_members(item, k, k);
    quoted_text_stands_for_itself(q, t);
    crate::text::what_is_held(v, t);
    if exists|a: Seq<char>, b: Seq<char>| v == #[trigger] (a + t + b) {
        let (a, b) = choose|a: Seq<char>, b: Seq<char>| v == #[trigger] (a + t + b);
        crate::text::texts_within_texts(a, t, b);
    }
}

#[verifier::rlimit(40)]
proof fn contains_method_on(
    head: Seq<char>,
    k: Seq<char>,
    q: char,
    t: Seq<char>,
    v: Seq<char>,
    item: Json,
    depth: int,
)
    requires
        depth <= MAX_PRED_DEPTH,
        is_key(k),
        head == k || head == field_reference(k),
        is_dotted(head),
        q == '"' || q == '\'',
        !t.contains(q) && !t.contains('\\'),
        field(item, k) == Some(Json::Str(v)),
    ensures
        predicate_at(method_text(head, ".contains"@, seq![q] + t + seq![q]), item, depth) == Ok::<
            bool,
            Fault,
        >(exists|a: Seq<char>, b: Seq<char>| v == #[trigger] (a + t + b)),
{
    let w = seq![q] + t + seq![q];
    assert(w[0] == q && w.last() == q);
    assert(w.subrange(1, w.len() - 1) =~= t);
    let e = method_text(head, ".contains"@, w);
    parts_of_contains(head, k, w);
    literal_is_closed(operator_rules(), w);
    literal_is_closed(pipe_rules(), w);
    call_is_left_side(head + ".contains"@, w);
    alone_on_the_left(e, item, depth);
    a_contains_method_alone(e, item, k, w);
    text_is_tested(k, q, t, v, item, ".contains"@);
}

#[verifier::rlimit(40)]
proof fn a_pipe_splits(a: Seq<char>, b: Seq<char>)
    requires
        left_side(a),
        b.len() > 0 && tight(b),
        lacks_operator(b, seq!['|', '|']),
        lacks_operator(b, seq!['&', '&']),
    ensures
        trim(operation(a, "|"@, b)) == operation(a, "|"@, b),
        find_operator(operation(a, "|"@, b), seq!['|', '|']) is None,
        find_operator(operation(a, "|"@, b), seq!['&', '&']) is None,
        find_pipe(operation(a, "|"@, b)) == Some(a.len() as int + 1),
{
    reveal_strlit("|");
    let op = seq!['|'];
    let or = seq!['|', '|'];
    let and = seq!['&', '&'];
    assert("|"@ =~= op);
    let e = operation(a, op, b);
    operation_is_tight(a, op, b);
    assert(all_inert(operator_rules(), op));
    assert(lacks_operator(a, or) && lacks_operator(a, and));
    assert forall|j: int| 0 <= j < op.len() implies !#[trigger] operator_at(op, or, j) by {}
    no_operator_without_its_sign(op, and);
    assert(!or.contains(' ') && !and.contains(' '));
    signs_apart(a, op, b, or);
    signs_apart(a, op, b, and);
    first_operator(e, or);
    first_operator(e, and);
    assert(e =~= a + seq![' ', '|', ' '] + b);
    pipe_between(a, b);
}

proof fn a_pipe_decides(e: Seq<char>, p: int, item: Json, depth: int)
    requires
        depth <= MAX_PRED_DEPTH,
        trim(e) == e,
        e.len() > 0 && e[0] != '!',
        find_operator(e, seq!['|', '|']) is None,
        find_operator(e, seq!['&', '&']) is None,
        find_pipe(e) == Some(p),
    ensures
        predicate_at(e, item, depth) == (match operand(trim(e.subrange(0, p)), item) {
            Err(f) => Err(f),
            Ok(v) => passes(v, trim(e.subrange(p + 1, e.len() as int))),
        }),
{
}

/// A value before a pipe is handed on to what stands behind it.
#[verifier::rlimit(40)]
pub proof fn pipes_hand_on(a: Seq<char>, b: Seq<char>, item: Json, depth: int)
    requires
        depth <= MAX_PRED_DEPTH,
        left_side(a),
        b.len() > 0 && tight(b),
        lacks_operator(b, seq!['|', '|']),
        lacks_operator(b, seq!['&', '&']),
    ensures
        predicate_at(operation(a, "|"@, b), item, depth) == (match operand(a, item) {
            Err(f) => Err(f),
            Ok(v) => passes(v, b),
        }),
{
    reveal_strlit("|");
    let e = operation(a, "|"@, b);
    let p = a.len() as int + 1;
    a_pipe_splits(a, b);
    assert(e[0] == a[0]);
    a_pipe_decides(e, p, item, depth);
    sides_of_operation(a, "|"@, b, item, 0);
    assert(e.subrange(0, p) =~= e.take(p));
    assert(e.subrange(p + 1, e.len() as int) =~= e.skip(p + 1));
}

/// Of several stages behind a pipe, each works on what the one before it gave.
#[verifier::rlimit(40)]
pub proof fn stages_follow_one_another(v: Val, a: Seq<char>, b: Seq<char>)
    requires
        a.len() > 0 && tight(a),
        complete(pipe_rules(), a),
        find_pipe(a) is None,
        b.len() > 0 && tight(b),
    ensures
        passes(v, operation(a, "|"@, b)) == (match stage(v, a) {
            Err(f) => Err(f),
            Ok(w) => passes(w, b),
        }),
{
    reveal_strlit("|");
    let op = seq!['|'];
    assert("|"@ =~= op);
    let e = operation(a, op, b);
    operation_is_tight(a, op, b);
    assert(e =~= a + seq![' ', '|', ' '] + b);
    pipe_between(a, b);
    sides_of_operation(a, op, b, Json::Null, 0);
    let p = a.len() as int + 1;
    assert(e.subrange(0, p) =~= e.take(p));
    assert(e.subrange(p + 1, e.len() as int) =~= e.skip(p + 1));
}

/// The name of a function is a stage that applies it.
#[verifier::rlimit(40)]
pub proof fn functions_are_stages(f: BuiltinFunction, v: Val)
    requires
        !takes_two(f),
    ensures
        stage(v, function_name(f)) == applied(f, v),
{
    let name = function_name(f);
    let any = Seq::<char>::empty();
    functions_have_their_names(name);
    inert_is_complete(argument_rules(), any);
    calls_are_names_and_arguments(f, any, any);
    name_is_left_side(name);
    trim_of_tight(name);
    function_names_are_words(f);
}

/// What stands before a pipe: a field behind `p.`, or a literal.
#[verifier::rlimit(40)]
pub proof fn what_stands_before_a_pipe(k: Seq<char>, w: Seq<char>, item: Json)
    requires
        is_key(k),
        quoted_literal(w),
        !w.contains('('),
    ensures
        operand(field_reference(k), item) == (match field(item, k) {
            None => Err::<Val, Fault>(Fault::Field(k)),
            Some(v) => json_value(v),
        }),
        operand(w, item) == literal(w),
{
    reference_is_field(k, item);
    trim_of_tight(field_reference(k));
    literal_is_closed(operator_rules(), w);
    trim_of_tight(w);
    no_bracket_no_call(w);
    if starts_with(w, seq!['p', '.']) {
        assert(w.subrange(0, 2)[0] == w[0]);
    }
}

proof fn no_bracket_no_call(e: Seq<char>)
    requires
        !e.contains('('),
    ensures
        call_parts(e) is None,
{
    char_index_first(e, '(');
    let p = char_index(e, '(');
    if p < e.len() {
        assert(e.contains(e[p]));
    }
}

#[verifier::rlimit(40)]
proof fn bare_relation_is(e: Seq<char>, rel: Relation, p: int, f: BuiltinFunction, k: int)
    requires
        0 <= k < RELATIONS,
        find_operator(e, relation_sign(rel)) == Some(p),
        function_named(trim(e.subrange(0, p))) == Some(f),
        forall|i: int|
            0 <= i < RELATIONS && (forall|m: int| 0 <= m <= i ==> #[trigger] relation(m) != rel)
                ==> find_operator(e, relation_sign(#[trigger] relation(i))) is None,
        forall|m: int| 0 <= m < k ==> #[trigger] relation(m) != rel,
    ensures
        bare_relation(e, k) == Some((rel, p, f)),
    decreases RELATIONS - k,
{
    if relation(k) != rel {
        assert forall|m: int| 0 <= m <= k implies #[trigger] relation(m) != rel by {}
        assert(find_operator(e, relation_sign(relation(k))) is None);
        assert(k < 5) by {
            assert(relation(0) != rel);
            if k >= 5 {
                assert(relation(1) != rel);
                assert(relation(2) != rel);
                assert(relation(3) != rel);
                assert(relation(4) != rel);
                assert(relation(5) != rel);
            }
        }
        bare_relation_is(e, rel, p, f, k + 1);
    }
}

/// A function and a relation behind a pipe, such as `len > 3`: the answer is that
/// of the relation between what the function makes of the value and the literal.
#[verifier::rlimit(40)]
pub proof fn function_and_relation_behind_a_pipe(
    v: Val,
    f: BuiltinFunction,
    sign: Seq<char>,
    rel: Relation,
    w: Seq<char>,
)
    requires
        !takes_two(f),
        sign_stands_for(sign, rel),
        simple_literal(w),
        !w.contains('('),
    ensures
        passes(v, operation(function_name(f), sign, w)) == (match (literal(w), applied(f, v)) {
            (Err(fault), _) => Err(fault),
            (_, Err(fault)) => Err(fault),
            (Ok(y), Ok(x)) => related(x, y, rel),
        }),
{
    let name = function_name(f);
    let e = operation(name, sign, w);
    let p = name.len() as int + 1;
    function_names_are_words(f);
    name_is_left_side(name);
    nothing_splits_a_relation(name, sign, rel, w);
    the_relation_is_found(name, sign, rel, w);
    sign_is_sign(sign, rel);
    literal_is_closed(operator_rules(), w);
    sides_of_operation(name, sign, w, Json::Null, 0);
    assert(e.subrange(0, p) =~= e.take(p));
    assert(e.subrange(p + sign.len(), e.len() as int) =~= e.skip(p + sign.len()));
    bare_relation_is(e, rel, p, f, 0);
    assert(!e.contains('(')) by {
        if e.contains('(') {
            let i = choose|i: int| 0 <= i < e.len() && e[i] == '(';
            if i < name.len() {
                assert(key_char(name[i]));
            } else if name.len() < i <= name.len() + sign.len() {
                assert(e[i] == sign[i - name.len() - 1]);
                assert(inert(operator_rules(), sign[i - name.len() - 1]));
            } else if i > name.len() + sign.len() + 1 {
                assert(e[i] == w[i - name.len() - sign.len() - 2]);
                assert(w.contains(w[i - name.len() - sign.len() - 2]));
            }
        }
    }
    no_bracket_no_call(e);
}

#[verifier::rlimit(40)]
proof fn nothing_named_before(x: Seq<char>)
    requires
        x.len() > 0 ==> operator_sign(x[0]),
    ensures
        function_named(trim(x)) is None,
{
    let t = trim(x);
    let (a, b) = crate::text::trim_parts(x);
    functions_have_their_names(t);
    if let Some(f) = function_named(t) {
        function_names_are_words(f);
        assert(t.len() > 0);
        assert(key_char(t[0]));
        if a.len() > 0 {
            assert(x[0] == a[0]);
            assert(white(a[0]));
        } else {
            assert(x[0] == t[0]);
        }
    }
}

#[verifier::rlimit(40)]
proof fn no_bare_relation_from(e: Seq<char>, k: int)
    requires
        e.len() > 0 && operator_sign(e[0]),
        0 <= k <= RELATIONS,
    ensures
        bare_relation(e, k) is None,
    decreases RELATIONS - k,
{
    if k < RELATIONS {
        let op = relation_sign(relation(k));
        first_operator(e, op);
        if let Some(p) = find_operator(e, op) {
            let x = e.subrange(0, p);
            if x.len() > 0 {
                assert(x[0] == e[0]);
            }
            nothing_named_before(x);
        }
        no_bare_relation_from(e, k + 1);
    }
}

#[verifier::rlimit(40)]
proof fn relation_alone_is_found(sign: Seq<char>, rel: Relation, w: Seq<char>)
    requires
        sign_stands_for(sign, rel),
        simple_literal(w),
    ensures
        first_relation(sign + seq![' '] + w, 0) == Some((rel, 0int)),
        find_pipe(sign + seq![' '] + w) is None,
        trim(sign + seq![' '] + w) == sign + seq![' '] + w,
        behind(sign + seq![' '] + w, rel, 0) == w,
{
    let e = sign + seq![' '] + w;
    sign_is_sign(sign, rel);
    literal_is_closed(operator_rules(), w);
    inert_is_complete(operator_rules(), sign);
    assert(e[0] == sign[0] && e.last() == w.last());
    trim_of_tight(e);
    assert(e.subrange(0, sign.len() as int) =~= sign);
    assert(!longer(e, sign, 0)) by {
        if sign.len() == 1 {
            assert(e[1] == ' ');
        }
    }
    assert(operator_at(e, sign, 0));
    first_operator(e, sign);
    assert forall|i: int|
        0 <= i < RELATIONS && (forall|m: int| 0 <= m <= i ==> #[trigger] relation(m)
            != rel) implies find_operator(e, relation_sign(#[trigger] relation(i))) is None by {
        let op = relation_sign(relation(i));
        assert(operator_sign(op[0]));
        assert(relation(i) != rel);
        earlier_signs_do_not_stand_in_it(rel, i);
        literal_lacks(w, op);
        assert(!op.contains(' '));
        operator_in_parts(sign, w, op);
        first_operator(e, op);
    }
    first_relation_is(e, rel, 0, 0);
    trim_of_padded(seq![' '], w, Seq::empty());
    assert(e.subrange(sign.len() as int, e.len() as int) =~= seq![' '] + w + Seq::<char>::empty());
    first_pipe(e);
    if let Some(p) = find_pipe(e) {
        if p < sign.len() {
            assert(sign.contains(sign[p]));
        } else if p > sign.len() {
            let front = sign + seq![' '];
            assert forall|i: int| 0 <= i < front.len() implies inert(
                pipe_rules(),
                #[trigger] front[i],
            ) by {
                if i < sign.len() {
                    assert(front[i] == sign[i]);
                    assert(inert(operator_rules(), sign[i]));
                }
            }
            inert_is_complete(pipe_rules(), front);
            assert(e =~= front + w);
            scan_of_end(pipe_rules(), front, w, p - front.len());
            literal_is_closed(pipe_rules(), w);
            assert(e[p] == w[p - front.len()]);
            assert(operator_sign(w[p - front.len()]));
        }
    }
}

/// A relation alone behind a pipe, such as `> 3`: the answer is that of the relation
/// between the value and the literal.
#[verifier::rlimit(40)]
pub proof fn relation_behind_a_pipe(v: Val, sign: Seq<char>, rel: Relation, w: Seq<char>)
    requires
        sign_stands_for(sign, rel),
        simple_literal(w),
        !w.contains('('),
    ensures
        passes(v, sign + seq![' '] + w) == (match literal(w) {
            Err(fault) => Err(fault),
            Ok(y) => related(v, y, rel),
        }),
{
    let e = sign + seq![' '] + w;
    sign_is_sign(sign, rel);
    relation_alone_is_found(sign, rel, w);
    assert(!e.contains('(')) by {
        if e.contains('(') {
            let i = choose|i: int| 0 <= i < e.len() && e[i] == '(';
            if i < sign.len() {
                assert(inert(operator_rules(), sign[i]));
            } else if i > sign.len() {
                assert(e[i] == w[i - sign.len() - 1]);
                assert(w.contains(w[i - sign.len() - 1]));
            }
        }
    }
    no_bracket_no_call(e);
    assert(e[0] == sign[0]);
    no_bare_relation_from(e, 0);
    nothing_named_before(e);
}

#[verifier::rlimit(40)]
proof fn parts_of_includes(k: Seq<char>, w: Seq<char>)
    requires
        is_key(k),
        w.len() > 0 && !w.contains('\n'),
        is_word_path(k),
    ensures
        is_dotted(field_reference(k) + ".includes"@),
        includes_parts(method_text(field_reference(k), ".includes"@, w)) == Some((k, w)),
{
    reveal_strlit("p.");
    reveal_strlit(".includes");
    let head = field_reference(k);
    let whole = head + ".includes"@;
    assert forall|i: int| 0 <= i < whole.len() implies key_char(#[trigger] whole[i]) || whole[i]
        == '.' by {
        if 2 <= i < head.len() {
            assert(whole[i] == k[i - 2]);
        }
    }
    name_of_a_call(whole, w);
    assert(whole.subrange(whole.len() - 9, whole.len() as int) =~= ".includes"@);
    assert(whole.subrange(0, 2) =~= seq!['p', '.']);
    assert(whole.subrange(2, whole.len() - 9) =~= k);
}

proof fn an_includes_method_alone(e: Seq<char>, item: Json, path: Seq<char>, argument: Seq<char>)
    requires
        first_relation(e, 0) is None,
        includes_parts(e) == Some((path, argument)),
    ensures
        simple_predicate(e, item) == text_test(item, path, argument, ".includes"@),
{
}

/// `p.name.includes('text')`, where the name is made of word characters, holds of an
/// item whose field of that name, a text, holds the text in quotes.
#[verifier::rlimit(40)]
pub proof fn includes_method_decides(
    k: Seq<char>,
    q: char,
    t: Seq<char>,
    v: Seq<char>,
    item: Json,
    depth: int,
)
    requires
        depth <= MAX_PRED_DEPTH,
        is_key(k),
        q == '"' || q == '\'',
        !t.contains(q) && !t.contains('\\') && !t.contains('\n'),
        field(item, k) == Some(Json::Str(v)),
    ensures
        compiles("^\\w+(?:\\.\\w+)*$"@) && regex_found("^\\w+(?:\\.\\w+)*$"@, k) ==> predicate_at(
            method_text(field_reference(k), ".includes"@, seq![q] + t + seq![q]),
            item,
            depth,
        ) == Ok::<bool, Fault>(exists|a: Seq<char>, b: Seq<char>| v == #[trigger] (a + t + b)),
{
    if compiles("^\\w+(?:\\.\\w+)*$"@) && regex_found("^\\w+(?:\\.\\w+)*$"@, k) {
        let w = seq![q] + t + seq![q];
        assert(w[0] == q && w.last() == q);
        assert(w.subrange(1, w.len() - 1) =~= t);
        assert(!w.contains('\n')) by {
            if w.contains('\n') {
                let i = choose|i: int| 0 <= i < w.len() && w[i] == '\n';
                assert(t[i - 1] == '\n');
            }
        }
        let e = method_text(field_reference(k), ".includes"@, w);
        parts_of_includes(k, w);
        literal_is_closed(operator_rules(), w);
        literal_is_closed(pipe_rules(), w);
        call_is_left_side(field_reference(k) + ".includes"@, w);
        alone_on_the_left(e, item, depth);
        an_includes_method_alone(e, item, k, w);
        text_is_tested(k, q, t, v, item, ".includes"@);
    }
}

#[verifier::rlimit(40)]
proof fn parts_of_match(k: Seq<char>, pattern: Seq<char>)
    requires
        is_key(k),
        !pattern.contains('/'),
    ensures
        ({
            let e = method_text(field_reference(k), ".match"@, seq!['/'] + pattern + seq!['/']);
            &&& is_dotted(field_reference(k) + ".match"@)
            &&& match_parts(e) == Some((k, pattern))
            &&& includes_parts(e) is None
            &&& contains_parts(e) is None
        }),
{
    reveal_strlit("p.");
    reveal_strlit(".match");
    reveal_strlit(".match(");
    reveal_strlit(".includes");
    reveal_strlit(".contains");
    let head = field_reference(k);
    let whole = head + ".match"@;
    let w = seq!['/'] + pattern + seq!['/'];
    let e = method_text(head, ".match"@, w);
    assert forall|i: int| 0 <= i < whole.len() implies key_char(#[trigger] whole[i]) || whole[i]
        == '.' by {
        if 2 <= i < head.len() {
            assert(whole[i] == k[i - 2]);
        }
    }
    name_of_a_call(whole, w);
    let n = head.len() as int;
    char_index_first(e, '(');
    assert(e.subrange(n, n + 7) =~= ".match("@);
    crate::text::first_occurrence(e, ".match("@);
    let p = find_text(e, ".match("@)->Some_0;
    assert(crate::text::occurs_at(e, ".match("@, n));
    assert(find_text(e, ".match("@) is Some);
    assert(p <= n);
    if p < n {
        crate::text::find_from_bounds(e, ".match("@, 0);
        assert(e.subrange(p, p + 7)[6] == '(');
        assert(e[p + 6] == '(');
        assert(p + 6 < whole.len());
    }
    assert(e.subrange(0, n) =~= head);
    assert(head.subrange(0, 2) =~= seq!['p', '.']);
    assert(head.subrange(2, n) =~= k);
    let args = e.subrange(n + 7, e.len() as int);
    assert(args =~= w + seq![')']);
    let after = args.subrange(1, args.len() as int);
    assert(after =~= pattern + seq!['/', ')']);
    char_index_first(after, '/');
    let end = char_index(after, '/');
    assert(after[pattern.len() as int] == '/');
    if end < pattern.len() {
        assert(pattern[end] == '/');
    }
    assert(after.subrange(0, end) =~= pattern);
    ends_with_match(head);
}

#[verifier::rlimit(40)]
proof fn ends_with_match(head: Seq<char>)
    ensures
        !ends_with(head + ".match"@, ".includes"@),
        !ends_with(head + ".match"@, ".contains"@),
{
    reveal_strlit(".match");
    reveal_strlit(".includes");
    reveal_strlit(".contains");
    let whole = head + ".match"@;
    assert(whole[whole.len() - 1] == 'h');
    if ends_with(whole, ".includes"@) {
        assert(whole.subrange(whole.len() - 9, whole.len() as int)[8] == 's');
    }
    if ends_with(whole, ".contains"@) {
        assert(whole.subrange(whole.len() - 9, whole.len() as int)[8] == 's');
    }
}

proof fn a_match_method_alone(e: Seq<char>, item: Json, k: Seq<char>, pattern: Seq<char>)
    requires
        first_relation(e, 0) is None,
        includes_parts(e) is None,
        contains_parts(e) is None,
        match_parts(e) == Some((k, pattern)),
    ensures
        Some(simple_predicate(e, item)) == match_value(e, item),
{
}

/// `p.name.match(/pattern/)` holds of an item whose field of that name is a text in
/// which the pattern is found; a pattern that cannot be compiled is a fault.
#[verifier::rlimit(40)]
pub proof fn match_method_decides(
    k: Seq<char>,
    pattern: Seq<char>,
    v: Seq<char>,
    item: Json,
    depth: int,
)
    requires
        depth <= MAX_PRED_DEPTH,
        is_key(k),
        !pattern.contains('/'),
        complete(operator_rules(), pattern) && never_below(operator_rules(), pattern),
        complete(pipe_rules(), pattern) && never_below(pipe_rules(), pattern),
        field(item, k) == Some(Json::Str(v)),
    ensures
        ({
            let e = method_text(field_reference(k), ".match"@, seq!['/'] + pattern + seq!['/']);
            &&& compiles(pattern) ==> predicate_at(e, item, depth) == Ok::<bool, Fault>(
                regex_found(pattern, v),
            )
            &&& !compiles(pattern) ==> predicate_at(e, item, depth) is Err
        }),
{
    let w = seq!['/'] + pattern + seq!['/'];
    let e = method_text(field_reference(k), ".match"@, w);
    parts_of_match(k, pattern);
    slashes_are_closed(operator_rules(), pattern);
    slashes_are_closed(pipe_rules(), pattern);
    call_is_left_side(field_reference(k) + ".match"@, w);
    alone_on_the_left(e, item, depth);
    a_match_method_alone(e, item, k, pattern);
    assert(!k.contains('.')) by {
        if k.contains('.') {
            let i = choose|i: int| 0 <= i < k.len() && k[i] == '.';
            assert(key_char(k[i]));
        }
    }
    paths_lead_through_members(item, k, k);
}

#[verifier::rlimit(40)]
proof fn slashes_are_closed(rules: Rules, pattern: Seq<char>)
    requires
        rules == operator_rules() || rules == pipe_rules(),
        complete(rules, pattern) && never_below(rules, pattern),
    ensures
        complete(rules, seq!['/'] + pattern + seq!['/']),
        never_below(rules, seq!['/'] + pattern + seq!['/']),
{
    let slash = seq!['/'];
    assert(all_inert(rules, slash));
    inert_is_complete(rules, slash);
    assert(never_below(rules, slash)) by {
        assert forall|i: int| 0 <= i <= slash.len() implies (#[trigger] lex_at(rules, slash, i)).depth
            >= 0 by {
            scan_of_inert(rules, slash, i);
        }
    }
    complete_in_parts(rules, slash, pattern);
    never_below_in_parts(rules, slash, pattern);
    complete_in_parts(rules, slash + pattern, slash);
    never_below_in_parts(rules, slash + pattern, slash);
}

} // verus!
