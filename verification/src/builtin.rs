//! The built-in functions of the expression language and their arguments.

use vstd::prelude::*;
use vstd::slice::slice_subrange;
use crate::expr::{
    compiles, concat, describe, description, descriptions, field_value, is_dotted, is_key, key_char,
    literal, mismatch, optional, outcome, parse_fault, parse_literal, pattern_matches, regex_fault,
    resolve_value_expr, ExprError, ExprValue, Fault, Val,
};
use crate::lexer::{
    all_inert, argument_rules, balanced, closes, complete, complete_in_parts, content_of_brackets,
    find_balanced_parens, inert_is_complete, lex_at, lex_step, never_below, plain, scan_of_end,
    scan_of_start, top_level, Escapes, Rules, Scan,
};
use crate::number::{Decimal, Num};
use crate::outside::{lowercase, regex_found, uppercase};
use crate::text::{
    begins, char_index, char_index_first, chars_of, code_point, contains_text, decimal,
    decimal_text, ends, ends_with,
    holds, index_of_char, is_text, pieces, starts_with, text_of, trim, trimmed,
};
use crate::value::{Document, Json};

verus! {

/// The built-in functions.
#[derive(Debug, Clone, Copy, PartialEq, Eq, Structural)]
pub enum BuiltinFunction {
    Regex,
    Len,
    Lower,
    Upper,
    Contains,
    StartsWith,
    EndsWith,
    Abs,
    TypeOf,
    Trim,
}

/// The name of a built-in function.
pub open spec fn function_name(f: BuiltinFunction) -> Seq<char> {
    match f {
        BuiltinFunction::Regex => "regex"@,
        BuiltinFunction::Len => "len"@,
        BuiltinFunction::Lower => "lower"@,
        BuiltinFunction::Upper => "upper"@,
        BuiltinFunction::Contains => "contains"@,
        BuiltinFunction::StartsWith => "starts_with"@,
        BuiltinFunction::EndsWith => "ends_with"@,
        BuiltinFunction::Abs => "abs"@,
        BuiltinFunction::TypeOf => "type_of"@,
        BuiltinFunction::Trim => "trim"@,
    }
}

/// The built-in function with a given name.
pub open spec fn function_named(name: Seq<char>) -> Option<BuiltinFunction> {
    if name == "regex"@ {
        Some(BuiltinFunction::Regex)
    } else if name == "len"@ {
        Some(BuiltinFunction::Len)
    } else if name == "lower"@ {
        Some(BuiltinFunction::Lower)
    } else if name == "upper"@ {
        Some(BuiltinFunction::Upper)
    } else if name == "contains"@ {
        Some(BuiltinFunction::Contains)
    } else if name == "starts_with"@ {
        Some(BuiltinFunction::StartsWith)
    } else if name == "ends_with"@ {
        Some(BuiltinFunction::EndsWith)
    } else if name == "abs"@ {
        Some(BuiltinFunction::Abs)
    } else if name == "type_of"@ {
        Some(BuiltinFunction::TypeOf)
    } else if name == "trim"@ {
        Some(BuiltinFunction::Trim)
    } else {
        None
    }
}

impl BuiltinFunction {
    /// The built-in function with a given name.
    pub fn from_name(name: &[char]) -> (r: Option<BuiltinFunction>)
        ensures
            r == function_named(name@),
    {
        if is_text(name, "regex") {
            Some(BuiltinFunction::Regex)
        } else if is_text(name, "len") {
            Some(BuiltinFunction::Len)
        } else if is_text(name, "lower") {
            Some(BuiltinFunction::Lower)
        } else if is_text(name, "upper") {
            Some(BuiltinFunction::Upper)
        } else if is_text(name, "contains") {
            Some(BuiltinFunction::Contains)
        } else if is_text(name, "starts_with") {
            Some(BuiltinFunction::StartsWith)
        } else if is_text(name, "ends_with") {
            Some(BuiltinFunction::EndsWith)
        } else if is_text(name, "abs") {
            Some(BuiltinFunction::Abs)
        } else if is_text(name, "type_of") {
            Some(BuiltinFunction::TypeOf)
        } else if is_text(name, "trim") {
            Some(BuiltinFunction::Trim)
        } else {
            None
        }
    }

    /// The name of the function.
    pub fn name(self) -> (r: &'static str)
        ensures
            r@ == function_name(self),
    {
        match self {
            BuiltinFunction::Regex => "regex",
            BuiltinFunction::Len => "len",
            BuiltinFunction::Lower => "lower",
            BuiltinFunction::Upper => "upper",
            BuiltinFunction::Contains => "contains",
            BuiltinFunction::StartsWith => "starts_with",
            BuiltinFunction::EndsWith => "ends_with",
            BuiltinFunction::Abs => "abs",
            BuiltinFunction::TypeOf => "type_of",
            BuiltinFunction::Trim => "trim",
        }
    }
}

// ---------------------------------------------------------------------------
// Arguments
// ---------------------------------------------------------------------------

/// The number of bytes of a character in UTF-8.
pub open spec fn utf8_width(c: char) -> int {
    let n = c as int;
    if n < 0x80 {
        1
    } else if n < 0x800 {
        2
    } else if n < 0x10000 {
        3
    } else {
        4
    }
}

/// The number of bytes of a text in UTF-8.
pub open spec fn utf8_len(s: Seq<char>) -> int
    decreases s.len(),
{
    if s.len() == 0 {
        0
    } else {
        utf8_len(s.drop_last()) + utf8_width(s.last())
    }
}

/// All kinds of brackets, and a backslash inside a string escapes.
pub open spec fn list_rules() -> Rules {
    Rules { all_brackets: true, escapes: Escapes::InString }
}

/// Whether a piece holds more than white space.
pub open spec fn nonblank(s: Seq<char>) -> bool {
    trim(s).len() > 0
}

/// The message for a closing bracket without its partner.
pub open spec fn unbalanced_text(s: Seq<char>, i: int) -> Seq<char> {
    "split_function_args: 不平衡的闭合括号 '"@ + seq![s[i]] + "' 在位置 "@ + decimal(
        utf8_len(s.subrange(0, i)) as nat,
    ) + "，输入: \""@ + s + "\""@
}

/// One piece before those of an outcome.
pub open spec fn led_by(
    head: Seq<Seq<char>>,
    r: Result<Seq<Seq<char>>, Fault>,
) -> Result<Seq<Seq<char>>, Fault> {
    match r {
        Ok(v) => Ok(head + v),
        Err(e) => Err(e),
    }
}

/// A piece, where it is not blank.
pub open spec fn piece(s: Seq<char>) -> Seq<Seq<char>> {
    if nonblank(s) {
        seq![s]
    } else {
        Seq::empty()
    }
}

/// The arguments from position `i` on, of which the first began at `start`.
pub open spec fn arguments_from(s: Seq<char>, start: int, i: int) -> Result<Seq<Seq<char>>, Fault>
    decreases s.len() - i,
{
    if i < 0 || i >= s.len() {
        Ok(piece(s.subrange(start, s.len() as int)))
    } else {
        let st = lex_at(list_rules(), s, i);
        if plain(st) && closes(list_rules(), s[i]) && st.depth <= 0 {
            Err(Fault::Parse(unbalanced_text(s, i)))
        } else if top_level(st) && s[i] == ',' {
            led_by(piece(s.subrange(start, i)), arguments_from(s, i + 1, i + 1))
        } else {
            arguments_from(s, start, i + 1)
        }
    }
}

/// The arguments of a call: the pieces between the commas outside brackets and
/// strings, without the blank ones.
pub open spec fn arguments(s: Seq<char>) -> Result<Seq<Seq<char>>, Fault> {
    arguments_from(s, 0, 0)
}

proof fn utf8_len_step(s: Seq<char>, i: int)
    requires
        0 <= i < s.len(),
    ensures
        utf8_len(s.subrange(0, i + 1)) == utf8_len(s.subrange(0, i)) + utf8_width(s[i]),
{
    assert(s.subrange(0, i + 1).drop_last() =~= s.subrange(0, i));
}

fn width(c: char) -> (r: u64)
    ensures
        r == utf8_width(c),
        1 <= r <= 4,
{
    let n: u32 = code_point(c);
    if n < 0x80 {
        1
    } else if n < 0x800 {
        2
    } else if n < 0x10000 {
        3
    } else {
        4
    }
}

fn bracket_fault(s: &[char], i: usize) -> (r: ExprError)
    requires
        i < s@.len(),
    ensures
        r@ == Fault::Parse(unbalanced_text(s@, i as int)),
{
    let mut bytes: u128 = 0;
    let mut j: usize = 0;
    assert(s@.subrange(0, 0) =~= Seq::empty());
    while j < i
        invariant
            j <= i < s@.len(),
            bytes == utf8_len(s@.subrange(0, j as int)),
            bytes <= 4 * j,
        decreases i - j,
    {
        proof {
            utf8_len_step(s@, j as int);
        }
        bytes = bytes + width(s[j]) as u128;
        j = j + 1;
    }
    let mut out: Vec<char> = Vec::new();
    crate::expr::push_text(&mut out, "split_function_args: 不平衡的闭合括号 '");
    out.push(s[i]);
    crate::expr::push_text(&mut out, "' 在位置 ");
    crate::text::push_decimal(&mut out, bytes);
    crate::expr::push_text(&mut out, "，输入: \"");
    crate::text::push_chars(&mut out, s);
    crate::expr::push_text(&mut out, "\"");
    assert(out@ =~= unbalanced_text(s@, i as int));
    parse_fault(text_of(out.as_slice()))
}

/// The model of the outcome of splitting.
pub open spec fn split_outcome(r: Result<Vec<&[char]>, ExprError>) -> Result<
    Seq<Seq<char>>,
    Fault,
> {
    match r {
        Ok(v) => Ok(pieces(v@)),
        Err(e) => Err(e@),
    }
}

/// Splits the arguments of a call.
pub fn split_function_args<'a>(s: &'a [char]) -> (r: Result<Vec<&'a [char]>, ExprError>)
    ensures
        split_outcome(r) == arguments(s@),
{
    let rules = Rules { all_brackets: true, escapes: Escapes::InString };
    let mut out: Vec<&'a [char]> = Vec::new();
    let mut start: usize = 0;
    let mut st = Scan::start();
    let mut i: usize = 0;
    assert(led_by(pieces(out@), arguments_from(s@, 0, 0)) =~= arguments(s@)) by {
        if arguments(s@) is Ok {
            assert(pieces(out@) + arguments(s@)->Ok_0 =~= arguments(s@)->Ok_0);
        }
    }
    while i < s.len()
        invariant
            start <= i <= s@.len(),
            rules == list_rules(),
            st@ == lex_at(rules, s@, i as int),
            st.within(i as int),
            led_by(pieces(out@), arguments_from(s@, start as int, i as int)) == arguments(s@),
        decreases s@.len() - i,
    {
        let c: char = s[i];
        if st.is_plain() && (c == ')' || c == ']' || c == '}') && st.depth <= 0 {
            return Err(bracket_fault(s, i));
        }
        if st.is_top() && c == ',' {
            let ghost before = pieces(out@);
            let ghost next = arguments_from(s@, i + 1, i + 1);
            let part = slice_subrange(s, start, i);
            if trimmed(part).len() > 0 {
                out.push(part);
                assert(pieces(out@) =~= before + piece(part@));
            } else {
                assert(pieces(out@) =~= before + piece(part@));
            }
            start = i + 1;
            assert(led_by(pieces(out@), next) == led_by(before, led_by(piece(part@), next))) by {
                if next is Ok {
                    assert((before + piece(part@)) + next->Ok_0 =~= before + (piece(part@)
                        + next->Ok_0));
                }
            }
        }
        st = st.next(rules, c, i);
        i = i + 1;
    }
    let ghost before = pieces(out@);
    let part = slice_subrange(s, start, s.len());
    if trimmed(part).len() > 0 {
        out.push(part);
    }
    assert(pieces(out@) =~= before + piece(part@));
    Ok(out)
}

// ---------------------------------------------------------------------------
// Application
// ---------------------------------------------------------------------------

/// Whether a function takes a second argument besides the value it is applied
/// to.
pub open spec fn takes_two(f: BuiltinFunction) -> bool {
    f is Regex || f is Contains || f is StartsWith || f is EndsWith
}

/// A count as a number.
pub open spec fn count(n: int) -> Val {
    Val::Num(Num::Finite(Decimal { neg: false, digits: n as u64, exp: 0 }))
}

/// The name of the type of a value.
pub open spec fn kind_name(v: Val) -> Seq<char> {
    match v {
        Val::Bool(_) => "bool"@,
        Val::Num(_) => "number"@,
        Val::Str(_) => "string"@,
        Val::Arr(_) => "array"@,
        Val::Null => "null"@,
    }
}

/// The size of a number.
pub open spec fn num_abs(n: Num) -> Num {
    match n {
        Num::Finite(d) => Num::Finite(Decimal { neg: false, ..d }),
        Num::Infinite { .. } => Num::Infinite { neg: false },
        Num::NotANumber => Num::NotANumber,
    }
}

/// A function of one argument applied to a value.
pub open spec fn applied(f: BuiltinFunction, v: Val) -> Result<Val, Fault> {
    match f {
        BuiltinFunction::Len => match v {
            Val::Str(s) => Ok(count(s.len() as int)),
            Val::Arr(a) => Ok(count(a.len() as int)),
            Val::Null => Ok(count(0)),
            _ => Err(Fault::Mismatch("string or array"@, describe(v))),
        },
        BuiltinFunction::Lower => match v {
            Val::Str(s) => Ok(Val::Str(lowercase(s))),
            _ => Err(Fault::Mismatch("string"@, describe(v))),
        },
        BuiltinFunction::Upper => match v {
            Val::Str(s) => Ok(Val::Str(uppercase(s))),
            _ => Err(Fault::Mismatch("string"@, describe(v))),
        },
        BuiltinFunction::Trim => match v {
            Val::Str(s) => Ok(Val::Str(trim(s))),
            _ => Err(Fault::Mismatch("string"@, describe(v))),
        },
        BuiltinFunction::Abs => match v {
            Val::Num(n) => Ok(Val::Num(num_abs(n))),
            _ => Err(Fault::Mismatch("number"@, describe(v))),
        },
        _ => Ok(Val::Str(kind_name(v))),
    }
}

/// The types that a function of two arguments needs, as messages name them.
pub open spec fn two_strings(f: BuiltinFunction) -> Seq<char> {
    match f {
        BuiltinFunction::Contains => "contains(string, string)"@,
        BuiltinFunction::StartsWith => "starts_with(string, string)"@,
        _ => "ends_with(string, string)"@,
    }
}

/// A function of two arguments applied to a value and a second value.
pub open spec fn applied_with(f: BuiltinFunction, v: Val, w: Val) -> Result<Val, Fault> {
    if f is Regex {
        match (v, w) {
            (Val::Str(s), Val::Str(p)) => if compiles(p) {
                Ok(Val::Bool(regex_found(p, s)))
            } else {
                Err(Fault::Regex(regex_fault(p)))
            },
            (Val::Str(_), _) => Err(Fault::Mismatch("string pattern"@, describe(w))),
            _ => Err(Fault::Mismatch("string"@, describe(v))),
        }
    } else {
        match (v, w) {
            (Val::Str(s), Val::Str(p)) => Ok(
                Val::Bool(
                    match f {
                        BuiltinFunction::Contains => contains_text(s, p),
                        BuiltinFunction::StartsWith => starts_with(s, p),
                        _ => ends_with(s, p),
                    },
                ),
            ),
            _ => Err(Fault::Mismatch(two_strings(f), describe(v) + ", "@ + describe(w))),
        }
    }
}

fn count_value(n: usize) -> (r: ExprValue)
    ensures
        r@ == count(n as int),
{
    ExprValue::Number(Num::Finite(Decimal { neg: false, digits: n as u64, exp: 0 }))
}

/// Applies a function of one argument.
fn apply(f: BuiltinFunction, v: &ExprValue) -> (r: Result<ExprValue, ExprError>)
    ensures
        outcome(r) == applied(f, v@),
{
    match f {
        BuiltinFunction::Len => match v {
            ExprValue::String(s) => {
                let c = chars_of(s.as_str());
                Ok(count_value(c.len()))
            },
            ExprValue::Array(items) => Ok(count_value(items.len())),
            ExprValue::Null => Ok(count_value(0)),
            _ => Err(mismatch("string or array", description(v))),
        },
        BuiltinFunction::Lower => match v {
            ExprValue::String(s) => Ok(ExprValue::String(s.as_str().to_lowercase())),
            _ => Err(mismatch("string", description(v))),
        },
        BuiltinFunction::Upper => match v {
            ExprValue::String(s) => Ok(ExprValue::String(s.as_str().to_uppercase())),
            _ => Err(mismatch("string", description(v))),
        },
        BuiltinFunction::Trim => match v {
            ExprValue::String(s) => {
                let chars = chars_of(s.as_str());
                Ok(ExprValue::String(text_of(trimmed(chars.as_slice()))))
            },
            _ => Err(mismatch("string", description(v))),
        },
        BuiltinFunction::Abs => match v {
            ExprValue::Number(n) => Ok(
                ExprValue::Number(
                    match *n {
                        Num::Finite(d) => Num::Finite(
                            Decimal { neg: false, digits: d.digits, exp: d.exp },
                        ),
                        Num::Infinite { .. } => Num::Infinite { neg: false },
                        Num::NotANumber => Num::NotANumber,
                    },
                ),
            ),
            _ => Err(mismatch("number", description(v))),
        },
        _ => {
            let name: &str = match v {
                ExprValue::Bool(_) => "bool",
                ExprValue::Number(_) => "number",
                ExprValue::String(_) => "string",
                ExprValue::Array(_) => "array",
                ExprValue::Null => "null",
            };
            Ok(ExprValue::String(name.to_owned()))
        },
    }
}

/// Tests a text against a pattern.
fn regex_test(text: &str, pattern: &str) -> (r: Result<ExprValue, ExprError>)
    ensures
        outcome(r) == (if compiles(pattern@) {
            Ok::<Val, Fault>(Val::Bool(regex_found(pattern@, text@)))
        } else {
            Err(Fault::Regex(regex_fault(pattern@)))
        }),
{
    match pattern_matches(pattern, text) {
        Ok(b) => Ok(ExprValue::Bool(b)),
        Err(m) => Err(ExprError::RegexError(m)),
    }
}

/// Applies a function of two arguments.
fn apply_with(f: BuiltinFunction, v: &ExprValue, w: &ExprValue) -> (r: Result<
    ExprValue,
    ExprError,
>)
    ensures
        outcome(r) == applied_with(f, v@, w@),
{
    match f {
        BuiltinFunction::Regex => match (v, w) {
            (ExprValue::String(s), ExprValue::String(p)) => regex_test(s.as_str(), p.as_str()),
            (ExprValue::String(_), _) => Err(mismatch("string pattern", description(w))),
            _ => Err(mismatch("string", description(v))),
        },
        _ => match (v, w) {
            (ExprValue::String(s), ExprValue::String(p)) => {
                let text = chars_of(s.as_str());
                let pat = chars_of(p.as_str());
                let b: bool = match f {
                    BuiltinFunction::Contains => holds(text.as_slice(), pat.as_slice()),
                    BuiltinFunction::StartsWith => begins(text.as_slice(), pat.as_slice()),
                    _ => ends(text.as_slice(), pat.as_slice()),
                };
                Ok(ExprValue::Bool(b))
            },
            _ => {
                let expected: &str = match f {
                    BuiltinFunction::Contains => "contains(string, string)",
                    BuiltinFunction::StartsWith => "starts_with(string, string)",
                    _ => "ends_with(string, string)",
                };
                Err(mismatch(expected, descriptions(v, ", ", w)))
            },
        },
    }
}

/// The message for a wrong number of arguments.
pub open spec fn argument_count_text(f: BuiltinFunction, n: nat) -> Seq<char> {
    function_name(f) + (if takes_two(f) {
        "() requires 2 arguments, got "@
    } else {
        "() requires 1 argument, got "@
    }) + decimal(n)
}

/// A call of a function on the field that its first argument names.
pub open spec fn call(f: BuiltinFunction, args: Seq<Seq<char>>, item: Json) -> Result<Val, Fault> {
    if takes_two(f) {
        if args.len() != 2 {
            Err(Fault::Parse(argument_count_text(f, args.len())))
        } else {
            match field_value(trim(args[0]), item) {
                Err(e) => Err(e),
                Ok(v) => match literal(trim(args[1])) {
                    Err(e) => Err(e),
                    Ok(w) => applied_with(f, v, w),
                },
            }
        }
    } else {
        if args.len() != 1 {
            Err(Fault::Parse(argument_count_text(f, args.len())))
        } else {
            match field_value(trim(args[0]), item) {
                Err(e) => Err(e),
                Ok(v) => applied(f, v),
            }
        }
    }
}

fn argument_fault(f: BuiltinFunction, n: usize) -> (r: ExprError)
    ensures
        r@ == Fault::Parse(argument_count_text(f, n as nat)),
{
    let two: bool = match f {
        BuiltinFunction::Regex | BuiltinFunction::Contains | BuiltinFunction::StartsWith
        | BuiltinFunction::EndsWith => true,
        _ => false,
    };
    let mut m: String = concat(
        f.name(),
        if two {
            "() requires 2 arguments, got "
        } else {
            "() requires 1 argument, got "
        },
    );
    let shown = decimal_text(n as u64);
    m.append(shown.as_str());
    parse_fault(m)
}

/// Evaluates a call of a built-in function.
pub fn eval_builtin_function(f: BuiltinFunction, args: &Vec<&[char]>, item: &Document) -> (r: Result<
    ExprValue,
    ExprError,
>)
    ensures
        outcome(r) == call(f, pieces(args@), item@),
{
    match f {
        BuiltinFunction::Regex | BuiltinFunction::Contains | BuiltinFunction::StartsWith
        | BuiltinFunction::EndsWith => {
            if args.len() != 2 {
                return Err(argument_fault(f, args.len()));
            }
            match resolve_value_expr(trimmed(args[0]), item) {
                Err(e) => Err(e),
                Ok(v) => match parse_literal(trimmed(args[1])) {
                    Err(e) => Err(e),
                    Ok(w) => apply_with(f, &v, &w),
                },
            }
        },
        _ => {
            if args.len() != 1 {
                return Err(argument_fault(f, args.len()));
            }
            match resolve_value_expr(trimmed(args[0]), item) {
                Err(e) => Err(e),
                Ok(v) => apply(f, &v),
            }
        },
    }
}

/// A function applied to the value before a pipe.
pub open spec fn piped(f: BuiltinFunction, args: Seq<Seq<char>>, v: Val) -> Result<Val, Fault> {
    if takes_two(f) {
        if args.len() == 0 {
            Err(Fault::Parse(function_name(f) + "() in pipe requires 1 argument"@))
        } else {
            match literal(trim(args[0])) {
                Err(e) => Err(e),
                Ok(w) => applied_with(f, v, w),
            }
        }
    } else {
        applied(f, v)
    }
}

/// Applies a built-in function to the value before a pipe.
pub fn eval_builtin_function_on_value(
    f: BuiltinFunction,
    args: &Vec<&[char]>,
    v: &ExprValue,
) -> (r: Result<ExprValue, ExprError>)
    ensures
        outcome(r) == piped(f, pieces(args@), v@),
{
    match f {
        BuiltinFunction::Regex | BuiltinFunction::Contains | BuiltinFunction::StartsWith
        | BuiltinFunction::EndsWith => {
            if args.len() == 0 {
                return Err(parse_fault(concat(f.name(), "() in pipe requires 1 argument")));
            }
            match parse_literal(trimmed(args[0])) {
                Err(e) => Err(e),
                Ok(w) => apply_with(f, v, &w),
            }
        },
        _ => apply(f, v),
    }
}

/// The function and the arguments of a call expression.
pub open spec fn call_parts(e: Seq<char>) -> Option<(BuiltinFunction, Option<Seq<char>>)> {
    let p = char_index(e, '(');
    if p >= e.len() {
        None
    } else {
        match function_named(trim(e.subrange(0, p))) {
            None => None,
            Some(f) => Some((f, balanced(e.subrange(p, e.len() as int)))),
        }
    }
}

/// The value of an expression that is a call of a built-in function.
pub open spec fn call_value(s: Seq<char>, item: Json) -> Result<Option<Val>, Fault> {
    let e = trim(s);
    match call_parts(e) {
        None => Ok(None),
        Some((_, None)) => Err(
            Fault::Parse("Unbalanced parentheses in function call: "@ + e),
        ),
        Some((f, Some(inside))) => match arguments(inside) {
            Err(fault) => Err(fault),
            Ok(args) => match call(f, args, item) {
                Err(fault) => Err(fault),
                Ok(v) => Ok(Some(v)),
            },
        },
    }
}

/// The function and the text after its name, where an expression is a call.
pub fn read_call<'a>(e: &'a [char]) -> (r: Option<(BuiltinFunction, Option<&'a [char]>)>)
    ensures
        match r {
            None => call_parts(e@) is None,
            Some((f, None)) => call_parts(e@) == Some((f, None::<Seq<char>>)),
            Some((f, Some(t))) => call_parts(e@) == Some((f, Some(t@))) && char_index(e@, '(')
                + t@.len() + 2 <= e@.len(),
        },
{
    let p: usize = index_of_char(e, '(');
    if p >= e.len() {
        return None;
    }
    match BuiltinFunction::from_name(trimmed(slice_subrange(e, 0, p))) {
        None => None,
        Some(f) => match find_balanced_parens(slice_subrange(e, p, e.len())) {
            Some(t) => Some((f, Some(t))),
            None => Some((f, None)),
        },
    }
}

/// Evaluates an expression that is a call of a built-in function.
pub fn try_eval_function_call(s: &[char], item: &Document) -> (r: Result<Option<ExprValue>, ExprError>)
    ensures
        optional(r) == call_value(s@, item@),
{
    let e = trimmed(s);
    match read_call(e) {
        None => Ok(None),
        Some((f, None)) => {
            let shown = text_of(e);
            Err(parse_fault(concat("Unbalanced parentheses in function call: ", shown.as_str())))
        },
        Some((f, Some(inside))) => match split_function_args(inside) {
            Err(fault) => Err(fault),
            Ok(args) => match eval_builtin_function(f, &args, item) {
                Err(fault) => Err(fault),
                Ok(v) => Ok(Some(v)),
            },
        },
    }
}

// ---------------------------------------------------------------------------
// Laws
// ---------------------------------------------------------------------------

/// The names of the functions, and that there are no others: what is called by a
/// name has that name.
pub proof fn functions_have_their_names(name: Seq<char>)
    ensures
        function_named("regex"@) == Some(BuiltinFunction::Regex),
        function_named("len"@) == Some(BuiltinFunction::Len),
        function_named("lower"@) == Some(BuiltinFunction::Lower),
        function_named("upper"@) == Some(BuiltinFunction::Upper),
        function_named("contains"@) == Some(BuiltinFunction::Contains),
        function_named("starts_with"@) == Some(BuiltinFunction::StartsWith),
        function_named("ends_with"@) == Some(BuiltinFunction::EndsWith),
        function_named("abs"@) == Some(BuiltinFunction::Abs),
        function_named("type_of"@) == Some(BuiltinFunction::TypeOf),
        function_named("trim"@) == Some(BuiltinFunction::Trim),
        function_named(name) matches Some(f) ==> name == function_name(f),
{
    reveal_strlit("regex");
    reveal_strlit("len");
    reveal_strlit("lower");
    reveal_strlit("upper");
    reveal_strlit("contains");
    reveal_strlit("starts_with");
    reveal_strlit("ends_with");
    reveal_strlit("abs");
    reveal_strlit("type_of");
    reveal_strlit("trim");
    assert("regex"@[0] == 'r' && "len"@[1] == 'e' && "lower"@[0] == 'l' && "upper"@[0] == 'u');
    assert("len"@.len() == 3 && "lower"@.len() == 5 && "abs"@.len() == 3 && "trim"@.len() == 4);
    assert("contains"@[0] == 'c' && "starts_with"@[0] == 's' && "ends_with"@[0] == 'e');
    assert("abs"@[0] == 'a' && "type_of"@[0] == 't' && "type_of"@.len() == 7 && "trim"@[0] == 't');
    assert("len"@[0] == 'l' && "regex"@.len() == 5 && "upper"@.len() == 5);
}

/// What the functions of one argument make of a text: its length in characters,
/// the text in lower or upper case, or without white space at its ends.
pub proof fn functions_on_texts(s: Seq<char>)
    ensures
        s.len() <= u64::MAX ==> (applied(BuiltinFunction::Len, Val::Str(s)) matches Ok(Val::Num(Num::Finite(d)))
            && d.digits == s.len() && d.exp == 0 && !d.neg),
        applied(BuiltinFunction::Lower, Val::Str(s)) == Ok::<Val, Fault>(Val::Str(lowercase(s))),
        applied(BuiltinFunction::Upper, Val::Str(s)) == Ok::<Val, Fault>(Val::Str(uppercase(s))),
        applied(BuiltinFunction::Abs, Val::Str(s)) is Err,
        applied(BuiltinFunction::TypeOf, Val::Str(s)) == Ok::<Val, Fault>(Val::Str("string"@)),
        applied(BuiltinFunction::Trim, Val::Str(s)) matches Ok(Val::Str(t)) && crate::text::tight(t)
            && exists|a: Seq<char>, b: Seq<char>|
            s == #[trigger] (a + t + b) && crate::text::blank(a) && crate::text::blank(b),
{
    let (a, b) = crate::text::trim_parts(s);
    assert(s == a + trim(s) + b);
}

/// What the functions of one argument make of other values.
pub proof fn functions_on_other_values(a: Seq<Json>, n: Num, d: Decimal, b: bool)
    ensures
        a.len() <= u64::MAX ==> (applied(BuiltinFunction::Len, Val::Arr(a)) matches Ok(Val::Num(Num::Finite(x)))
            && x.digits == a.len() && x.exp == 0 && !x.neg),
        applied(BuiltinFunction::Len, Val::Null) matches Ok(Val::Num(Num::Finite(x))) && x.digits
            == 0,
        applied(BuiltinFunction::Len, Val::Num(n)) is Err,
        applied(BuiltinFunction::Len, Val::Bool(b)) is Err,
        applied(BuiltinFunction::Abs, Val::Num(Num::Finite(d))) == Ok::<Val, Fault>(
            Val::Num(Num::Finite(Decimal { neg: false, digits: d.digits, exp: d.exp })),
        ),
        applied(BuiltinFunction::Lower, Val::Num(n)) is Err,
        applied(BuiltinFunction::Upper, Val::Num(n)) is Err,
        applied(BuiltinFunction::Trim, Val::Num(n)) is Err,
        applied(BuiltinFunction::TypeOf, Val::Num(n)) == Ok::<Val, Fault>(Val::Str("number"@)),
        applied(BuiltinFunction::TypeOf, Val::Bool(b)) == Ok::<Val, Fault>(Val::Str("bool"@)),
        applied(BuiltinFunction::TypeOf, Val::Arr(a)) == Ok::<Val, Fault>(Val::Str("array"@)),
        applied(BuiltinFunction::TypeOf, Val::Null) == Ok::<Val, Fault>(Val::Str("null"@)),
{
}

/// What the functions of two arguments say of two texts: that the first holds the
/// second, begins with it or ends with it, or that the second, as a pattern, is
/// found in the first.
pub proof fn functions_on_two_texts(s: Seq<char>, t: Seq<char>)
    ensures
        applied_with(BuiltinFunction::Contains, Val::Str(s), Val::Str(t)) == Ok::<Val, Fault>(
            Val::Bool(exists|a: Seq<char>, b: Seq<char>| s == #[trigger] (a + t + b)),
        ),
        applied_with(BuiltinFunction::StartsWith, Val::Str(s), Val::Str(t)) == Ok::<Val, Fault>(
            Val::Bool(t.is_prefix_of(s)),
        ),
        applied_with(BuiltinFunction::EndsWith, Val::Str(s), Val::Str(t)) == Ok::<Val, Fault>(
            Val::Bool(t.is_suffix_of(s)),
        ),
        compiles(t) ==> applied_with(BuiltinFunction::Regex, Val::Str(s), Val::Str(t)) == Ok::<
            Val,
            Fault,
        >(Val::Bool(regex_found(t, s))),
        !compiles(t) ==> applied_with(BuiltinFunction::Regex, Val::Str(s), Val::Str(t)) is Err,
{
    crate::text::what_is_held(s, t);
    if exists|a: Seq<char>, b: Seq<char>| s == #[trigger] (a + t + b) {
        let (a, b) = choose|a: Seq<char>, b: Seq<char>| s == #[trigger] (a + t + b);
        crate::text::texts_within_texts(a, t, b);
    }
    if t.len() <= s.len() {
        assert(s.subrange(0, t.len() as int) =~= s.take(t.len() as int));
    }
}

proof fn shifted_arguments(front: Seq<char>, b: Seq<char>, start: int, i: int)
    requires
        complete(list_rules(), front),
        0 <= start <= i <= b.len(),
        arguments_from(b, start, i) is Ok,
    ensures
        arguments_from(front + b, front.len() + start, front.len() + i) == arguments_from(
            b,
            start,
            i,
        ),
    decreases b.len() - i,
{
    let s = front + b;
    let n = front.len() as int;
    if i >= b.len() {
        assert(s.subrange(n + start, s.len() as int) =~= b.subrange(start, b.len() as int));
    } else {
        scan_of_end(list_rules(), front, b, i);
        assert(s[n + i] == b[i]);
        let st = lex_at(list_rules(), b, i);
        if top_level(st) && b[i] == ',' {
            assert(s.subrange(n + start, n + i) =~= b.subrange(start, i));
            assert(arguments_from(b, i + 1, i + 1) is Ok);
            shifted_arguments(front, b, i + 1, i + 1);
        } else {
            shifted_arguments(front, b, start, i + 1);
        }
    }
}

proof fn argument_before_comma(a: Seq<char>, b: Seq<char>, i: int)
    requires
        complete(list_rules(), a),
        never_below(list_rules(), a),
        forall|j: int|
            0 <= j < a.len() && top_level(#[trigger] lex_at(list_rules(), a, j)) ==> a[j] != ',',
        0 <= i <= a.len(),
    ensures
        arguments_from(a + b, 0, i) == arguments_from(a + b, 0, a.len() as int),
    decreases a.len() - i,
{
    if i < a.len() {
        let s = a + b;
        scan_of_start(list_rules(), a, b, i);
        assert(s[i] == a[i]);
        let st = lex_at(list_rules(), a, i);
        assert(st.depth >= 0);
        assert(lex_at(list_rules(), a, i + 1) == lex_step(list_rules(), st, a[i]));
        assert(lex_at(list_rules(), a, i + 1).depth >= 0);
        argument_before_comma(a, b, i + 1);
    }
}

/// Arguments are what stands between commas outside brackets and strings: one
/// argument alone, and one argument, a comma and others.
pub proof fn commas_divide_arguments(a: Seq<char>, b: Seq<char>)
    requires
        complete(list_rules(), a),
        never_below(list_rules(), a),
        forall|j: int|
            0 <= j < a.len() && top_level(#[trigger] lex_at(list_rules(), a, j)) ==> a[j] != ',',
        trim(a).len() > 0,
    ensures
        arguments(a) == Ok::<Seq<Seq<char>>, Fault>(seq![a]),
        arguments(b) is Ok ==> arguments(a + seq![','] + b) == Ok::<Seq<Seq<char>>, Fault>(
            seq![a] + arguments(b)->Ok_0,
        ),
{
    let n = a.len() as int;
    argument_before_comma(a, Seq::empty(), 0);
    assert(a + Seq::<char>::empty() =~= a);
    assert(a.subrange(0, n) =~= a);
    if arguments(b) is Ok {
        let s = a + seq![','] + b;
        assert(s =~= a + (seq![','] + b));
        argument_before_comma(a, seq![','] + b, 0);
        scan_of_start(list_rules(), a, seq![','] + b, n);
        assert(s[n] == ',');
        assert(s.subrange(0, n) =~= a);
        assert(all_inert(list_rules(), seq![',']));
        inert_is_complete(list_rules(), seq![',']);
        complete_in_parts(list_rules(), a, seq![',']);
        shifted_arguments(a + seq![','], b, 0, 0);
    }
}

/// A call is the name of a function and its arguments in brackets, whatever
/// follows.
pub proof fn calls_are_names_and_arguments(
    f: BuiltinFunction,
    inside: Seq<char>,
    tail: Seq<char>,
)
    requires
        complete(argument_rules(), inside),
        never_below(argument_rules(), inside),
    ensures
        call_parts(function_name(f) + (seq!['('] + inside + seq![')']) + tail) == Some(
            (f, Some(inside)),
        ),
        is_dotted(function_name(f)),
{
    let name = function_name(f);
    function_names_are_words(f);
    functions_have_their_names(name);
    let t = seq!['('] + inside + seq![')'];
    let e = name + t + tail;
    char_index_first(e, '(');
    let p = char_index(e, '(');
    assert(e[name.len() as int] == '(');
    if p < name.len() {
        assert(e[p] == name[p]);
        assert(key_char(name[p]));
    }
    assert(p == name.len());
    assert(e.subrange(0, p) =~= name);
    assert(key_char(name[0]) && key_char(name[name.len() - 1]));
    crate::text::trim_of_tight(name);
    content_of_brackets(inside, tail);
    assert(e.subrange(p, e.len() as int) =~= t + tail);
}

/// The name of a function is one word, and names that function.
pub proof fn function_names_are_words(f: BuiltinFunction)
    ensures
        is_key(function_name(f)),
        function_named(function_name(f)) == Some(f),
{
    functions_have_their_names(function_name(f));
    reveal_strlit("regex");
    reveal_strlit("len");
    reveal_strlit("lower");
    reveal_strlit("upper");
    reveal_strlit("contains");
    reveal_strlit("starts_with");
    reveal_strlit("ends_with");
    reveal_strlit("abs");
    reveal_strlit("type_of");
    reveal_strlit("trim");
    let name = function_name(f);
    assert forall|i: int| 0 <= i < name.len() implies key_char(#[trigger] name[i]) by {}
}

} // verus!
