//! The functions of other crates, and of the standard library, that the logic
//! calls.  What is stated of each here is taken on trust.

use vstd::prelude::*;
use crate::cache::hex_digit;

verus! {

// ---------------------------------------------------------------------------
// Texts and paths
// ---------------------------------------------------------------------------

/// `String::push` appends one character, as its documentation says.
pub assume_specification[ std::string::String::push ](s: &mut std::string::String, c: char)
    ensures
        final(s)@ == old(s)@.push(c),
;

/// A path in the file system, which is only handed on.
#[verifier::external_type_specification]
#[verifier::external_body]
pub struct ExPathBuf(std::path::PathBuf);

// ---------------------------------------------------------------------------
// Letter case and debug quoting
// ---------------------------------------------------------------------------

/// What `str::to_lowercase` makes of a text.
pub uninterp spec fn lowercase(s: Seq<char>) -> Seq<char>;

/// What `str::to_uppercase` makes of a text.
pub uninterp spec fn uppercase(s: Seq<char>) -> Seq<char>;

/// What `Debug` for `str` makes of a text: the text in double quotes, escaped.
pub uninterp spec fn debug_quoted(s: Seq<char>) -> Seq<char>;

/// `str::to_lowercase` depends on nothing but the text.
pub assume_specification[ str::to_lowercase ](s: &str) -> (r: std::string::String)
    ensures
        r@ == lowercase(s@),
;

/// `str::to_uppercase` depends on nothing but the text.
pub assume_specification[ str::to_uppercase ](s: &str) -> (r: std::string::String)
    ensures
        r@ == uppercase(s@),
;

/// `<str as Debug>::fmt`: its output depends on nothing but the text.
#[verifier::external_body]
pub(crate) fn debug_text(s: &str) -> (r: String)
    ensures
        r@ == debug_quoted(s@),
{
    format!("{:?}", s)
}

// ---------------------------------------------------------------------------
// Characters
// ---------------------------------------------------------------------------

/// `char::from_u32`: the character with that code point, if there is one, which
/// there is up to 0x10FFFF except among the surrogates.
pub assume_specification[ char::from_u32 ](i: u32) -> (r: Option<char>)
    ensures
        match r {
            Some(c) => c as int == i && (i < 0xD800 || 0xE000 <= i <= 0x10FFFF),
            None => i > 0x10FFFF || 0xD800 <= i <= 0xDFFF,
        },
;

/// The text of bytes read as UTF-8, with U+FFFD for what is not.
pub uninterp spec fn utf8_text(bytes: Seq<u8>) -> Seq<char>;

/// `String::from_utf8_lossy`: the result depends on nothing but the bytes.
#[verifier::external_body]
pub(crate) fn utf8_lossy(bytes: &[u8]) -> (r: String)
    ensures
        r@ == utf8_text(bytes@),
{
    String::from_utf8_lossy(bytes).to_string()
}

/// A text in the normalisation form NFKC.
pub uninterp spec fn nfkc(s: Seq<char>) -> Seq<char>;

/// `unicode_normalization::UnicodeNormalization::nfkc` on the characters of a
/// text: the result depends on nothing but them.
#[verifier::external_body]
pub(crate) fn nfkc_of(s: &str) -> (r: String)
    ensures
        r@ == nfkc(s@),
{
    unicode_normalization::UnicodeNormalization::nfkc(s.chars()).collect()
}

// ---------------------------------------------------------------------------
// Regular expressions
// ---------------------------------------------------------------------------

/// A compiled regular expression of the `regex` crate.
#[verifier::external_type_specification]
#[verifier::external_body]
pub struct ExRegex(regex::Regex);

/// Whether a pattern compiles within the size limit.
pub uninterp spec fn regex_valid(pattern: Seq<char>, limit: int) -> bool;

/// The message with which compiling a pattern fails.
pub uninterp spec fn regex_message(pattern: Seq<char>, limit: int) -> Seq<char>;

/// Whether a pattern matches somewhere in a text.
pub uninterp spec fn regex_found(pattern: Seq<char>, text: Seq<char>) -> bool;

/// The text with every match of a pattern replaced.
pub uninterp spec fn regex_replaced(
    pattern: Seq<char>,
    text: Seq<char>,
    replacement: Seq<char>,
) -> Seq<char>;

/// `regex::RegexBuilder::build` with both size limits set: whether it
/// succeeds, and its error message where it does not, depend on the pattern
/// and the limit alone.
#[verifier::external_body]
pub(crate) fn regex_build(pattern: &str, limit: usize) -> (r: Result<regex::Regex, String>)
    ensures
        match r {
            Ok(_) => regex_valid(pattern@, limit as int),
            Err(e) => !regex_valid(pattern@, limit as int) && e@ == regex_message(
                pattern@,
                limit as int,
            ),
        },
{
    regex::RegexBuilder::new(pattern).size_limit(limit).dfa_size_limit(limit).build().map_err(
        |e| e.to_string(),
    )
}

/// `regex::Regex::is_match` on the expression that the pattern compiles to:
/// the answer depends on the pattern and the text alone.  Where the pattern does
/// not compile, the message of `regex::RegexBuilder::build` is returned.
#[verifier::external_body]
pub(crate) fn regex_is_match(pattern: &str, limit: usize, text: &str) -> (r: Result<bool, String>)
    ensures
        match r {
            Ok(b) => regex_valid(pattern@, limit as int) && b == regex_found(pattern@, text@),
            Err(e) => !regex_valid(pattern@, limit as int) && e@ == regex_message(
                pattern@,
                limit as int,
            ),
        },
{
    let built = regex::RegexBuilder::new(pattern).size_limit(limit).dfa_size_limit(limit).build();
    built.map(|re| re.is_match(text)).map_err(|e| e.to_string())
}

/// `regex::Regex::replace_all` on the expression that the pattern compiles to:
/// the result depends on the pattern, the text and the replacement alone.
/// Where the pattern does not compile, the message of
/// `regex::RegexBuilder::build` is returned.
#[verifier::external_body]
pub(crate) fn regex_replace_all(pattern: &str, limit: usize, text: &str, replacement: &str) -> (r:
    Result<String, String>)
    ensures
        match r {
            Ok(t) => regex_valid(pattern@, limit as int) && t@ == regex_replaced(
                pattern@,
                text@,
                replacement@,
            ),
            Err(e) => !regex_valid(pattern@, limit as int) && e@ == regex_message(
                pattern@,
                limit as int,
            ),
        },
{
    let built = regex::RegexBuilder::new(pattern).size_limit(limit).dfa_size_limit(limit).build();
    built.map(|re| re.replace_all(text, replacement).into_owned()).map_err(|e| e.to_string())
}

/// The characters with a meaning of their own in a regular expression.
pub open spec fn regex_meta(c: char) -> bool {
    ||| c == '\\'
    ||| c == '.'
    ||| c == '+'
    ||| c == '*'
    ||| c == '?'
    ||| c == '('
    ||| c == ')'
    ||| c == '|'
    ||| c == '['
    ||| c == ']'
    ||| c == '{'
    ||| c == '}'
    ||| c == '^'
    ||| c == '$'
    ||| c == '#'
    ||| c == '&'
    ||| c == '-'
    ||| c == '~'
}

/// `s` with a backslash before every character that `regex_meta` names.
pub open spec fn regex_escaped(s: Seq<char>) -> Seq<char>
    decreases s.len(),
{
    if s.len() == 0 {
        s
    } else if regex_meta(s.last()) {
        regex_escaped(s.drop_last()).push('\\').push(s.last())
    } else {
        regex_escaped(s.drop_last()).push(s.last())
    }
}

/// `regex::escape` puts a backslash before every character with a meaning of
/// its own and leaves the others alone.
#[verifier::external_body]
pub(crate) fn regex_escape(s: &str) -> (r: String)
    ensures
        r@ == regex_escaped(s@),
{
    regex::escape(s)
}

// ---------------------------------------------------------------------------
// Faults of other crates and of the system
// ---------------------------------------------------------------------------

/// A fault of the system.
#[verifier::external_type_specification]
#[verifier::external_body]
pub struct ExIoError(std::io::Error);

/// A fault of `serde_json`.
#[verifier::external_type_specification]
#[verifier::external_body]
pub struct ExJsonError(serde_json::Error);

/// A fault of `serde_yml`.
#[verifier::external_type_specification]
#[verifier::external_body]
pub struct ExYamlError(serde_yml::Error);

/// `<std::io::Error as Display>::fmt`: nothing is claimed of the message.
#[verifier::external_body]
pub(crate) fn io_error_text(e: &std::io::Error) -> (r: String) {
    format!("{}", e)
}

/// `<serde_json::Error as Display>::fmt`: nothing is claimed of the message.
#[verifier::external_body]
pub(crate) fn json_error_text(e: &serde_json::Error) -> (r: String) {
    format!("{}", e)
}

/// `<serde_yml::Error as Display>::fmt`: nothing is claimed of the message.
#[verifier::external_body]
pub(crate) fn yaml_error_text(e: &serde_yml::Error) -> (r: String) {
    format!("{}", e)
}

/// The kind of a fault of the system.
#[verifier::external_type_specification]
#[verifier::external_body]
pub struct ExErrorKind(std::io::ErrorKind);

/// The kind that a fault of the system has.
pub uninterp spec fn io_kind(e: std::io::Error) -> std::io::ErrorKind;

/// `std::io::Error::kind`: the kind depends on nothing but the fault.
#[verifier::external_body]
pub(crate) fn io_error_kind(e: &std::io::Error) -> (r: std::io::ErrorKind)
    ensures
        r == io_kind(*e),
{
    e.kind()
}

// ---------------------------------------------------------------------------
// The clock
// ---------------------------------------------------------------------------

/// The hour and the minute of `chrono::Local::now`, by `chrono::Timelike`:
/// an hour below 24 and a minute below 60, whatever the time is.
#[verifier::external_body]
pub(crate) fn local_time() -> (r: (u32, u32))
    ensures
        r.0 < 24,
        r.1 < 60,
{
    let now = chrono::Local::now().time();
    (chrono::Timelike::hour(&now), chrono::Timelike::minute(&now))
}

/// A point in time of the system clock.
#[verifier::external_type_specification]
#[verifier::external_body]
pub struct ExInstant(std::time::Instant);

/// `std::time::Instant::now`: nothing is claimed of the time.
#[verifier::external_body]
pub(crate) fn instant_now() -> (r: std::time::Instant) {
    std::time::Instant::now()
}

/// The microseconds of `std::time::Instant::elapsed`, as a `u64`: nothing is
/// claimed of how many there are.
#[verifier::external_body]
pub(crate) fn micros_since(start: &std::time::Instant) -> (r: u64) {
    start.elapsed().as_micros() as u64
}

/// The nanoseconds of `std::time::Instant::elapsed`: nothing is claimed of how
/// many there are.
#[verifier::external_body]
pub(crate) fn nanos_since(start: &std::time::Instant) -> (r: u128) {
    start.elapsed().as_nanos()
}

// ---------------------------------------------------------------------------
// Identifiers
// ---------------------------------------------------------------------------

/// `uuid::Uuid::new_v4` and its `Display`: a text in the form of a version 4
/// UUID, in lower case, of which nothing else is known.
#[verifier::external_body]
pub(crate) fn uuid_v4() -> (r: String)
    ensures
        crate::ir::uuid_text(r@),
{
    uuid::Uuid::new_v4().to_string()
}

/// `uuid::Uuid::new_v4` and its simple form: 32 hexadecimal digits in lower
/// case, of which nothing else is known.
#[verifier::external_body]
pub(crate) fn uuid_simple() -> (r: String)
    ensures
        r@.len() == 32,
        forall|i: int| 0 <= i < 32 ==> crate::ir::hex_digit(#[trigger] r@[i]),
{
    uuid::Uuid::new_v4().simple().to_string()
}

// ---------------------------------------------------------------------------
// JSON and YAML
// ---------------------------------------------------------------------------

/// A document of `serde_yml`, which is only handed on.
#[verifier::external_type_specification]
#[verifier::external_body]
pub struct ExYamlValue(serde_yml::Value);

/// The document that a JSON text denotes, if it denotes one.
pub uninterp spec fn yaml_value(json: Seq<char>) -> Option<serde_yml::Value>;

/// The YAML text of a document, if it can be written.
pub uninterp spec fn yaml_text(value: serde_yml::Value) -> Option<Seq<char>>;

/// `serde_json::Deserializer` into a `serde_yml::Value`, however deep the
/// document is: the result depends on nothing but the text.
#[verifier::external_body]
pub(crate) fn yaml_read(json: &str) -> (r: Result<serde_yml::Value, serde_json::Error>)
    ensures
        match r {
            Ok(value) => yaml_value(json@) == Some(value),
            Err(_) => yaml_value(json@) is None,
        },
{
    let mut reader = serde_json::Deserializer::from_str(json);
    reader.disable_recursion_limit();
    <serde_yml::Value as serde::Deserialize>::deserialize(&mut reader)
}

/// `serde_yml::to_string`: the result depends on nothing but the document.
#[verifier::external_body]
pub(crate) fn yaml_write(value: &serde_yml::Value) -> (r: Result<String, serde_yml::Error>)
    ensures
        match r {
            Ok(yaml) => yaml_text(*value) == Some(yaml@),
            Err(_) => yaml_text(*value) is None,
        },
{
    serde_yml::to_string(value)
}

/// A character within a JSON string.
pub open spec fn json_char(c: char) -> Seq<char> {
    if c == '"' || c == '\\' {
        seq!['\\', c]
    } else if c == '\u{8}' {
        seq!['\\', 'b']
    } else if c == '\t' {
        seq!['\\', 't']
    } else if c == '\n' {
        seq!['\\', 'n']
    } else if c == '\u{C}' {
        seq!['\\', 'f']
    } else if c == '\r' {
        seq!['\\', 'r']
    } else if c <= '\u{1F}' {
        let n = c as int;
        seq!['\\', 'u', '0', '0', hex_digit(n / 16), hex_digit(n % 16)]
    } else {
        seq![c]
    }
}

/// The characters of a text within a JSON string.
pub open spec fn json_chars(s: Seq<char>) -> Seq<char>
    decreases s.len(),
{
    if s.len() == 0 {
        Seq::empty()
    } else {
        json_chars(s.drop_last()) + json_char(s.last())
    }
}

/// A text as a JSON string.
pub open spec fn json_quoted(s: Seq<char>) -> Seq<char> {
    seq!['"'] + json_chars(s) + seq!['"']
}

/// `serde_json::to_string` on a text, for which it does not fail: the text in
/// double quotes, with a backslash before a double quote or a backslash, short
/// escapes for five control characters and `\u00..` with lower-case digits for
/// the others below the space; every other character stands as it is.
#[verifier::external_body]
pub(crate) fn json_quote(s: &str) -> (r: String)
    ensures
        r@ == json_quoted(s@),
{
    serde_json::to_string(s).unwrap_or_default()
}

// ---------------------------------------------------------------------------
// Digests
// ---------------------------------------------------------------------------

/// The SHA-256 digest of some bytes.
pub uninterp spec fn sha256(bytes: Seq<u8>) -> Seq<u8>;

/// `sha2::Sha256::digest`: the result depends on nothing but the bytes.
#[verifier::external_body]
pub(crate) fn sha256_of(bytes: &[u8]) -> (r: [u8; 32])
    ensures
        r@ == sha256(bytes@),
{
    <sha2::Sha256 as sha2::Digest>::digest(bytes).into()
}

// ---------------------------------------------------------------------------
// Sets in the order of insertion
// ---------------------------------------------------------------------------

/// A set of the `indexmap` crate.
#[verifier::external_type_specification]
#[verifier::external_body]
#[verifier::reject_recursive_types(T)]
#[verifier::reject_recursive_types(S)]
pub struct ExIndexSet<T, S>(indexmap::IndexSet<T, S>);

/// The texts in a set, in the order in which they were inserted.
pub uninterp spec fn in_set(set: indexmap::IndexSet<String>) -> Seq<Seq<char>>;

/// `indexmap::IndexSet::new`: a set without texts.
#[verifier::external_body]
pub(crate) fn set_new() -> (r: indexmap::IndexSet<String>)
    ensures
        in_set(r) == Seq::<Seq<char>>::empty(),
{
    indexmap::IndexSet::new()
}

/// `indexmap::IndexSet::insert`: a new text comes last; one that is there stays
/// in its place.
#[verifier::external_body]
pub(crate) fn set_insert(set: &mut indexmap::IndexSet<String>, text: String)
    ensures
        in_set(*final(set)) == (if in_set(*old(set)).contains(text@) {
            in_set(*old(set))
        } else {
            in_set(*old(set)).push(text@)
        }),
{
    set.insert(text);
}

/// `indexmap::IndexSet::shift_remove`: the text is taken out, and the others
/// keep their order.
#[verifier::external_body]
pub(crate) fn set_remove(set: &mut indexmap::IndexSet<String>, text: &str)
    ensures
        in_set(*final(set)) == crate::assoc::remaining(in_set(*old(set)), seq![text@]),
{
    set.shift_remove(text);
}

/// `indexmap::IndexSet::shift_remove_index` at 0: the first text is taken out,
/// and the others keep their order.
#[verifier::external_body]
pub(crate) fn set_remove_first(set: &mut indexmap::IndexSet<String>) -> (r: Option<String>)
    ensures
        match r {
            Some(text) => in_set(*old(set)).len() > 0 && text@ == in_set(*old(set))[0] && in_set(
                *final(set),
            ) == in_set(*old(set)).drop_first(),
            None => in_set(*old(set)).len() == 0 && in_set(*final(set)) == in_set(*old(set)),
        },
{
    set.shift_remove_index(0)
}

/// `indexmap::IndexSet::is_empty`.
#[verifier::external_body]
pub(crate) fn set_is_empty(set: &indexmap::IndexSet<String>) -> (r: bool)
    ensures
        r == (in_set(*set).len() == 0),
{
    set.is_empty()
}

/// `indexmap::IndexSet::clear`: the set loses all texts.
#[verifier::external_body]
pub(crate) fn set_clear(set: &mut indexmap::IndexSet<String>)
    ensures
        in_set(*final(set)) == Seq::<Seq<char>>::empty(),
{
    set.clear();
}

} // verus!
