//! Text as sequences of characters.
//!
//! Expressions, paths and patterns are read character by character, so the
//! functions here work on slices of `char`; `String` and `str` appear only at
//! the borders of the library.

use vstd::prelude::*;
use vstd::slice::slice_subrange;

verus! {

/// The text of an optional string.
pub open spec fn opt_text(o: Option<String>) -> Option<Seq<char>> {
    match o {
        Some(s) => Some(s@),
        None => None,
    }
}

/// A copy of an optional string.
pub fn copy_text(o: &Option<String>) -> (r: Option<String>)
    ensures
        opt_text(r) == opt_text(*o),
{
    match o {
        Some(s) => Some(s.clone()),
        None => None,
    }
}

// ---------------------------------------------------------------------------
// Conversions
// ---------------------------------------------------------------------------

/// The characters of a string.
pub fn chars_of(s: &str) -> (r: Vec<char>)
    ensures
        r@ == s@,
{
    let mut out: Vec<char> = Vec::new();
    for c in it: s.chars()
        invariant
            out@ == it.seq().take(it.index()),
            it.seq() == s@,
    {
        out.push(c);
        assert(out@ =~= it.seq().take(it.index() + 1));
    }
    assert(out@ =~= s@);
    out
}

/// The string made of these characters.
pub fn text_of(c: &[char]) -> (r: String)
    ensures
        r@ == c@,
{
    let mut out: String = String::new();
    let mut i: usize = 0;
    while i < c.len()
        invariant
            i <= c@.len(),
            out@ == c@.subrange(0, i as int),
        decreases c@.len() - i,
    {
        out.push(c[i]);
        i = i + 1;
        assert(out@ =~= c@.subrange(0, i as int));
    }
    assert(c@.subrange(0, c@.len() as int) =~= c@);
    out
}

/// Appends the characters of `c` to `out`.
pub fn push_chars(out: &mut Vec<char>, c: &[char])
    ensures
        final(out)@ == old(out)@ + c@,
{
    let mut i: usize = 0;
    while i < c.len()
        invariant
            i <= c@.len(),
            out@ == old(out)@ + c@.subrange(0, i as int),
        decreases c@.len() - i,
    {
        out.push(c[i]);
        i = i + 1;
        assert(out@ =~= old(out)@ + c@.subrange(0, i as int));
    }
    assert(c@.subrange(0, c@.len() as int) =~= c@);
}

/// The code point of a character.
pub fn code_point(c: char) -> (r: u32)
    ensures
        r as int == c as int,
{
    c as u32
}

// ---------------------------------------------------------------------------
// Equality and order
// ---------------------------------------------------------------------------

/// Whether two slices hold the same characters.
pub fn same(a: &[char], b: &[char]) -> (r: bool)
    ensures
        r == (a@ == b@),
{
    if a.len() != b.len() {
        return false;
    }
    let mut i: usize = 0;
    while i < a.len()
        invariant
            a@.len() == b@.len(),
            i <= a@.len(),
            forall|j: int| 0 <= j < i ==> a@[j] == b@[j],
        decreases a@.len() - i,
    {
        if a[i] != b[i] {
            return false;
        }
        i = i + 1;
    }
    assert(a@ =~= b@);
    true
}

/// Whether a slice holds the characters of a string.
pub fn is_text(a: &[char], s: &str) -> (r: bool)
    ensures
        r == (a@ == s@),
{
    let b = chars_of(s);
    same(a, b.as_slice())
}

/// Whether two strings hold the same characters.
pub fn same_text(a: &str, b: &str) -> (r: bool)
    ensures
        r == (a@ == b@),
{
    let x = chars_of(a);
    let y = chars_of(b);
    same(x.as_slice(), y.as_slice())
}

/// The order of texts: by the first character on which they differ, a proper
/// prefix before what it begins.
pub open spec fn text_lt(a: Seq<char>, b: Seq<char>) -> bool
    decreases a.len(),
{
    if b.len() == 0 {
        false
    } else if a.len() == 0 {
        true
    } else if a[0] != b[0] {
        (a[0] as int) < (b[0] as int)
    } else {
        text_lt(a.drop_first(), b.drop_first())
    }
}

/// No text comes before itself.
pub proof fn text_lt_irreflexive(a: Seq<char>)
    ensures
        !text_lt(a, a),
    decreases a.len(),
{
    if a.len() > 0 {
        text_lt_irreflexive(a.drop_first());
    }
}

/// The order of texts is transitive.
pub proof fn text_lt_transitive(a: Seq<char>, b: Seq<char>, c: Seq<char>)
    requires
        text_lt(a, b),
        text_lt(b, c),
    ensures
        text_lt(a, c),
    decreases a.len(),
{
    if a.len() > 0 && b.len() > 0 && c.len() > 0 && a[0] == b[0] && b[0] == c[0] {
        text_lt_transitive(a.drop_first(), b.drop_first(), c.drop_first());
    }
}

/// Of two different texts one comes before the other.
pub proof fn text_lt_total(a: Seq<char>, b: Seq<char>)
    ensures
        a == b || text_lt(a, b) || text_lt(b, a),
    decreases a.len(),
{
    if a.len() == 0 || b.len() == 0 {
        assert(a.len() == 0 && b.len() == 0 ==> a =~= b);
    } else if a[0] == b[0] {
        text_lt_total(a.drop_first(), b.drop_first());
        if a.drop_first() == b.drop_first() {
            assert(a =~= seq![a[0]] + a.drop_first());
            assert(b =~= seq![b[0]] + b.drop_first());
        }
    }
}

/// Whether `a` comes before `b`.
pub fn chars_before(a: &[char], b: &[char]) -> (r: bool)
    ensures
        r == text_lt(a@, b@),
{
    let mut i: usize = 0;
    assert(a@.subrange(0, a@.len() as int) =~= a@);
    assert(b@.subrange(0, b@.len() as int) =~= b@);
    while i < a.len() && i < b.len()
        invariant
            i <= a@.len(),
            i <= b@.len(),
            text_lt(a@, b@) == text_lt(
                a@.subrange(i as int, a@.len() as int),
                b@.subrange(i as int, b@.len() as int),
            ),
        decreases a@.len() - i,
    {
        let ca: char = a[i];
        let cb: char = b[i];
        let x: u32 = code_point(ca);
        let y: u32 = code_point(cb);
        if x != y {
            return x < y;
        }
        assert(a@.subrange(i as int, a@.len() as int).drop_first() =~= a@.subrange(
            i + 1,
            a@.len() as int,
        ));
        assert(b@.subrange(i as int, b@.len() as int).drop_first() =~= b@.subrange(
            i + 1,
            b@.len() as int,
        ));
        i = i + 1;
    }
    i < b.len()
}

/// Whether string `a` comes before string `b`.
pub fn text_before(a: &str, b: &str) -> (r: bool)
    ensures
        r == text_lt(a@, b@),
{
    let x = chars_of(a);
    let y = chars_of(b);
    chars_before(x.as_slice(), y.as_slice())
}

// ---------------------------------------------------------------------------
// White space
// ---------------------------------------------------------------------------

/// The characters with the Unicode property `White_Space`.
pub open spec fn white(c: char) -> bool {
    let n = c as int;
    ||| 0x09 <= n <= 0x0D
    ||| n == 0x20
    ||| n == 0x85
    ||| n == 0xA0
    ||| n == 0x1680
    ||| 0x2000 <= n <= 0x200A
    ||| n == 0x2028
    ||| n == 0x2029
    ||| n == 0x202F
    ||| n == 0x205F
    ||| n == 0x3000
}

/// Whether `c` is white space.
pub fn is_white(c: char) -> (r: bool)
    ensures
        r == white(c),
{
    let n: u32 = c as u32;
    (n >= 0x09 && n <= 0x0D) || n == 0x20 || n == 0x85 || n == 0xA0 || n == 0x1680 || (n >= 0x2000
        && n <= 0x200A) || n == 0x2028 || n == 0x2029 || n == 0x202F || n == 0x205F || n == 0x3000
}

/// `s` without its leading white space.
pub open spec fn trim_start(s: Seq<char>) -> Seq<char>
    decreases s.len(),
{
    if s.len() > 0 && white(s[0]) {
        trim_start(s.drop_first())
    } else {
        s
    }
}

/// `s` without its trailing white space.
pub open spec fn trim_end(s: Seq<char>) -> Seq<char>
    decreases s.len(),
{
    if s.len() > 0 && white(s.last()) {
        trim_end(s.drop_last())
    } else {
        s
    }
}

/// `s` without white space at either end.
pub open spec fn trim(s: Seq<char>) -> Seq<char> {
    trim_end(trim_start(s))
}

/// Drops leading white space.
pub fn trimmed_start<'a>(c: &'a [char]) -> (r: &'a [char])
    ensures
        r@ == trim_start(c@),
{
    let mut i: usize = 0;
    assert(c@.subrange(0, c@.len() as int) =~= c@);
    while i < c.len() && is_white(c[i])
        invariant
            i <= c@.len(),
            trim_start(c@) == trim_start(c@.subrange(i as int, c@.len() as int)),
        decreases c@.len() - i,
    {
        assert(c@.subrange(i as int, c@.len() as int).drop_first() =~= c@.subrange(
            i + 1,
            c@.len() as int,
        ));
        i = i + 1;
    }
    slice_subrange(c, i, c.len())
}

/// Drops trailing white space.
pub fn trimmed_end<'a>(c: &'a [char]) -> (r: &'a [char])
    ensures
        r@ == trim_end(c@),
{
    let mut n: usize = c.len();
    assert(c@.subrange(0, c@.len() as int) =~= c@);
    while n > 0 && is_white(c[n - 1])
        invariant
            n <= c@.len(),
            trim_end(c@) == trim_end(c@.subrange(0, n as int)),
        decreases n,
    {
        assert(c@.subrange(0, n as int).drop_last() =~= c@.subrange(0, n - 1));
        n = n - 1;
    }
    slice_subrange(c, 0, n)
}

/// Drops white space at both ends.
pub fn trimmed<'a>(c: &'a [char]) -> (r: &'a [char])
    ensures
        r@ == trim(c@),
        r@.len() <= c@.len(),
{
    proof {
        trim_len(c@);
    }
    trimmed_end(trimmed_start(c))
}

/// Trimming never makes a text longer.
pub proof fn trim_len(s: Seq<char>)
    ensures
        trim_start(s).len() <= s.len(),
        trim_end(s).len() <= s.len(),
        trim(s).len() <= s.len(),
{
    trim_start_len(s);
    trim_end_len(s);
    trim_end_len(trim_start(s));
}

proof fn trim_start_len(s: Seq<char>)
    ensures
        trim_start(s).len() <= s.len(),
    decreases s.len(),
{
    if s.len() > 0 && white(s[0]) {
        trim_start_len(s.drop_first());
    }
}

proof fn trim_end_len(s: Seq<char>)
    ensures
        trim_end(s).len() <= s.len(),
    decreases s.len(),
{
    if s.len() > 0 && white(s.last()) {
        trim_end_len(s.drop_last());
    }
}

// ---------------------------------------------------------------------------
// Searching
// ---------------------------------------------------------------------------

/// Whether `pat` stands in `s` at position `i`.
pub open spec fn occurs_at(s: Seq<char>, pat: Seq<char>, i: int) -> bool {
    0 <= i && i + pat.len() <= s.len() && s.subrange(i, i + pat.len()) == pat
}

/// Whether `s` begins with `pat`.
pub open spec fn starts_with(s: Seq<char>, pat: Seq<char>) -> bool {
    occurs_at(s, pat, 0)
}

/// Whether `s` ends with `pat`.
pub open spec fn ends_with(s: Seq<char>, pat: Seq<char>) -> bool {
    occurs_at(s, pat, s.len() - pat.len())
}

/// Whether `pat` stands somewhere in `s`.
pub open spec fn contains_text(s: Seq<char>, pat: Seq<char>) -> bool {
    exists|i: int| occurs_at(s, pat, i)
}

/// The first position at or after `i` where `pat` stands in `s`.
pub open spec fn find_from(s: Seq<char>, pat: Seq<char>, i: int) -> Option<int>
    decreases s.len() + 1 - i,
{
    if i < 0 || i + pat.len() > s.len() {
        None
    } else if occurs_at(s, pat, i) {
        Some(i)
    } else {
        find_from(s, pat, i + 1)
    }
}

/// The first position where `pat` stands in `s`.
pub open spec fn find_text(s: Seq<char>, pat: Seq<char>) -> Option<int> {
    find_from(s, pat, 0)
}

/// What `find_from` finds is an occurrence.
pub proof fn find_from_bounds(s: Seq<char>, pat: Seq<char>, i: int)
    requires
        0 <= i,
    ensures
        find_from(s, pat, i) matches Some(p) ==> i <= p && occurs_at(s, pat, p),
    decreases s.len() + 1 - i,
{
    if i + pat.len() <= s.len() && !occurs_at(s, pat, i) {
        find_from_bounds(s, pat, i + 1);
    }
}

/// Whether `pat` stands in `s` at position `i`.
pub fn is_at(s: &[char], pat: &[char], i: usize) -> (r: bool)
    ensures
        r == occurs_at(s@, pat@, i as int),
{
    if pat.len() > s.len() || i > s.len() - pat.len() {
        return false;
    }
    same(slice_subrange(s, i, i + pat.len()), pat)
}

/// Whether `s` begins with `pat`.
pub fn begins(s: &[char], pat: &[char]) -> (r: bool)
    ensures
        r == starts_with(s@, pat@),
{
    is_at(s, pat, 0)
}

/// Whether `s` ends with `pat`.
pub fn ends(s: &[char], pat: &[char]) -> (r: bool)
    ensures
        r == ends_with(s@, pat@),
{
    if pat.len() > s.len() {
        return false;
    }
    is_at(s, pat, s.len() - pat.len())
}

/// Whether `pat` stands somewhere in `s`.
pub fn holds(s: &[char], pat: &[char]) -> (r: bool)
    ensures
        r == contains_text(s@, pat@),
{
    let mut i: usize = 0;
    while i <= s.len()
        invariant
            i <= s@.len() + 1,
            forall|j: int| 0 <= j < i ==> !occurs_at(s@, pat@, j),
        decreases s@.len() + 1 - i,
    {
        if is_at(s, pat, i) {
            return true;
        }
        if i == s.len() {
            return false;
        }
        i = i + 1;
    }
    false
}

/// The first position where `pat` stands in `s`.
pub fn find(s: &[char], pat: &[char]) -> (r: Option<usize>)
    ensures
        match r {
            Some(i) => find_text(s@, pat@) == Some(i as int) && occurs_at(s@, pat@, i as int),
            None => find_text(s@, pat@) is None,
        },
{
    let mut i: usize = 0;
    while pat.len() <= s.len() && i <= s.len() - pat.len()
        invariant
            find_text(s@, pat@) == find_from(s@, pat@, i as int),
        decreases s@.len() + 1 - i,
    {
        if is_at(s, pat, i) {
            return Some(i);
        }
        assert(i < s@.len()) by {
            if pat@.len() == 0 {
                assert(s@.subrange(i as int, i + pat@.len()) =~= pat@);
            }
        }
        i = i + 1;
    }
    None
}

/// The position of the first `c` in `s`, or the length of `s`.
pub open spec fn char_index(s: Seq<char>, c: char) -> int
    decreases s.len(),
{
    if s.len() == 0 || s[0] == c {
        0
    } else {
        1 + char_index(s.drop_first(), c)
    }
}

/// `char_index` gives the length, or the first position of the character.
pub proof fn char_index_first(s: Seq<char>, c: char)
    ensures
        0 <= char_index(s, c) <= s.len(),
        char_index(s, c) < s.len() ==> s[char_index(s, c)] == c,
        forall|j: int| 0 <= j < char_index(s, c) ==> s[j] != c,
    decreases s.len(),
{
    if s.len() > 0 && s[0] != c {
        char_index_first(s.drop_first(), c);
        assert forall|j: int| 0 <= j < char_index(s, c) implies s[j] != c by {
            if j > 0 {
                assert(s.drop_first()[j - 1] == s[j]);
            }
        }
    }
}

/// The position of the first `c` in `s`, or the length of `s`.
pub fn index_of_char(s: &[char], c: char) -> (r: usize)
    ensures
        r == char_index(s@, c),
        r <= s@.len(),
{
    let mut i: usize = 0;
    assert(s@.subrange(0, s@.len() as int) =~= s@);
    while i < s.len() && s[i] != c
        invariant
            i <= s@.len(),
            char_index(s@, c) == i + char_index(s@.subrange(i as int, s@.len() as int), c),
        decreases s@.len() - i,
    {
        assert(s@.subrange(i as int, s@.len() as int).drop_first() =~= s@.subrange(
            i + 1,
            s@.len() as int,
        ));
        i = i + 1;
    }
    i
}

// ---------------------------------------------------------------------------
// Splitting
// ---------------------------------------------------------------------------

/// The pieces of `s` between the separators.  There is always at least one.
pub open spec fn split(s: Seq<char>, sep: char) -> Seq<Seq<char>>
    decreases s.len(),
{
    let i = char_index(s, sep);
    if 0 <= i < s.len() {
        seq![s.subrange(0, i)] + split(s.subrange(i + 1, s.len() as int), sep)
    } else {
        seq![s]
    }
}

/// A text without the separator is its only piece.
pub proof fn split_len(s: Seq<char>, sep: char)
    ensures
        split(s, sep).len() >= 1,
        split(s, sep).len() == 1 ==> split(s, sep)[0] == s,
{
    char_index_first(s, sep);
    let i = char_index(s, sep);
    if i < s.len() {
        char_index_first(s.subrange(i + 1, s.len() as int), sep);
        split_nonempty(s.subrange(i + 1, s.len() as int), sep);
    }
}

/// A text with one separator has two pieces.
pub proof fn split_in_two(s: Seq<char>, sep: char, i: int)
    requires
        0 <= i < s.len(),
        s[i] == sep,
        forall|j: int| 0 <= j < s.len() && j != i ==> s[j] != sep,
    ensures
        split(s, sep) == seq![s.take(i), s.skip(i + 1)],
{
    char_index_first(s, sep);
    let tail = s.subrange(i + 1, s.len() as int);
    assert(s.subrange(0, i) =~= s.take(i));
    assert(tail =~= s.skip(i + 1));
    char_index_first(tail, sep);
    assert(split(tail, sep) =~= seq![tail]);
    assert(split(s, sep) =~= seq![s.take(i), s.skip(i + 1)]);
}

proof fn split_nonempty(s: Seq<char>, sep: char)
    ensures
        split(s, sep).len() >= 1,
{
    char_index_first(s, sep);
}

/// The first part of a text is what stands before the separator.
pub proof fn split_first(s: Seq<char>, sep: char)
    ensures
        split(s, sep).len() > 0,
        split(s, sep)[0] == s.subrange(0, char_index(s, sep)),
{
    split_len(s, sep);
    char_index_first(s, sep);
    assert(s.subrange(0, s.len() as int) =~= s);
}

/// The views of a sequence of slices.
pub open spec fn pieces(v: Seq<&[char]>) -> Seq<Seq<char>> {
    v.map_values(|p: &[char]| p@)
}

/// Splits at every `sep`.
pub fn split_at_char<'a>(s: &'a [char], sep: char) -> (r: Vec<&'a [char]>)
    ensures
        pieces(r@) == split(s@, sep),
        r@.len() >= 1,
        r@.len() == split(s@, sep).len(),
{
    let mut out: Vec<&'a [char]> = Vec::new();
    let mut rest: &'a [char] = s;
    let ghost all = split(s@, sep);
    assert(pieces(out@) + split(rest@, sep) =~= all);
    loop
        invariant_except_break
            pieces(out@) + split(rest@, sep) == all,
        ensures
            pieces(out@) == all,
            out@.len() >= 1,
        decreases rest@.len(),
    {
        let i: usize = index_of_char(rest, sep);
        let ghost before = out@;
        if i >= rest.len() {
            out.push(rest);
            assert(pieces(out@) =~= pieces(before) + seq![rest@]);
            break;
        }
        let ghost old_rest = rest@;
        out.push(slice_subrange(rest, 0, i));
        rest = slice_subrange(rest, i + 1, rest.len());
        assert(pieces(out@) =~= pieces(before) + seq![old_rest.subrange(0, i as int)]);
        assert(pieces(out@) + split(rest@, sep) =~= pieces(before) + split(old_rest, sep));
    }
    out
}

// ---------------------------------------------------------------------------
// Decimal digits
// ---------------------------------------------------------------------------

/// The character for a digit below ten.
pub open spec fn digit_char(d: int) -> char {
    (48 + d) as char
}

/// The decimal digits of `n`, without leading zeros.
pub open spec fn decimal(n: nat) -> Seq<char>
    decreases n,
{
    if n < 10 {
        seq![digit_char(n as int)]
    } else {
        decimal(n / 10).push(digit_char((n % 10) as int))
    }
}

/// Appends the decimal digits of `n`.
pub fn push_decimal(out: &mut Vec<char>, n: u128)
    ensures
        final(out)@ == old(out)@ + decimal(n as nat),
    decreases n,
{
    let d: u8 = (n % 10) as u8;
    let c: char = (48u8 + d) as char;
    if n >= 10 {
        push_decimal(out, n / 10);
    }
    out.push(c);
    assert(out@ =~= old(out)@ + decimal(n as nat));
}

/// The decimal digits of `n`.
pub fn decimal_text(n: u64) -> (r: String)
    ensures
        r@ == decimal(n as nat),
{
    let mut out: Vec<char> = Vec::new();
    push_decimal(&mut out, n as u128);
    assert(out@ =~= decimal(n as nat));
    text_of(out.as_slice())
}

/// The value of a digit character.
pub open spec fn digit_value(c: char) -> int {
    c as int - 48
}

/// Whether `c` is an ASCII digit.
pub open spec fn is_digit(c: char) -> bool {
    48 <= (c as int) <= 57
}

/// Whether every character is an ASCII digit.
pub open spec fn all_digits(s: Seq<char>) -> bool {
    forall|i: int| 0 <= i < s.len() ==> is_digit(#[trigger] s[i])
}

/// The number that a sequence of digits denotes.
pub open spec fn digits_value(s: Seq<char>) -> int
    decreases s.len(),
{
    if s.len() == 0 {
        0
    } else {
        digits_value(s.drop_last()) * 10 + digit_value(s.last())
    }
}

/// Whether `c` is an ASCII digit.
pub fn is_digit_char(c: char) -> (r: bool)
    ensures
        r == is_digit(c),
{
    let n: u32 = c as u32;
    n >= 48 && n <= 57
}

/// What a string of digits with an optional plus sign denotes, where it is no
/// greater than `max`.
pub open spec fn unsigned(s: Seq<char>, max: int) -> Option<int> {
    let t = if s.len() > 0 && s[0] == '+' {
        s.drop_first()
    } else {
        s
    };
    if t.len() > 0 && all_digits(t) && digits_value(t) <= max {
        Some(digits_value(t))
    } else {
        None
    }
}

/// A prefix of a run of digits denotes no more than the whole.
pub proof fn digits_value_grows(s: Seq<char>, n: int)
    requires
        all_digits(s),
        0 <= n <= s.len(),
    ensures
        0 <= digits_value(s.subrange(0, n)) <= digits_value(s),
    decreases s.len(),
{
    if s.len() == 0 {
        assert(s.subrange(0, n) =~= s);
    } else {
        assert forall|i: int| 0 <= i < s.drop_last().len() implies is_digit(
            #[trigger] s.drop_last()[i],
        ) by {
            assert(s.drop_last()[i] == s[i]);
        }
        if n == s.len() {
            assert(s.subrange(0, n) =~= s);
            digits_value_grows(s.drop_last(), 0);
            assert(is_digit(s[s.len() - 1]));
        } else {
            digits_value_grows(s.drop_last(), n);
            assert(s.drop_last().subrange(0, n) =~= s.subrange(0, n));
            assert(is_digit(s[s.len() - 1]));
        }
    }
}

/// An unsigned number lies between zero and the greatest that is allowed.
pub proof fn unsigned_bounds(s: Seq<char>, max: int)
    ensures
        unsigned(s, max) matches Some(v) ==> 0 <= v <= max,
{
    let t = if s.len() > 0 && s[0] == '+' {
        s.drop_first()
    } else {
        s
    };
    if all_digits(t) {
        digits_value_grows(t, 0);
    }
}

/// The value of a run of digits, where it is no greater than `max`.
pub fn read_digits(s: &[char], max: u64) -> (r: Option<u64>)
    ensures
        match r {
            Some(v) => s@.len() > 0 && all_digits(s@) && digits_value(s@) == v && v <= max,
            None => !(s@.len() > 0 && all_digits(s@) && digits_value(s@) <= max),
        },
{
    if s.len() == 0 {
        return None;
    }
    let mut v: u128 = 0;
    let mut i: usize = 0;
    while i < s.len()
        invariant
            i <= s@.len(),
            all_digits(s@.subrange(0, i as int)),
            v == digits_value(s@.subrange(0, i as int)),
            v <= max,
        decreases s@.len() - i,
    {
        let c: char = s[i];
        if !is_digit_char(c) {
            assert(!is_digit(s@[i as int]));
            return None;
        }
        let ghost next = s@.subrange(0, i + 1);
        assert(next.drop_last() =~= s@.subrange(0, i as int));
        v = v * 10 + (c as u32 - 48) as u128;
        assert forall|j: int| 0 <= j < next.len() implies is_digit(#[trigger] next[j]) by {
            if j < i {
                assert(s@.subrange(0, i as int)[j] == next[j]);
            }
        }
        if v > max as u128 {
            proof {
                if all_digits(s@) {
                    digits_value_grows(s@, i + 1);
                }
            }
            return None;
        }
        i = i + 1;
    }
    assert(s@.subrange(0, s@.len() as int) =~= s@);
    Some(v as u64)
}

/// Reads an unsigned number with an optional plus sign.
pub fn read_unsigned(s: &[char], max: u64) -> (r: Option<u64>)
    ensures
        match r {
            Some(v) => unsigned(s@, max as int) == Some(v as int),
            None => unsigned(s@, max as int) is None,
        },
{
    if s.len() > 0 && s[0] == '+' {
        assert(s@.subrange(1, s@.len() as int) =~= s@.drop_first());
        read_digits(slice_subrange(s, 1, s.len()), max)
    } else {
        read_digits(s, max)
    }
}

// ---------------------------------------------------------------------------
// Replacement
// ---------------------------------------------------------------------------

/// `s` with every occurrence of `pat`, from left to right, replaced by `with`.
pub open spec fn replace_each(s: Seq<char>, pat: Seq<char>, with: Seq<char>) -> Seq<char>
    decreases s.len(),
{
    match find_text(s, pat) {
        None => s,
        Some(i) => if pat.len() == 0 || i < 0 || i + pat.len() > s.len() {
            s
        } else {
            s.subrange(0, i) + with + replace_each(
                s.subrange(i + pat.len(), s.len() as int),
                pat,
                with,
            )
        },
    }
}

/// Replaces every occurrence of `pat`, which is not empty.
pub fn replace_text(s: &[char], pat: &[char], with: &[char]) -> (r: Vec<char>)
    requires
        pat@.len() > 0,
    ensures
        r@ == replace_each(s@, pat@, with@),
{
    let n: usize = s.len();
    let mut out: Vec<char> = Vec::new();
    let mut at: usize = 0;
    assert(s@.subrange(0, s@.len() as int) =~= s@);
    assert(out@ + replace_each(s@, pat@, with@) =~= replace_each(s@, pat@, with@));
    loop
        invariant
            n == s@.len(),
            at <= n,
            pat@.len() > 0,
            out@ + replace_each(s@.subrange(at as int, n as int), pat@, with@) == replace_each(
                s@,
                pat@,
                with@,
            ),
        decreases n - at,
    {
        let here = slice_subrange(s, at, n);
        match find(here, pat) {
            None => {
                let ghost before = out@;
                push_chars(&mut out, here);
                assert(out@ =~= before + here@);
                return out;
            },
            Some(i) => {
                let ghost before = out@;
                let ghost tail = replace_each(
                    here@.subrange(i + pat@.len(), here@.len() as int),
                    pat@,
                    with@,
                );
                proof {
                    find_from_bounds(here@, pat@, 0);
                }
                push_chars(&mut out, slice_subrange(here, 0, i));
                push_chars(&mut out, with);
                assert(out@ + tail =~= before + (here@.subrange(0, i as int) + with@ + tail));
                assert(here@.subrange(i + pat@.len(), here@.len() as int) =~= s@.subrange(
                    at + i + pat@.len(),
                    n as int,
                ));
                at = at + i + pat.len();
            },
        }
    }
}

// ---------------------------------------------------------------------------
// Laws
// ---------------------------------------------------------------------------

/// Whether a text is white space and nothing else.
pub open spec fn blank(s: Seq<char>) -> bool {
    forall|i: int| 0 <= i < s.len() ==> white(#[trigger] s[i])
}

/// Whether a text has no white space at either end.
pub open spec fn tight(s: Seq<char>) -> bool {
    s.len() > 0 ==> !white(s[0]) && !white(s.last())
}

proof fn trim_start_of_padded(a: Seq<char>, s: Seq<char>)
    requires
        blank(a),
        s.len() > 0 ==> !white(s[0]),
    ensures
        trim_start(a + s) == s,
    decreases a.len(),
{
    if a.len() == 0 {
        assert(a + s =~= s);
    } else {
        assert(white(a[0]));
        let b = a.drop_first();
        assert forall|i: int| 0 <= i < b.len() implies white(#[trigger] b[i]) by {
            assert(b[i] == a[i + 1]);
        }
        assert((a + s).drop_first() =~= b + s);
        trim_start_of_padded(b, s);
    }
}

proof fn trim_end_of_padded(s: Seq<char>, b: Seq<char>)
    requires
        blank(b),
        s.len() > 0 ==> !white(s.last()),
    ensures
        trim_end(s + b) == s,
    decreases b.len(),
{
    if b.len() == 0 {
        assert(s + b =~= s);
    } else {
        let c = b.drop_last();
        assert(white(b[b.len() - 1]));
        assert forall|i: int| 0 <= i < c.len() implies white(#[trigger] c[i]) by {
            assert(c[i] == b[i]);
        }
        assert((s + b).drop_last() =~= s + c);
        trim_end_of_padded(s, c);
    }
}

/// Trimming takes away the white space at both ends, and nothing else.
pub proof fn trim_of_padded(a: Seq<char>, s: Seq<char>, b: Seq<char>)
    requires
        blank(a),
        blank(b),
        tight(s),
    ensures
        trim(a + s + b) == s,
{
    if s.len() == 0 {
        let w = a + b;
        assert(a + s + b =~= w + Seq::empty());
        assert forall|i: int| 0 <= i < w.len() implies white(#[trigger] w[i]) by {
            if i < a.len() {
                assert(w[i] == a[i]);
            } else {
                assert(w[i] == b[i - a.len()]);
            }
        }
        trim_start_of_padded(w, Seq::empty());
        assert(s =~= Seq::empty());
    } else {
        assert(a + s + b =~= a + (s + b));
        assert((s + b)[0] == s[0]);
        trim_start_of_padded(a, s + b);
        trim_end_of_padded(s, b);
    }
}

/// A text without white space at its ends stays as it is.
pub proof fn trim_of_tight(s: Seq<char>)
    requires
        tight(s),
    ensures
        trim(s) == s,
{
    trim_of_padded(Seq::empty(), s, Seq::empty());
    assert(Seq::<char>::empty() + s + Seq::<char>::empty() =~= s);
}

proof fn trim_start_parts(s: Seq<char>) -> (n: int)
    ensures
        0 <= n <= s.len(),
        trim_start(s) == s.skip(n),
        blank(s.take(n)),
        trim_start(s).len() > 0 ==> !white(trim_start(s)[0]),
    decreases s.len(),
{
    if s.len() > 0 && white(s[0]) {
        let n = trim_start_parts(s.drop_first());
        assert(s.drop_first().skip(n) =~= s.skip(n + 1));
        assert forall|i: int| 0 <= i < n + 1 implies white(#[trigger] s.take(n + 1)[i]) by {
            if i > 0 {
                assert(s.take(n + 1)[i] == s.drop_first().take(n)[i - 1]);
            }
        }
        n + 1
    } else {
        assert(s.skip(0) =~= s);
        0
    }
}

proof fn trim_end_parts(s: Seq<char>) -> (n: int)
    ensures
        0 <= n <= s.len(),
        trim_end(s) == s.take(n),
        blank(s.skip(n)),
        n > 0 ==> !white(s[n - 1]),
    decreases s.len(),
{
    if s.len() > 0 && white(s.last()) {
        let n = trim_end_parts(s.drop_last());
        assert(s.drop_last().take(n) =~= s.take(n));
        assert forall|i: int| 0 <= i < s.skip(n).len() implies white(#[trigger] s.skip(n)[i]) by {
            if i < s.len() - 1 - n {
                assert(s.skip(n)[i] == s.drop_last().skip(n)[i]);
            }
        }
        n
    } else {
        assert(s.take(s.len() as int) =~= s);
        s.len() as int
    }
}

/// What trimming leaves has no white space at either end, and what it takes away
/// is white space: the text is what is left with white space before and behind.
pub proof fn trim_parts(s: Seq<char>) -> (r: (Seq<char>, Seq<char>))
    ensures
        tight(trim(s)),
        blank(r.0),
        blank(r.1),
        s == r.0 + trim(s) + r.1,
{
    let n = trim_start_parts(s);
    let t = trim_start(s);
    let m = trim_end_parts(t);
    assert(s.take(n) + t.take(m) + t.skip(m) =~= s);
    (s.take(n), t.skip(m))
}

/// Trimming a second time changes nothing.
pub proof fn trim_twice(s: Seq<char>)
    ensures
        trim(trim(s)) == trim(s),
{
    let _ = trim_parts(s);
    trim_of_tight(trim(s));
}

/// A text without the separator is its only piece, and a separator divides a text
/// into what stands before it and the pieces of what stands behind it.
pub proof fn split_at_first(a: Seq<char>, sep: char, b: Seq<char>)
    requires
        !a.contains(sep),
    ensures
        split(a, sep) == seq![a],
        split(a + seq![sep] + b, sep) == seq![a] + split(b, sep),
{
    char_index_first(a, sep);
    assert(char_index(a, sep) == a.len()) by {
        if char_index(a, sep) < a.len() {
            assert(a.contains(a[char_index(a, sep)]));
        }
    }
    let s = a + seq![sep] + b;
    char_index_first(s, sep);
    let i = char_index(s, sep);
    assert(s[a.len() as int] == sep);
    if i < a.len() {
        assert(s[i] == a[i]);
        assert(a.contains(a[i]));
    }
    assert(i == a.len());
    assert(s.subrange(0, i) =~= a);
    assert(s.subrange(i + 1, s.len() as int) =~= b);
}

/// What is found in a text stands there, and nowhere before; where nothing is
/// found, it stands nowhere.
pub proof fn first_occurrence(s: Seq<char>, pat: Seq<char>)
    ensures
        match find_text(s, pat) {
            Some(p) => s == s.take(p) + pat + s.skip(p + pat.len()) && 0 <= p && forall|j: int|
                0 <= j < p ==> !#[trigger] occurs_at(s, pat, j),
            None => forall|j: int| !#[trigger] occurs_at(s, pat, j),
        },
{
    find_from_first(s, pat, 0);
    if let Some(p) = find_text(s, pat) {
        assert(s =~= s.take(p) + s.subrange(p, p + pat.len()) + s.skip(p + pat.len()));
    }
}

proof fn find_from_first(s: Seq<char>, pat: Seq<char>, i: int)
    requires
        0 <= i,
    ensures
        match find_from(s, pat, i) {
            Some(p) => i <= p && occurs_at(s, pat, p) && forall|j: int|
                i <= j < p ==> !#[trigger] occurs_at(s, pat, j),
            None => forall|j: int| i <= j ==> !#[trigger] occurs_at(s, pat, j),
        },
    decreases s.len() + 1 - i,
{
    if i + pat.len() <= s.len() && !occurs_at(s, pat, i) {
        find_from_first(s, pat, i + 1);
    }
}

/// A text holds another where it is made of something, the other text and
/// something more; it begins with the other where nothing stands before, and ends
/// with it where nothing stands behind.
pub proof fn texts_within_texts(a: Seq<char>, t: Seq<char>, b: Seq<char>)
    ensures
        contains_text(a + t + b, t),
        starts_with(t + b, t),
        ends_with(a + t, t),
{
    assert((a + t + b).subrange(a.len() as int, (a.len() + t.len()) as int) =~= t);
    assert(occurs_at(a + t + b, t, a.len() as int));
    assert((t + b).subrange(0, t.len() as int) =~= t);
    assert((a + t).subrange(a.len() as int, (a.len() + t.len()) as int) =~= t);
}

/// A text that is held stands between something and something more.
pub proof fn what_is_held(s: Seq<char>, t: Seq<char>)
    ensures
        contains_text(s, t) ==> exists|a: Seq<char>, b: Seq<char>| s == #[trigger] (a + t + b),
        starts_with(s, t) ==> s == t + s.skip(t.len() as int),
        ends_with(s, t) ==> s == s.take(s.len() - t.len()) + t,
{
    if contains_text(s, t) {
        let i = choose|i: int| occurs_at(s, t, i);
        let a = s.take(i);
        let b = s.skip(i + t.len());
        assert(s =~= a + s.subrange(i, i + t.len()) + b);
        assert(s == a + t + b);
    }
    if starts_with(s, t) {
        assert(s =~= s.subrange(0, t.len() as int) + s.skip(t.len() as int));
    }
    if ends_with(s, t) {
        let k = s.len() - t.len();
        assert(s =~= s.take(k) + s.subrange(k, k + t.len()));
    }
}

/// A number is read back from its decimal digits.
pub proof fn decimal_is_read_back(n: nat)
    ensures
        decimal(n).len() > 0,
        all_digits(decimal(n)),
        digits_value(decimal(n)) == n,
        n > 0 ==> decimal(n)[0] != '0',
    decreases n,
{
    if n >= 10 {
        decimal_is_read_back(n / 10);
        let init = decimal(n / 10);
        let d = digit_char((n % 10) as int);
        assert(decimal(n) == init.push(d));
        assert(decimal(n).drop_last() =~= init);
        assert forall|i: int| 0 <= i < decimal(n).len() implies is_digit(
            #[trigger] decimal(n)[i],
        ) by {
            if i < init.len() {
                assert(decimal(n)[i] == init[i]);
            }
        }
        assert(decimal(n)[0] == init[0]);
    } else {
        assert(decimal(n).drop_last() =~= Seq::empty());
        assert(digits_value(Seq::empty()) == 0);
    }
}

} // verus!
