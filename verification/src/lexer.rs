//! Scanning of expressions: nesting, string literals and escapes.

use vstd::prelude::*;
use vstd::slice::slice_subrange;
use crate::text::{is_at, occurs_at};

verus! {

/// Where a backslash takes away the meaning of the character after it.
#[derive(Clone, Copy, PartialEq, Eq, Structural)]
pub enum Escapes {
    Never,
    InString,
    OutsideString,
}

/// What a scan pays attention to.
#[derive(Clone, Copy, PartialEq, Eq, Structural)]
pub struct Rules {
    /// Whether square and curly brackets nest like round ones.
    pub all_brackets: bool,
    pub escapes: Escapes,
}

/// The state of a scan: how deep it stands in brackets, in which kind of
/// quotes, and whether the next character is escaped.
pub ghost struct Lex {
    pub depth: int,
    pub quote: Option<char>,
    pub escaped: bool,
}

pub open spec fn opens(rules: Rules, c: char) -> bool {
    c == '(' || rules.all_brackets && (c == '[' || c == '{')
}

pub open spec fn closes(rules: Rules, c: char) -> bool {
    c == ')' || rules.all_brackets && (c == ']' || c == '}')
}

/// The state after one more character.
pub open spec fn lex_step(rules: Rules, st: Lex, c: char) -> Lex {
    if st.escaped {
        Lex { escaped: false, ..st }
    } else if st.quote is Some {
        if c == '\\' && rules.escapes is InString {
            Lex { escaped: true, ..st }
        } else if st.quote == Some(c) {
            Lex { quote: None, ..st }
        } else {
            st
        }
    } else if c == '"' || c == '\'' {
        Lex { quote: Some(c), ..st }
    } else if c == '\\' && rules.escapes is OutsideString {
        Lex { escaped: true, ..st }
    } else if opens(rules, c) {
        Lex { depth: st.depth + 1, ..st }
    } else if closes(rules, c) {
        Lex { depth: st.depth - 1, ..st }
    } else {
        st
    }
}

/// The state before the character at position `i`.
pub open spec fn lex_at(rules: Rules, s: Seq<char>, i: int) -> Lex
    decreases i,
{
    if i <= 0 {
        Lex { depth: 0, quote: None, escaped: false }
    } else {
        lex_step(rules, lex_at(rules, s, i - 1), s[i - 1])
    }
}

/// Whether a character at this point has its plain meaning.
pub open spec fn plain(st: Lex) -> bool {
    st.quote is None && !st.escaped
}

/// Whether the scan stands outside all brackets and strings.
pub open spec fn top_level(st: Lex) -> bool {
    plain(st) && st.depth == 0
}

/// The state of a running scan.
#[derive(Clone, Copy)]
pub struct Scan {
    pub depth: i128,
    pub quote: Option<char>,
    pub escaped: bool,
}

impl Scan {
    pub open spec fn view(&self) -> Lex {
        Lex { depth: self.depth as int, quote: self.quote, escaped: self.escaped }
    }

    /// Whether the depth is within what `n` characters can lead to.
    pub open spec fn within(&self, n: int) -> bool {
        -n <= self.depth <= n
    }

    pub fn start() -> (r: Scan)
        ensures
            r@ == (Lex { depth: 0, quote: None, escaped: false }),
            r.within(0),
    {
        Scan { depth: 0, quote: None, escaped: false }
    }

    pub fn is_plain(&self) -> (r: bool)
        ensures
            r == plain(self@),
    {
        self.quote.is_none() && !self.escaped
    }

    pub fn is_top(&self) -> (r: bool)
        ensures
            r == top_level(self@),
    {
        self.quote.is_none() && !self.escaped && self.depth == 0
    }

    /// The state after one more character; `n` characters have gone before.
    pub fn next(&self, rules: Rules, c: char, n: usize) -> (r: Scan)
        requires
            self.within(n as int),
        ensures
            r@ == lex_step(rules, self@, c),
            r.within(n + 1),
    {
        let here: Scan = *self;
        if self.escaped {
            return Scan { escaped: false, ..here };
        }
        match self.quote {
            Some(q) => {
                if c == '\\' && rules.escapes == Escapes::InString {
                    Scan { escaped: true, ..here }
                } else if c == q {
                    Scan { quote: None, ..here }
                } else {
                    here
                }
            },
            None => {
                if c == '"' || c == '\'' {
                    Scan { quote: Some(c), ..here }
                } else if c == '\\' && rules.escapes == Escapes::OutsideString {
                    Scan { escaped: true, ..here }
                } else if c == '(' || rules.all_brackets && (c == '[' || c == '{') {
                    Scan { depth: self.depth + 1, ..here }
                } else if c == ')' || rules.all_brackets && (c == ']' || c == '}') {
                    Scan { depth: self.depth - 1, ..here }
                } else {
                    here
                }
            },
        }
    }
}

// ---------------------------------------------------------------------------
// Operators
// ---------------------------------------------------------------------------

/// Round brackets, no escapes.
pub open spec fn operator_rules() -> Rules {
    Rules { all_brackets: false, escapes: Escapes::Never }
}

/// Whether the one-character operator `op` at `i` is really the beginning of a
/// longer one.
pub open spec fn longer(s: Seq<char>, op: Seq<char>, i: int) -> bool {
    op.len() == 1 && (op[0] == '>' || op[0] == '<' || op[0] == '!') && i + 1 < s.len() && s[i + 1]
        == '='
}

/// Whether the operator `op` stands at `i`, outside brackets and strings.
pub open spec fn operator_at(s: Seq<char>, op: Seq<char>, i: int) -> bool {
    top_level(lex_at(operator_rules(), s, i)) && occurs_at(s, op, i) && !longer(s, op, i)
}

/// The first position from `i` on where the operator `op` stands.
pub open spec fn operator_from(s: Seq<char>, op: Seq<char>, i: int) -> Option<int>
    decreases s.len() - i,
{
    if i < 0 || i >= s.len() {
        None
    } else if operator_at(s, op, i) {
        Some(i)
    } else {
        operator_from(s, op, i + 1)
    }
}

/// The first position where the operator `op` stands outside brackets and
/// strings.
pub open spec fn find_operator(s: Seq<char>, op: Seq<char>) -> Option<int> {
    operator_from(s, op, 0)
}

/// What `find_operator` finds lies within the text.
pub proof fn operator_bounds(s: Seq<char>, op: Seq<char>, i: int)
    requires
        0 <= i,
    ensures
        operator_from(s, op, i) matches Some(p) ==> i <= p && p + op.len() <= s.len(),
    decreases s.len() - i,
{
    if i < s.len() && !operator_at(s, op, i) {
        operator_bounds(s, op, i + 1);
    }
}

/// Finds the first top-level occurrence of an operator, which begins with
/// neither a bracket nor a quote.
pub fn find_top_level_operator(s: &[char], op: &[char]) -> (r: Option<usize>)
    ensures
        match r {
            Some(i) => find_operator(s@, op@) == Some(i as int) && i + op@.len() <= s@.len(),
            None => find_operator(s@, op@) is None,
        },
{
    let rules = Rules { all_brackets: false, escapes: Escapes::Never };
    let mut st = Scan::start();
    let mut i: usize = 0;
    while i < s.len()
        invariant
            i <= s@.len(),
            rules == operator_rules(),
            st@ == lex_at(rules, s@, i as int),
            st.within(i as int),
            find_operator(s@, op@) == operator_from(s@, op@, i as int),
        decreases s@.len() - i,
    {
        if st.is_top() && is_at(s, op, i) {
            let partial: bool = op.len() == 1 && (op[0] == '>' || op[0] == '<' || op[0] == '!') && i
                + 1 < s.len() && s[i + 1] == '=';
            if !partial {
                return Some(i);
            }
        }
        st = st.next(rules, s[i], i);
        i = i + 1;
    }
    None
}

// ---------------------------------------------------------------------------
// The pipe
// ---------------------------------------------------------------------------

/// Round brackets, and a backslash outside strings escapes.
pub open spec fn pipe_rules() -> Rules {
    Rules { all_brackets: false, escapes: Escapes::OutsideString }
}

/// Whether a single `|` stands at `i`, outside brackets and strings and not
/// escaped.
pub open spec fn pipe_at(s: Seq<char>, i: int) -> bool {
    &&& top_level(lex_at(pipe_rules(), s, i))
    &&& s[i] == '|'
    &&& !(i + 1 < s.len() && s[i + 1] == '|')
    &&& !(i > 0 && s[i - 1] == '|')
}

pub open spec fn pipe_from(s: Seq<char>, i: int) -> Option<int>
    decreases s.len() - i,
{
    if i < 0 || i >= s.len() {
        None
    } else if pipe_at(s, i) {
        Some(i)
    } else {
        pipe_from(s, i + 1)
    }
}

/// The first pipe of an expression.
pub open spec fn find_pipe(s: Seq<char>) -> Option<int> {
    pipe_from(s, 0)
}

pub proof fn pipe_bounds(s: Seq<char>, i: int)
    requires
        0 <= i,
    ensures
        pipe_from(s, i) matches Some(p) ==> i <= p < s.len(),
    decreases s.len() - i,
{
    if i < s.len() && !pipe_at(s, i) {
        pipe_bounds(s, i + 1);
    }
}

/// Finds the first pipe.
pub fn find_top_level_pipe(s: &[char]) -> (r: Option<usize>)
    ensures
        match r {
            Some(i) => find_pipe(s@) == Some(i as int) && i < s@.len(),
            None => find_pipe(s@) is None,
        },
{
    let rules = Rules { all_brackets: false, escapes: Escapes::OutsideString };
    let mut st = Scan::start();
    let mut i: usize = 0;
    while i < s.len()
        invariant
            i <= s@.len(),
            rules == pipe_rules(),
            st@ == lex_at(rules, s@, i as int),
            st.within(i as int),
            find_pipe(s@) == pipe_from(s@, i as int),
        decreases s@.len() - i,
    {
        if st.is_top() && s[i] == '|' {
            let doubled: bool = (i + 1 < s.len() && s[i + 1] == '|') || (i > 0 && s[i - 1] == '|');
            if !doubled {
                return Some(i);
            }
        }
        st = st.next(rules, s[i], i);
        i = i + 1;
    }
    None
}

// ---------------------------------------------------------------------------
// Brackets
// ---------------------------------------------------------------------------

/// Whether the bracket that `s` begins with is closed at `i`.
pub open spec fn closed_at(rules: Rules, s: Seq<char>, i: int) -> bool {
    let st = lex_at(rules, s, i);
    plain(st) && s[i] == ')' && st.depth == 1
}

pub open spec fn closed_from(rules: Rules, s: Seq<char>, i: int) -> Option<int>
    decreases s.len() - i,
{
    if i < 0 || i >= s.len() {
        None
    } else if closed_at(rules, s, i) {
        Some(i)
    } else {
        closed_from(rules, s, i + 1)
    }
}

/// Round brackets, and a backslash inside a string escapes.
pub open spec fn argument_rules() -> Rules {
    Rules { all_brackets: false, escapes: Escapes::InString }
}

/// What stands between the bracket that `s` begins with and its partner.
pub open spec fn balanced(s: Seq<char>) -> Option<Seq<char>> {
    if s.len() == 0 || s[0] != '(' {
        None
    } else {
        match closed_from(argument_rules(), s, 1) {
            Some(i) => Some(s.subrange(1, i)),
            None => None,
        }
    }
}

/// Finds where the bracket that `s` begins with is closed.
fn find_close(rules: Rules, s: &[char]) -> (r: Option<usize>)
    requires
        s@.len() > 0,
        s@[0] == '(',
    ensures
        match r {
            Some(i) => closed_from(rules, s@, 1) == Some(i as int) && 1 <= i < s@.len(),
            None => closed_from(rules, s@, 1) is None,
        },
{
    let mut st = Scan::start().next(rules, s[0], 0);
    let mut i: usize = 1;
    assert(lex_at(rules, s@, 1) == lex_step(rules, lex_at(rules, s@, 0), s@[0]));
    while i < s.len()
        invariant
            1 <= i <= s@.len(),
            st@ == lex_at(rules, s@, i as int),
            st.within(i as int),
            closed_from(rules, s@, 1) == closed_from(rules, s@, i as int),
        decreases s@.len() - i,
    {
        if st.is_plain() && s[i] == ')' && st.depth == 1 {
            return Some(i);
        }
        st = st.next(rules, s[i], i);
        i = i + 1;
    }
    None
}

/// The content of the brackets that `s` begins with.
pub fn find_balanced_parens<'a>(s: &'a [char]) -> (r: Option<&'a [char]>)
    ensures
        match r {
            Some(t) => balanced(s@) == Some(t@) && t@.len() + 1 < s@.len(),
            None => balanced(s@) is None,
        },
{
    if s.len() == 0 || s[0] != '(' {
        return None;
    }
    match find_close(Rules { all_brackets: false, escapes: Escapes::InString }, s) {
        Some(i) => Some(slice_subrange(s, 1, i)),
        None => None,
    }
}

/// The content of `s` where one pair of brackets encloses all of it.
pub open spec fn unwrapped(s: Seq<char>) -> Option<Seq<char>> {
    if s.len() == 0 || s[0] != '(' || s.last() != ')' {
        None
    } else if closed_from(operator_rules(), s, 1) == Some(s.len() - 1) {
        Some(s.subrange(1, s.len() - 1))
    } else {
        None
    }
}

/// Strips a pair of brackets that encloses the whole expression.
pub fn strip_outer_parens<'a>(s: &'a [char]) -> (r: Option<&'a [char]>)
    ensures
        match r {
            Some(t) => unwrapped(s@) == Some(t@),
            None => unwrapped(s@) is None,
        },
{
    if s.len() == 0 || s[0] != '(' || s[s.len() - 1] != ')' {
        return None;
    }
    match find_close(Rules { all_brackets: false, escapes: Escapes::Never }, s) {
        Some(i) => if i == s.len() - 1 {
            Some(slice_subrange(s, 1, i))
        } else {
            None
        },
        None => None,
    }
}

// ---------------------------------------------------------------------------
// Laws
// ---------------------------------------------------------------------------

/// The state of a scan before the first character.
pub open spec fn fresh() -> Lex {
    Lex { depth: 0, quote: None, escaped: false }
}

/// Whether every bracket and every string that a text opens is closed in it.
pub open spec fn complete(rules: Rules, s: Seq<char>) -> bool {
    lex_at(rules, s, s.len() as int) == fresh()
}

/// Whether no bracket is closed that the text has not opened.
pub open spec fn never_below(rules: Rules, s: Seq<char>) -> bool {
    forall|i: int| 0 <= i <= s.len() ==> (#[trigger] lex_at(rules, s, i)).depth >= 0
}

/// Whether a character means nothing to a scan: no bracket, no quote, no escape.
pub open spec fn inert(rules: Rules, c: char) -> bool {
    &&& c != '"' && c != '\'' && c != '\\'
    &&& !opens(rules, c) && !closes(rules, c)
}

/// Whether no character of a text means anything to a scan.
pub open spec fn all_inert(rules: Rules, s: Seq<char>) -> bool {
    forall|i: int| 0 <= i < s.len() ==> inert(rules, #[trigger] s[i])
}

/// What stands behind a position does not count for the scan up to it.
pub proof fn scan_of_start(rules: Rules, a: Seq<char>, b: Seq<char>, i: int)
    requires
        i <= a.len(),
    ensures
        lex_at(rules, a + b, i) == lex_at(rules, a, i),
    decreases i,
{
    if i > 0 {
        scan_of_start(rules, a, b, i - 1);
        assert((a + b)[i - 1] == a[i - 1]);
    }
}

/// Behind a text in which everything is closed, a scan starts afresh.
pub proof fn scan_of_end(rules: Rules, a: Seq<char>, b: Seq<char>, i: int)
    requires
        complete(rules, a),
        0 <= i <= b.len(),
    ensures
        lex_at(rules, a + b, a.len() + i) == lex_at(rules, b, i),
    decreases i,
{
    if i == 0 {
        scan_of_start(rules, a, b, a.len() as int);
    } else {
        scan_of_end(rules, a, b, i - 1);
        assert((a + b)[a.len() + i - 1] == b[i - 1]);
    }
}

/// Texts in which everything is closed can follow one another.
pub proof fn complete_in_parts(rules: Rules, a: Seq<char>, b: Seq<char>)
    requires
        complete(rules, a),
    ensures
        complete(rules, a + b) == complete(rules, b),
{
    scan_of_end(rules, a, b, b.len() as int);
}

/// A text whose characters mean nothing leaves the scan as it was.
pub proof fn scan_of_inert(rules: Rules, s: Seq<char>, i: int)
    requires
        all_inert(rules, s),
        0 <= i <= s.len(),
    ensures
        lex_at(rules, s, i) == fresh(),
    decreases i,
{
    if i > 0 {
        scan_of_inert(rules, s, i - 1);
        assert(inert(rules, s[i - 1]));
    }
}

/// A string is closed by the quote that opened it, and nothing in it, neither
/// brackets nor operators, has its plain meaning.
pub proof fn strings_are_closed(rules: Rules, q: char, t: Seq<char>)
    requires
        q == '"' || q == '\'',
        !t.contains(q),
        !t.contains('\\'),
    ensures
        complete(rules, seq![q] + t + seq![q]),
        forall|i: int|
            0 < i <= t.len() + 1 ==> !plain(
                #[trigger] lex_at(rules, seq![q] + t + seq![q], i),
            ),
{
    let s = seq![q] + t + seq![q];
    assert forall|i: int| 0 < i <= t.len() + 1 implies #[trigger] lex_at(rules, s, i) == (Lex {
        quote: Some(q),
        ..fresh()
    }) by {
        in_string(rules, q, t, i);
    }
    let n = t.len() as int + 1;
    assert(lex_at(rules, s, n) == (Lex { quote: Some(q), ..fresh() }));
    assert(s[n] == q);
    assert(lex_at(rules, s, n + 1) == lex_step(rules, lex_at(rules, s, n), s[n]));
}

proof fn in_string(rules: Rules, q: char, t: Seq<char>, i: int)
    requires
        q == '"' || q == '\'',
        !t.contains(q),
        !t.contains('\\'),
        0 < i <= t.len() + 1,
    ensures
        lex_at(rules, seq![q] + t + seq![q], i) == (Lex { quote: Some(q), ..fresh() }),
    decreases i,
{
    let s = seq![q] + t + seq![q];
    if i == 1 {
        assert(lex_at(rules, s, 0) == fresh());
        assert(s[0] == q);
    } else {
        in_string(rules, q, t, i - 1);
        assert(s[i - 1] == t[i - 2]);
        assert(t.contains(t[i - 2]));
    }
}

/// Between a pair of brackets a scan is one level further down, and behind the
/// pair it is where it was before.
pub proof fn brackets_enclose(rules: Rules, s: Seq<char>, i: int)
    requires
        0 <= i <= s.len(),
    ensures
        lex_at(rules, seq!['('] + s + seq![')'], i + 1) == (Lex {
            depth: lex_at(rules, s, i).depth + 1,
            ..lex_at(rules, s, i)
        }),
        complete(rules, s) ==> complete(rules, seq!['('] + s + seq![')']),
    decreases i,
{
    let t = seq!['('] + s + seq![')'];
    if i == 0 {
        assert(lex_at(rules, t, 0) == fresh());
        assert(t[0] == '(');
        assert(lex_at(rules, t, 1) == lex_step(rules, lex_at(rules, t, 0), t[0]));
    } else {
        brackets_enclose(rules, s, i - 1);
        assert(t[i] == s[i - 1]);
        assert(lex_at(rules, t, i + 1) == lex_step(rules, lex_at(rules, t, i), t[i]));
    }
    if complete(rules, s) {
        let n = s.len() as int;
        if i < n {
            brackets_enclose_all(rules, s, i);
        }
        assert(lex_at(rules, t, n + 1) == (Lex { depth: 1, ..fresh() }));
        assert(t[n + 1] == ')');
        assert(lex_at(rules, t, n + 2) == lex_step(rules, lex_at(rules, t, n + 1), t[n + 1]));
    }
}

proof fn brackets_enclose_all(rules: Rules, s: Seq<char>, i: int)
    requires
        0 <= i <= s.len(),
        lex_at(rules, seq!['('] + s + seq![')'], i + 1) == (Lex {
            depth: lex_at(rules, s, i).depth + 1,
            ..lex_at(rules, s, i)
        }),
    ensures
        lex_at(rules, seq!['('] + s + seq![')'], s.len() as int + 1) == (Lex {
            depth: lex_at(rules, s, s.len() as int).depth + 1,
            ..lex_at(rules, s, s.len() as int)
        }),
    decreases s.len() - i,
{
    let t = seq!['('] + s + seq![')'];
    if i < s.len() {
        assert(t[i + 1] == s[i]);
        assert(lex_at(rules, t, i + 2) == lex_step(rules, lex_at(rules, t, i + 1), t[i + 1]));
        assert(lex_at(rules, s, i + 1) == lex_step(rules, lex_at(rules, s, i), s[i]));
        brackets_enclose_all(rules, s, i + 1);
    }
}

/// Whether an operator stands nowhere in a text outside brackets and strings.
pub open spec fn lacks_operator(s: Seq<char>, op: Seq<char>) -> bool {
    forall|i: int| 0 <= i < s.len() ==> !#[trigger] operator_at(s, op, i)
}

/// Whether an operator stands at `p` outside brackets and strings, and nowhere
/// before.
pub open spec fn stands_first(s: Seq<char>, op: Seq<char>, p: int) -> bool {
    &&& 0 <= p < s.len()
    &&& operator_at(s, op, p)
    &&& forall|j: int| 0 <= j < p ==> !#[trigger] operator_at(s, op, j)
}

/// The operator that is found is the first one outside brackets and strings; where
/// none is found, none stands there.
pub proof fn first_operator(s: Seq<char>, op: Seq<char>)
    ensures
        match find_operator(s, op) {
            Some(p) => stands_first(s, op, p),
            None => lacks_operator(s, op),
        },
{
    operator_from_first(s, op, 0);
}

proof fn operator_from_first(s: Seq<char>, op: Seq<char>, i: int)
    requires
        0 <= i,
    ensures
        match operator_from(s, op, i) {
            Some(p) => i <= p < s.len() && operator_at(s, op, p) && forall|j: int|
                i <= j < p ==> !#[trigger] operator_at(s, op, j),
            None => forall|j: int| i <= j < s.len() ==> !#[trigger] operator_at(s, op, j),
        },
    decreases s.len() - i,
{
    if i < s.len() && !operator_at(s, op, i) {
        operator_from_first(s, op, i + 1);
    }
}

/// An operator between spaces is found behind a text in which everything is closed
/// and which does not hold it.
pub proof fn operator_between(a: Seq<char>, op: Seq<char>, b: Seq<char>)
    requires
        complete(operator_rules(), a),
        lacks_operator(a, op),
        op.len() > 0,
        !op.contains(' '),
        !longer(op + seq![' '] + b, op, 0),
    ensures
        find_operator(a + seq![' '] + op + seq![' '] + b, op) == Some(a.len() as int + 1),
{
    let rules = operator_rules();
    let s = a + seq![' '] + op + seq![' '] + b;
    let p = a.len() as int + 1;
    let front = a + seq![' '];
    let tail = op + seq![' '] + b;
    assert(s =~= front + tail);
    assert(all_inert(rules, seq![' ']));
    scan_of_inert(rules, seq![' '], 1);
    complete_in_parts(rules, a, seq![' ']);
    scan_of_end(rules, front, tail, 0);
    assert(s.subrange(p, p + op.len()) =~= op);
    if longer(s, op, p) {
        assert(s[p + 1] == tail[1]);
    }
    assert(operator_at(s, op, p));
    assert forall|j: int| 0 <= j < p implies !#[trigger] operator_at(s, op, j) by {
        if operator_at(s, op, j) {
            let w = s.subrange(j, j + op.len());
            if j + op.len() > a.len() {
                assert(w[a.len() - j] == ' ');
                assert(op.contains(op[a.len() - j]));
            } else {
                assert(s =~= a + (seq![' '] + op + seq![' '] + b));
                scan_of_start(rules, a, seq![' '] + op + seq![' '] + b, j);
                assert(a.subrange(j, j + op.len()) =~= w);
                if longer(a, op, j) {
                    assert(s[j + 1] == a[j + 1]);
                }
                assert(operator_at(a, op, j));
            }
        }
    }
    first_operator(s, op);
}

/// An operator stands in two texts with a space between them only where it stands
/// in one of them.
pub proof fn operator_in_parts(a: Seq<char>, b: Seq<char>, op: Seq<char>)
    requires
        complete(operator_rules(), a),
        lacks_operator(a, op),
        lacks_operator(b, op),
        op.len() > 0,
        !op.contains(' '),
    ensures
        lacks_operator(a + seq![' '] + b, op),
{
    let rules = operator_rules();
    let s = a + seq![' '] + b;
    let front = a + seq![' '];
    assert(s =~= front + b);
    assert(all_inert(rules, seq![' ']));
    scan_of_inert(rules, seq![' '], 1);
    complete_in_parts(rules, a, seq![' ']);
    assert forall|j: int| 0 <= j < s.len() implies !#[trigger] operator_at(s, op, j) by {
        if operator_at(s, op, j) {
            let w = s.subrange(j, j + op.len());
            if j <= a.len() && j + op.len() > a.len() {
                assert(w[a.len() - j] == ' ');
                assert(op.contains(op[a.len() - j]));
            } else if j < a.len() {
                assert(s =~= a + (seq![' '] + b));
                scan_of_start(rules, a, seq![' '] + b, j);
                assert(a.subrange(j, j + op.len()) =~= w);
                if longer(a, op, j) {
                    assert(s[j + 1] == a[j + 1]);
                }
                assert(operator_at(a, op, j));
            } else {
                let k = j - front.len();
                scan_of_end(rules, front, b, k);
                assert(b.subrange(k, k + op.len()) =~= w);
                if longer(b, op, k) {
                    assert(s[j + 1] == b[k + 1]);
                }
                assert(operator_at(b, op, k));
            }
        }
    }
}

/// An operator in brackets or in a string does not stand outside of them.
pub proof fn enclosed_operator_is_not_found(s: Seq<char>, op: Seq<char>)
    requires
        never_below(operator_rules(), s),
        op.len() > 0,
        op[0] != '(' && op[0] != ')',
    ensures
        lacks_operator(seq!['('] + s + seq![')'], op),
{
    let t = seq!['('] + s + seq![')'];
    assert forall|j: int| 0 <= j < t.len() implies !#[trigger] operator_at(t, op, j) by {
        if operator_at(t, op, j) {
            assert(t.subrange(j, j + op.len())[0] == t[j]);
            assert(0 < j <= s.len());
            brackets_enclose(operator_rules(), s, j - 1);
            assert(lex_at(operator_rules(), s, j - 1).depth >= 0);
        }
    }
}

/// A text that does not hold the first character of an operator does not hold the
/// operator.
pub proof fn no_operator_without_its_sign(s: Seq<char>, op: Seq<char>)
    requires
        op.len() > 0,
        !s.contains(op[0]),
    ensures
        lacks_operator(s, op),
        find_operator(s, op) is None,
{
    assert forall|j: int| 0 <= j < s.len() implies !#[trigger] operator_at(s, op, j) by {
        if operator_at(s, op, j) {
            assert(s.subrange(j, j + op.len())[0] == s[j]);
            assert(s.contains(s[j]));
        }
    }
    first_operator(s, op);
}

/// The pipe that is found stands alone outside brackets and strings, and none
/// stands before it; where none is found, none stands there.
pub proof fn first_pipe(s: Seq<char>)
    ensures
        match find_pipe(s) {
            Some(p) => 0 <= p < s.len() && pipe_at(s, p) && forall|j: int|
                0 <= j < p ==> !#[trigger] pipe_at(s, j),
            None => forall|j: int| 0 <= j < s.len() ==> !#[trigger] pipe_at(s, j),
        },
        !s.contains('|') ==> find_pipe(s) is None,
{
    pipe_from_first(s, 0);
    if let Some(p) = find_pipe(s) {
        assert(s.contains(s[p]));
    }
}

proof fn pipe_from_first(s: Seq<char>, i: int)
    requires
        0 <= i,
    ensures
        match pipe_from(s, i) {
            Some(p) => i <= p < s.len() && pipe_at(s, p) && forall|j: int|
                i <= j < p ==> !#[trigger] pipe_at(s, j),
            None => forall|j: int| i <= j < s.len() ==> !#[trigger] pipe_at(s, j),
        },
    decreases s.len() - i,
{
    if i < s.len() && !pipe_at(s, i) {
        pipe_from_first(s, i + 1);
    }
}

/// A pipe between spaces is found behind a text in which everything is closed and
/// which holds no pipe.
pub proof fn pipe_between(a: Seq<char>, b: Seq<char>)
    requires
        complete(pipe_rules(), a),
        find_pipe(a) is None,
    ensures
        find_pipe(a + seq![' ', '|', ' '] + b) == Some(a.len() as int + 1),
{
    let rules = pipe_rules();
    let s = a + seq![' ', '|', ' '] + b;
    let p = a.len() as int + 1;
    let front = a + seq![' '];
    let tail = seq!['|', ' '] + b;
    assert(s =~= front + tail);
    assert(all_inert(rules, seq![' ']));
    scan_of_inert(rules, seq![' '], 1);
    complete_in_parts(rules, a, seq![' ']);
    scan_of_end(rules, front, tail, 0);
    assert(s[p - 1] == ' ' && s[p] == '|' && s[p + 1] == ' ');
    assert(pipe_at(s, p));
    first_pipe(a);
    assert forall|j: int| 0 <= j < p implies !#[trigger] pipe_at(s, j) by {
        if pipe_at(s, j) {
            assert(s[j] == '|');
            assert(j < a.len());
            assert(s =~= a + (seq![' ', '|', ' '] + b));
            scan_of_start(rules, a, seq![' ', '|', ' '] + b, j);
            if j + 1 < a.len() {
                assert(s[j + 1] == a[j + 1]);
            }
            if j > 0 {
                assert(s[j - 1] == a[j - 1]);
            }
            assert(pipe_at(a, j));
        }
    }
    first_pipe(s);
}

proof fn closed_from_first(rules: Rules, s: Seq<char>, i: int)
    requires
        0 <= i,
    ensures
        match closed_from(rules, s, i) {
            Some(p) => i <= p < s.len() && closed_at(rules, s, p) && forall|j: int|
                i <= j < p ==> !#[trigger] closed_at(rules, s, j),
            None => forall|j: int| i <= j < s.len() ==> !#[trigger] closed_at(rules, s, j),
        },
    decreases s.len() - i,
{
    if i < s.len() && !closed_at(rules, s, i) {
        closed_from_first(rules, s, i + 1);
    }
}

/// A bracket has its partner behind a text in which everything is closed: what
/// stands between them is that text, whatever follows.
pub proof fn partner_of_bracket(rules: Rules, s: Seq<char>, tail: Seq<char>)
    requires
        complete(rules, s),
        never_below(rules, s),
    ensures
        closed_from(rules, seq!['('] + s + seq![')'] + tail, 1) == Some(s.len() as int + 1),
{
    let t = seq!['('] + s + seq![')'];
    let u = t + tail;
    let n = s.len() as int + 1;
    closed_from_first(rules, u, 1);
    scan_of_start(rules, t, tail, n);
    brackets_enclose(rules, s, s.len() as int);
    assert(u[n] == ')');
    assert(closed_at(rules, u, n));
    assert forall|j: int| 1 <= j < n implies !#[trigger] closed_at(rules, u, j) by {
        scan_of_start(rules, t, tail, j);
        brackets_enclose(rules, s, j - 1);
        let st = lex_at(rules, s, j - 1);
        assert(st.depth >= 0);
        if closed_at(rules, u, j) {
            assert(u[j] == s[j - 1]);
            assert(lex_at(rules, s, j) == lex_step(rules, st, s[j - 1]));
            assert(lex_at(rules, s, j).depth >= 0);
        }
    }
}

/// What stands between a bracket and its partner.
pub proof fn content_of_brackets(s: Seq<char>, tail: Seq<char>)
    ensures
        complete(argument_rules(), s) && never_below(argument_rules(), s) ==> balanced(
            seq!['('] + s + seq![')'] + tail,
        ) == Some(s),
        complete(operator_rules(), s) && never_below(operator_rules(), s) ==> unwrapped(
            seq!['('] + s + seq![')'],
        ) == Some(s),
{
    let t = seq!['('] + s + seq![')'];
    if complete(argument_rules(), s) && never_below(argument_rules(), s) {
        partner_of_bracket(argument_rules(), s, tail);
        assert((t + tail).subrange(1, s.len() as int + 1) =~= s);
    }
    if complete(operator_rules(), s) && never_below(operator_rules(), s) {
        partner_of_bracket(operator_rules(), s, Seq::empty());
        assert(t + Seq::<char>::empty() =~= t);
        assert(t.subrange(1, t.len() - 1) =~= s);
    }
}

/// Where no bracket is closed that has not been opened in either of two texts, none
/// is in the two together.
pub proof fn never_below_in_parts(rules: Rules, a: Seq<char>, b: Seq<char>)
    requires
        complete(rules, a),
        never_below(rules, a),
        never_below(rules, b),
    ensures
        never_below(rules, a + b),
{
    assert forall|i: int| 0 <= i <= (a + b).len() implies (#[trigger] lex_at(
        rules,
        a + b,
        i,
    )).depth >= 0 by {
        if i <= a.len() {
            scan_of_start(rules, a, b, i);
            assert(lex_at(rules, a, i).depth >= 0);
        } else {
            scan_of_end(rules, a, b, i - a.len());
            assert(lex_at(rules, b, i - a.len()).depth >= 0);
        }
    }
}

/// A text whose characters mean nothing is closed and opens nothing.
pub proof fn inert_is_complete(rules: Rules, s: Seq<char>)
    requires
        all_inert(rules, s),
    ensures
        complete(rules, s),
        never_below(rules, s),
{
    assert forall|i: int| 0 <= i <= s.len() implies (#[trigger] lex_at(rules, s, i)).depth >= 0 by {
        scan_of_inert(rules, s, i);
    }
    scan_of_inert(rules, s, s.len() as int);
}

/// Between the brackets of a call nothing stands outside brackets and strings.
pub proof fn inside_a_call(rules: Rules, head: Seq<char>, inside: Seq<char>, j: int)
    requires
        all_inert(rules, head),
        complete(rules, inside),
        never_below(rules, inside),
        head.len() < j < head.len() + inside.len() + 2,
    ensures
        !top_level(lex_at(rules, head + (seq!['('] + inside + seq![')']), j)),
        complete(rules, head + (seq!['('] + inside + seq![')'])),
        never_below(rules, head + (seq!['('] + inside + seq![')'])),
{
    let t = seq!['('] + inside + seq![')'];
    let n = head.len() as int;
    inert_is_complete(rules, head);
    brackets_enclose(rules, inside, inside.len() as int);
    complete_in_parts(rules, head, t);
    assert forall|i: int| 0 <= i <= t.len() implies (#[trigger] lex_at(rules, t, i)).depth >= 0 by {
        if 0 < i < t.len() {
            brackets_enclose(rules, inside, i - 1);
            assert(lex_at(rules, inside, i - 1).depth >= 0);
        }
    }
    never_below_in_parts(rules, head, t);
    scan_of_end(rules, head, t, j - n);
    brackets_enclose(rules, inside, j - n - 1);
    assert(lex_at(rules, inside, j - n - 1).depth >= 0);
}

} // verus!
