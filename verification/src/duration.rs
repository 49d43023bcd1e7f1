//! Durations in words, such as `1h30m` or `1.5s`.

use vstd::prelude::*;
use vstd::slice::slice_subrange;
use crate::error::three;
use crate::number::{number_text, pow10, pow10_facts, pow10_mono, power, read_number, Decimal, Num};
use crate::text::{
    all_digits, char_index, chars_of, decimal, digit_value, digits_value, digits_value_grows,
    index_of_char, is_digit, is_digit_char, trim, trimmed,
};

verus! {

/// The nanoseconds of a second.
pub const NANOS: u128 = 1_000_000_000;

/// The first number of nanoseconds that no duration can hold: 2 to the power
/// of 64 seconds.
pub const TOO_LONG: u128 = 18_446_744_073_709_551_616_000_000_000;

/// The first number of seconds that no duration can hold.
const TOO_MANY_SECONDS: u128 = 18_446_744_073_709_551_616;

// ---------------------------------------------------------------------------
// Numbers
// ---------------------------------------------------------------------------

/// The seconds of a unit.
pub open spec fn unit_seconds(c: char) -> Option<nat> {
    if c == 'h' {
        Some(3600nat)
    } else if c == 'm' {
        Some(60nat)
    } else if c == 's' {
        Some(1nat)
    } else {
        None
    }
}

/// Whether a number can hold the character.
pub open spec fn in_number(c: char) -> bool {
    is_digit(c) || c == '.'
}

/// The length of the number at the start of a text.
pub open spec fn number_run(s: Seq<char>) -> int
    decreases s.len(),
{
    if s.len() == 0 || !in_number(s[0]) {
        0
    } else {
        1 + number_run(s.drop_first())
    }
}

/// The digits before the decimal point.
pub open spec fn whole_part(t: Seq<char>) -> Seq<char> {
    t.take(char_index(t, '.'))
}

/// The digits after the decimal point.
pub open spec fn fraction_part(t: Seq<char>) -> Seq<char> {
    if char_index(t, '.') < t.len() {
        t.skip(char_index(t, '.') + 1)
    } else {
        Seq::empty()
    }
}

/// Whether a text is a decimal number: digits, with at most one decimal point
/// among them.
pub open spec fn is_decimal(t: Seq<char>) -> bool {
    &&& all_digits(whole_part(t))
    &&& all_digits(fraction_part(t))
    &&& whole_part(t).len() + fraction_part(t).len() > 0
}

/// The whole part of `scale` times the fraction with these digits.
pub open spec fn scaled_fraction(digits: Seq<char>, scale: int) -> int
    decreases digits.len(),
{
    if digits.len() == 0 {
        0
    } else {
        (digit_value(digits[0]) * scale + scaled_fraction(digits.drop_first(), scale)) / 10
    }
}

/// The nanoseconds of a number of units, to the nearest.
pub open spec fn component_nanos(t: Seq<char>, unit: nat) -> int {
    digits_value(whole_part(t)) * unit * NANOS as int + (scaled_fraction(
        fraction_part(t),
        2 * unit * NANOS as int,
    ) + 1) / 2
}

/// Whether a number is more than zero.
pub open spec fn is_positive(t: Seq<char>) -> bool {
    exists|i: int| 0 <= i < t.len() && is_digit(#[trigger] t[i]) && t[i] != '0'
}

/// The nanoseconds of a row of numbers with units, and whether one of the
/// numbers is more than zero.
pub open spec fn components(s: Seq<char>) -> Option<(int, bool)>
    decreases s.len(),
{
    if s.len() == 0 {
        Some((0, false))
    } else {
        let k = number_run(s);
        if !(0 < k < s.len() && is_decimal(s.take(k))) {
            None
        } else {
            match unit_seconds(s[k]) {
                None => None,
                Some(unit) => match components(s.skip(k + 1)) {
                    None => None,
                    Some((n, positive)) => Some(
                        (
                            component_nanos(s.take(k), unit) + n,
                            is_positive(s.take(k)) || positive,
                        ),
                    ),
                },
            }
        }
    }
}

/// The nanoseconds of a duration in words, which is longer than nothing.
pub open spec fn human_nanos(s: Seq<char>) -> Option<int> {
    match components(trim(s)) {
        Some((n, true)) => Some(n),
        _ => None,
    }
}

// ---------------------------------------------------------------------------
// Reading
// ---------------------------------------------------------------------------

fn number_end(s: &[char]) -> (r: usize)
    ensures
        r == number_run(s@),
        r <= s@.len(),
{
    let n: usize = s.len();
    let mut i: usize = 0;
    assert(s@.skip(0) =~= s@);
    while i < n && (is_digit_char(s[i]) || s[i] == '.')
        invariant
            i <= n,
            n == s@.len(),
            number_run(s@) == i + number_run(s@.skip(i as int)),
        decreases n - i,
    {
        assert(s@.skip(i as int)[0] == s@[i as int]);
        assert(s@.skip(i as int).drop_first() =~= s@.skip(i + 1));
        i = i + 1;
    }
    proof {
        if i < n {
            assert(s@.skip(i as int)[0] == s@[i as int]);
        }
    }
    i
}

/// The smaller of a number and a bound.
pub open spec fn at_most(n: int, bound: int) -> int {
    if n < bound {
        n
    } else {
        bound
    }
}

fn are_digits(s: &[char]) -> (r: bool)
    ensures
        r == all_digits(s@),
{
    let n: usize = s.len();
    let mut i: usize = 0;
    while i < n
        invariant
            i <= n,
            n == s@.len(),
            forall|j: int| 0 <= j < i ==> is_digit(#[trigger] s@[j]),
        decreases n - i,
    {
        if !is_digit_char(s[i]) {
            return false;
        }
        i = i + 1;
    }
    true
}

fn has_nonzero(s: &[char]) -> (r: bool)
    ensures
        r == is_positive(s@),
{
    let n: usize = s.len();
    let mut i: usize = 0;
    while i < n
        invariant
            i <= n,
            n == s@.len(),
            forall|j: int| 0 <= j < i ==> !(is_digit(#[trigger] s@[j]) && s@[j] != '0'),
        decreases n - i,
    {
        if is_digit_char(s[i]) && s[i] != '0' {
            return true;
        }
        i = i + 1;
    }
    false
}

/// The value of a run of digits, or the bound if it is greater.
fn bounded_value(s: &[char]) -> (r: u128)
    requires
        all_digits(s@),
    ensures
        r == at_most(digits_value(s@), TOO_MANY_SECONDS as int),
{
    let n: usize = s.len();
    let mut v: u128 = 0;
    let mut i: usize = 0;
    assert(s@.take(0) =~= Seq::empty());
    while i < n
        invariant
            i <= n,
            n == s@.len(),
            all_digits(s@),
            v == at_most(digits_value(s@.take(i as int)), TOO_MANY_SECONDS as int),
        decreases n - i,
    {
        let c: char = s[i];
        assert(is_digit(s@[i as int]));
        assert(s@.take(i + 1).drop_last() =~= s@.take(i as int));
        let next: u128 = v * 10 + (c as u32 - 48) as u128;
        v = if next < TOO_MANY_SECONDS {
            next
        } else {
            TOO_MANY_SECONDS
        };
        i = i + 1;
    }
    assert(s@.take(n as int) =~= s@);
    v
}

fn fraction_of(s: &[char], scale: u128) -> (r: u128)
    requires
        all_digits(s@),
        scale <= 7_200_000_000_000,
    ensures
        r == scaled_fraction(s@, scale as int),
        r <= scale,
{
    let n: usize = s.len();
    let mut v: u128 = 0;
    let mut i: usize = n;
    assert(s@.skip(n as int) =~= Seq::empty());
    while i > 0
        invariant
            i <= n,
            n == s@.len(),
            all_digits(s@),
            scale <= 7_200_000_000_000,
            v == scaled_fraction(s@.skip(i as int), scale as int),
            v <= scale,
        decreases i,
    {
        i = i - 1;
        let c: char = s[i];
        let d: u128 = (c as u32) as u128;
        assert(is_digit(s@[i as int]));
        let ghost rest = s@.skip(i as int);
        assert(rest[0] == s@[i as int]);
        assert(rest.drop_first() =~= s@.skip(i + 1));
        assert(0 <= (d - 48) * scale <= 9 * scale) by (nonlinear_arith)
            requires
                48 <= d <= 57,
        ;
        v = ((d - 48) * scale + v) / 10;
    }
    assert(s@.skip(0) =~= s@);
    v
}

proof fn digits_value_is_natural(s: Seq<char>)
    requires
        all_digits(s),
    ensures
        0 <= digits_value(s),
{
    digits_value_grows(s, 0);
}

/// The nanoseconds of a decimal number of units, or the bound if they are more.
fn bounded_component(t: &[char], unit: u128) -> (r: u128)
    requires
        is_decimal(t@),
        1 <= unit <= 3600,
    ensures
        r == at_most(component_nanos(t@, unit as nat), TOO_LONG as int),
        0 <= component_nanos(t@, unit as nat),
{
    let n: usize = t.len();
    let dot: usize = index_of_char(t, '.');
    let whole = slice_subrange(t, 0, dot);
    assert(whole@ =~= whole_part(t@));
    let fraction = if dot < n {
        slice_subrange(t, dot + 1, n)
    } else {
        slice_subrange(t, n, n)
    };
    assert(fraction@ =~= fraction_part(t@));
    let seconds: u128 = bounded_value(whole);
    let parts: u128 = fraction_of(fraction, 2 * unit * NANOS);
    assert(0 <= seconds * unit <= TOO_MANY_SECONDS * 3600) by (nonlinear_arith)
        requires
            seconds <= TOO_MANY_SECONDS,
            unit <= 3600,
    ;
    let nanos: u128 = seconds * unit * NANOS + (parts + 1) / 2;
    proof {
        digits_value_is_natural(whole@);
        let value = digits_value(whole@);
        let u = unit as int;
        assert(seconds < TOO_MANY_SECONDS ==> seconds == value);
        assert(seconds * u * (NANOS as int) >= seconds * (NANOS as int)) by (nonlinear_arith)
            requires
                u >= 1,
                seconds >= 0,
                NANOS == 1_000_000_000,
        ;
        if value >= TOO_MANY_SECONDS {
            assert(value * u * (NANOS as int) >= TOO_LONG) by (nonlinear_arith)
                requires
                    u >= 1,
                    value >= TOO_MANY_SECONDS,
                    NANOS == 1_000_000_000,
                    TOO_LONG == 18_446_744_073_709_551_616_000_000_000,
                    TOO_MANY_SECONDS == 18_446_744_073_709_551_616,
            ;
        }
        assert(value * u * (NANOS as int) >= 0) by (nonlinear_arith)
            requires
                u >= 1,
                value >= 0,
                NANOS == 1_000_000_000,
        ;
    }
    if nanos < TOO_LONG {
        nanos
    } else {
        TOO_LONG
    }
}

/// What a duration in words denotes.
#[derive(Debug, Clone, Copy, PartialEq, Eq, Structural)]
pub enum HumanDuration {
    /// It is no duration.
    Invalid,
    /// It is longer than any duration can be.
    TooLong,
    /// It lasts that many nanoseconds.
    Nanos(u128),
}

fn checked_number(t: &[char]) -> (r: bool)
    ensures
        r == is_decimal(t@),
{
    let n: usize = t.len();
    let dot: usize = index_of_char(t, '.');
    let whole = slice_subrange(t, 0, dot);
    assert(whole@ =~= whole_part(t@));
    let fraction = if dot < n {
        slice_subrange(t, dot + 1, n)
    } else {
        slice_subrange(t, n, n)
    };
    assert(fraction@ =~= fraction_part(t@));
    are_digits(whole) && are_digits(fraction) && (whole.len() > 0 || fraction.len() > 0)
}

/// Reads a duration in words: numbers with the units `h`, `m` and `s`, in any
/// order.
pub fn read_human_duration(s: &str) -> (r: HumanDuration)
    ensures
        match r {
            HumanDuration::Invalid => human_nanos(s@) is None,
            HumanDuration::TooLong => human_nanos(s@) matches Some(n) && n >= TOO_LONG,
            HumanDuration::Nanos(v) => human_nanos(s@) == Some(v as int) && v < TOO_LONG,
        },
{
    let chars = chars_of(s);
    let t = trimmed(chars.as_slice());
    let n: usize = t.len();
    let mut i: usize = 0;
    let mut total: u128 = 0;
    let mut positive: bool = false;
    let ghost mut sum: int = 0;
    assert(t@.skip(0) =~= t@);
    while i < n
        invariant
            i <= n,
            n == t@.len(),
            t@ == trim(s@),
            0 <= sum,
            total == at_most(sum, TOO_LONG as int),
            components(t@) == match components(t@.skip(i as int)) {
                None => None,
                Some((m, p)) => Some((sum + m, positive || p)),
            },
        decreases n - i,
    {
        let rest = slice_subrange(t, i, n);
        let ghost whole = t@.skip(i as int);
        assert(rest@ =~= whole);
        let k: usize = number_end(rest);
        if k == 0 || k == rest.len() {
            return HumanDuration::Invalid;
        }
        let number = slice_subrange(rest, 0, k);
        assert(number@ =~= whole.take(k as int));
        if !checked_number(number) {
            return HumanDuration::Invalid;
        }
        let c: char = rest[k];
        let unit: u128 = if c == 'h' {
            3600
        } else if c == 'm' {
            60
        } else if c == 's' {
            1
        } else {
            return HumanDuration::Invalid;
        };
        let nanos: u128 = bounded_component(number, unit);
        let nonzero: bool = has_nonzero(number);
        proof {
            sum = sum + component_nanos(number@, unit as nat);
            assert(whole.skip(k + 1) =~= t@.skip(i + k + 1));
        }
        let more: u128 = total + nanos;
        total = if more < TOO_LONG {
            more
        } else {
            TOO_LONG
        };
        positive = positive || nonzero;
        i = i + k + 1;
    }
    assert(t@.skip(n as int) =~= Seq::empty());
    if !positive {
        HumanDuration::Invalid
    } else if total < TOO_LONG {
        HumanDuration::Nanos(total)
    } else {
        HumanDuration::TooLong
    }
}

/// The nanoseconds of a duration in words.
pub fn parse_human_duration(s: &str) -> (r: Option<u128>)
    requires
        human_nanos(s@) matches Some(n) ==> n < TOO_LONG,
    ensures
        match r {
            Some(v) => human_nanos(s@) == Some(v as int),
            None => human_nanos(s@) is None,
        },
{
    match read_human_duration(s) {
        HumanDuration::Nanos(v) => Some(v),
        _ => None,
    }
}

// ---------------------------------------------------------------------------
// Durations of a configuration
// ---------------------------------------------------------------------------

/// The nanoseconds of a decimal number of seconds, to the nearest, without the
/// sign.
pub open spec fn decimal_nanos(d: Decimal) -> int {
    let e = d.exp + 9;
    if e >= 0 {
        d.digits * pow10(e as nat)
    } else {
        (2 * d.digits + pow10((-e) as nat)) / (2 * pow10((-e) as nat)) as int
    }
}

fn bounded_nanos(d: Decimal) -> (r: u128)
    ensures
        r == at_most(decimal_nanos(d), TOO_LONG as int),
{
    let e: i128 = d.exp as i128 + 9;
    let digits: u128 = d.digits as u128;
    if digits == 0 {
        proof {
            if e >= 0 {
                assert(0 * pow10(e as nat) == 0) by (nonlinear_arith);
            } else {
                let p = pow10((-e) as nat) as int;
                pow10_mono(0, (-e) as nat);
                assert(p / (2 * p) == 0) by (nonlinear_arith)
                    requires
                        p >= 1,
                ;
            }
        }
        return 0;
    }
    if e >= 0 {
        if e > 28 {
            proof {
                let p = pow10(e as nat) as int;
                pow10_facts();
                pow10_mono(29, e as nat);
                pow10_mono(29, 38);
                assert(pow10(29) == 100_000_000_000_000_000_000_000_000_000) by {
                    reveal_with_fuel(pow10, 30);
                }
                assert(digits * p >= p) by (nonlinear_arith)
                    requires
                        digits >= 1,
                        p >= 0,
                ;
            }
            return TOO_LONG;
        }
        let p: u128 = power(e as u32);
        match digits.checked_mul(p) {
            Some(n) => if n < TOO_LONG {
                n
            } else {
                TOO_LONG
            },
            None => TOO_LONG,
        }
    } else {
        let k: i128 = -e;
        if k > 20 {
            proof {
                let p = pow10(k as nat) as int;
                pow10_facts();
                pow10_mono(20, (k - 1) as nat);
                assert(pow10(k as nat) == 10 * pow10((k - 1) as nat));
                let x = 2 * digits as int;
                assert(x < p);
                assert((x + p) / (2 * p) == 0) by (nonlinear_arith)
                    requires
                        0 <= x < p,
                ;
            }
            return 0;
        }
        let p: u128 = power(k as u32);
        proof {
            pow10_facts();
            pow10_mono(k as nat, 20);
            pow10_mono(0, k as nat);
        }
        let n: u128 = (2 * digits + p) / (2 * p);
        proof {
            let x = 2 * digits as int + p as int;
            let q = 2 * p as int;
            assert(x / q <= x) by (nonlinear_arith)
                requires
                    x >= 0,
                    q >= 1,
            ;
        }
        n
    }
}

/// What a duration of a configuration denotes.
#[derive(Debug, Clone)]
pub enum ConfiguredDuration {
    /// It is refused, with a message.
    Refused(String),
    /// It is a number that no duration can hold.
    OutOfRange,
    /// It lasts that many nanoseconds.
    Nanos(u128),
}

/// What a duration of a configuration denotes, as a mathematical value.
pub ghost enum DurationView {
    Refused(Seq<char>),
    OutOfRange,
    Nanos(int),
}

impl View for ConfiguredDuration {
    type V = DurationView;

    open spec fn view(&self) -> DurationView {
        match self {
            ConfiguredDuration::Refused(m) => DurationView::Refused(m@),
            ConfiguredDuration::OutOfRange => DurationView::OutOfRange,
            ConfiguredDuration::Nanos(n) => DurationView::Nanos(*n as int),
        }
    }
}

/// A number of nanoseconds, where a duration can hold it.
pub open spec fn within_range(n: int) -> DurationView {
    if n < TOO_LONG {
        DurationView::Nanos(n)
    } else {
        DurationView::OutOfRange
    }
}

/// The refusal of a negative duration.
pub open spec fn negative_duration() -> DurationView {
    DurationView::Refused("duration cannot be negative"@)
}

/// What a text denotes: a number of seconds, or a duration in words.
pub open spec fn text_duration(s: Seq<char>) -> DurationView {
    match number_text(s) {
        Some(Num::Finite(d)) => if d.neg && d.digits > 0 {
            negative_duration()
        } else {
            within_range(decimal_nanos(d))
        },
        Some(Num::Infinite { neg }) => if neg {
            negative_duration()
        } else {
            DurationView::OutOfRange
        },
        Some(Num::NotANumber) => DurationView::OutOfRange,
        None => match human_nanos(s) {
            Some(n) => within_range(n),
            None => DurationView::Refused(
                "invalid duration format: '"@ + s
                    + "', expected number (seconds) or human-readable (e.g., \"30s\", \"1m30s\", \"1.5s\")"@,
            ),
        },
    }
}

fn refused_as_negative() -> (r: ConfiguredDuration)
    ensures
        r@ == negative_duration(),
{
    ConfiguredDuration::Refused("duration cannot be negative".to_owned())
}

/// Reads a duration that a configuration gives as text.
pub fn duration_from_text(s: &str) -> (r: ConfiguredDuration)
    ensures
        r@ == text_duration(s@),
{
    let chars = chars_of(s);
    match read_number(chars.as_slice()) {
        Some(Num::Finite(d)) => {
            if d.neg && d.digits > 0 {
                return refused_as_negative();
            }
            let n: u128 = bounded_nanos(d);
            if n < TOO_LONG {
                ConfiguredDuration::Nanos(n)
            } else {
                ConfiguredDuration::OutOfRange
            }
        },
        Some(Num::Infinite { neg }) => if neg {
            refused_as_negative()
        } else {
            ConfiguredDuration::OutOfRange
        },
        Some(Num::NotANumber) => ConfiguredDuration::OutOfRange,
        None => match read_human_duration(s) {
            HumanDuration::Nanos(n) => ConfiguredDuration::Nanos(n),
            HumanDuration::TooLong => ConfiguredDuration::OutOfRange,
            HumanDuration::Invalid => ConfiguredDuration::Refused(
                three(
                    "invalid duration format: '",
                    s,
                    "', expected number (seconds) or human-readable (e.g., \"30s\", \"1m30s\", \"1.5s\")",
                ),
            ),
        },
    }
}

/// Reads a duration that a configuration gives as a whole number of seconds.
pub fn duration_from_integer(seconds: i128) -> (r: ConfiguredDuration)
    ensures
        r@ == (if seconds < 0 {
            negative_duration()
        } else {
            within_range(seconds * NANOS)
        }),
{
    if seconds < 0 {
        return refused_as_negative();
    }
    if seconds >= TOO_MANY_SECONDS as i128 {
        return ConfiguredDuration::OutOfRange;
    }
    ConfiguredDuration::Nanos(seconds as u128 * NANOS)
}

// ---------------------------------------------------------------------------
// Laws
// ---------------------------------------------------------------------------

proof fn number_run_bounds(s: Seq<char>)
    ensures
        0 <= number_run(s) <= s.len(),
    decreases s.len(),
{
    if s.len() > 0 && in_number(s[0]) {
        number_run_bounds(s.drop_first());
    }
}

proof fn number_run_is_local(a: Seq<char>, b: Seq<char>)
    requires
        number_run(a) < a.len(),
    ensures
        number_run(a + b) == number_run(a),
    decreases a.len(),
{
    assert((a + b)[0] == a[0]);
    if in_number(a[0]) {
        assert((a + b).drop_first() =~= a.drop_first() + b);
        number_run_is_local(a.drop_first(), b);
    }
}

/// Two rows of numbers with units, one after the other, last as long as both.
pub proof fn rows_add_up(a: Seq<char>, b: Seq<char>, first: (int, bool), second: (int, bool))
    requires
        components(a) == Some(first),
        components(b) == Some(second),
    ensures
        components(a + b) == Some((first.0 + second.0, first.1 || second.1)),
    decreases a.len(),
{
    if a.len() == 0 {
        assert(a + b =~= b);
    } else {
        let k = number_run(a);
        number_run_bounds(a);
        number_run_is_local(a, b);
        assert((a + b).take(k) =~= a.take(k));
        assert((a + b)[k] == a[k]);
        assert((a + b).skip(k + 1) =~= a.skip(k + 1) + b);
        let rest = components(a.skip(k + 1))->Some_0;
        rows_add_up(a.skip(k + 1), b, rest, second);
    }
}

/// The order of the numbers with units does not matter.
pub proof fn any_order(a: Seq<char>, b: Seq<char>)
    requires
        components(a) is Some,
        components(b) is Some,
    ensures
        components(a + b) == components(b + a),
{
    let first = components(a)->Some_0;
    let second = components(b)->Some_0;
    rows_add_up(a, b, first, second);
    rows_add_up(b, a, second, first);
}

proof fn run_of_digits_then(s: Seq<char>, c: char, rest: Seq<char>)
    requires
        all_digits(s),
        !in_number(c),
    ensures
        number_run(s + seq![c] + rest) == s.len(),
    decreases s.len(),
{
    let t = s + seq![c] + rest;
    if s.len() > 0 {
        assert(is_digit(s[0]));
        assert(t[0] == s[0]);
        let u = s.drop_first();
        assert forall|i: int| 0 <= i < u.len() implies is_digit(#[trigger] u[i]) by {
            assert(u[i] == s[i + 1]);
        }
        assert(t.drop_first() =~= u + seq![c] + rest);
        run_of_digits_then(u, c, rest);
    } else {
        assert(t[0] == c);
    }
}

/// A whole number of hours, minutes or seconds lasts that long, and what follows
/// lasts longer by as much as it lasts alone.
pub proof fn whole_numbers_of_units(
    n: nat,
    c: char,
    seconds: nat,
    rest: Seq<char>,
    more: (int, bool),
)
    requires
        c == 'h' && seconds == 3600 || c == 'm' && seconds == 60 || c == 's' && seconds == 1,
        components(rest) == Some(more),
    ensures
        components(decimal(n) + seq![c] + rest) == Some(
            (n * seconds * 1_000_000_000 + more.0, n > 0 || more.1),
        ),
{
    let d = decimal(n);
    let s = d + seq![c] + rest;
    crate::text::decimal_is_read_back(n);
    run_of_digits_then(d, c, rest);
    assert(s.take(d.len() as int) =~= d);
    assert(s[d.len() as int] == c);
    assert(s.skip(d.len() as int + 1) =~= rest);
    crate::text::char_index_first(d, '.');
    let i = char_index(d, '.');
    if i < d.len() {
        assert(is_digit(d[i]));
    }
    assert(d.take(d.len() as int) =~= d);
    assert(whole_part(d) == d);
    assert(fraction_part(d) == Seq::<char>::empty());
    assert(scaled_fraction(Seq::<char>::empty(), 2 * seconds * NANOS as int) == 0);
    if n > 0 {
        assert(is_digit(d[0]) && d[0] != '0');
        assert(is_positive(d));
    } else {
        assert(d =~= seq!['0']);
        assert(!is_positive(d));
    }
}

/// A duration in words without white space at its ends lasts as long as its rows,
/// and one of no length is refused.
pub proof fn words_last_as_long_as_their_rows(n: nat, c: char, seconds: nat)
    requires
        c == 'h' && seconds == 3600 || c == 'm' && seconds == 60 || c == 's' && seconds == 1,
    ensures
        human_nanos(decimal(n) + seq![c]) == (if n > 0 {
            Some((n * seconds * 1_000_000_000) as int)
        } else {
            None
        }),
{
    let s = decimal(n) + seq![c];
    whole_numbers_of_units(n, c, seconds, Seq::empty(), (0, false));
    assert(decimal(n) + seq![c] + Seq::<char>::empty() =~= s);
    crate::text::decimal_is_read_back(n);
    assert(is_digit(decimal(n)[0]));
    assert(s[0] == decimal(n)[0] && s.last() == c);
    crate::text::trim_of_tight(s);
}

/// A number alone counts seconds.
pub proof fn numbers_count_seconds(n: nat)
    requires
        n < 1_000_000_000,
    ensures
        text_duration(decimal(n)) == DurationView::Nanos(n as int * 1_000_000_000),
{
    crate::number::digits_are_a_number(n);
    pow10_facts_here();
    assert((n as u64) * pow10(9) == n * 1_000_000_000) by (nonlinear_arith)
        requires
            pow10(9) == 1_000_000_000,
            n < 1_000_000_000,
    ;
}

proof fn pow10_facts_here()
    ensures
        pow10(9) == 1_000_000_000,
{
    crate::number::pow10_facts();
}

/// One decimal place of a unit is a tenth of it.
pub proof fn tenths_of_units(n: nat, d: int, c: char, seconds: nat)
    requires
        c == 'h' && seconds == 3600 || c == 'm' && seconds == 60 || c == 's' && seconds == 1,
        0 <= d <= 9,
    ensures
        components(decimal(n) + seq!['.', crate::text::digit_char(d), c]) == Some(
            ((10 * n + d) * seconds * 100_000_000, n > 0 || d > 0),
        ),
{
    let w = decimal(n);
    let x = crate::text::digit_char(d);
    let t = w + seq!['.', x];
    let s = w + seq!['.', x, c];
    crate::text::decimal_is_read_back(n);
    assert(is_digit(x) && digit_value(x) == d);
    assert(s =~= t + seq![c]);
    run_of_number_then(t, c);
    assert(s.take(t.len() as int) =~= t);
    assert(s[t.len() as int] == c);
    assert(s.skip(t.len() as int + 1) =~= Seq::<char>::empty());
    parts_of_tenths(w, x);
    let f = seq![x];
    let unit = 2 * seconds * 1_000_000_000;
    assert(f.drop_first() =~= Seq::<char>::empty());
    assert(scaled_fraction(Seq::<char>::empty(), unit as int) == 0);
    assert(scaled_fraction(f, unit as int) == (d * unit) / 10);
    tenths_in_nanos(n, d, seconds);
    assert(is_positive(t) <==> n > 0 || d > 0) by {
        tenths_positive(n, d);
    }
    assert(components(Seq::<char>::empty()) == Some((0int, false)));
}

proof fn tenths_in_nanos(n: nat, d: int, seconds: nat)
    requires
        seconds == 3600 || seconds == 60 || seconds == 1,
        0 <= d <= 9,
    ensures
        n * seconds * 1_000_000_000 + ((d * (2 * seconds * 1_000_000_000)) / 10 + 1) / 2 == (10 * n
            + d) * seconds * 100_000_000,
{
    if seconds == 3600 {
        assert(d * (2 * seconds * 1_000_000_000) == d * 7_200_000_000_000);
    } else if seconds == 60 {
        assert(d * (2 * seconds * 1_000_000_000) == d * 120_000_000_000);
    } else {
        assert(d * (2 * seconds * 1_000_000_000) == d * 2_000_000_000);
    }
}

proof fn tenths_positive(n: nat, d: int)
    requires
        0 <= d <= 9,
    ensures
        is_positive(decimal(n) + seq!['.', crate::text::digit_char(d)]) <==> n > 0 || d > 0,
{
    let w = decimal(n);
    let t = w + seq!['.', crate::text::digit_char(d)];
    crate::text::decimal_is_read_back(n);
    if n > 0 {
        assert(is_digit(w[0]) && t[0] == w[0]);
    }
    if d > 0 {
        assert(t[w.len() as int + 1] == crate::text::digit_char(d));
    }
    if n == 0 && d == 0 {
        assert(w.len() == 1 && w[0] == '0');
    }
}

proof fn run_of_number_then(t: Seq<char>, c: char)
    requires
        forall|i: int| 0 <= i < t.len() ==> in_number(#[trigger] t[i]),
        !in_number(c),
    ensures
        number_run(t + seq![c]) == t.len(),
    decreases t.len(),
{
    if t.len() > 0 {
        let u = t.drop_first();
        assert(in_number(t[0]));
        assert forall|i: int| 0 <= i < u.len() implies in_number(#[trigger] u[i]) by {
            assert(u[i] == t[i + 1]);
        }
        run_of_number_then(u, c);
        assert((t + seq![c]).drop_first() =~= u + seq![c]);
    } else {
        assert((t + seq![c])[0] == c);
    }
}

proof fn parts_of_tenths(w: Seq<char>, x: char)
    requires
        w.len() > 0,
        all_digits(w),
        is_digit(x),
    ensures
        whole_part(w + seq!['.', x]) == w,
        fraction_part(w + seq!['.', x]) == seq![x],
        is_decimal(w + seq!['.', x]),
{
    let t = w + seq!['.', x];
    crate::text::char_index_first(t, '.');
    let i = char_index(t, '.');
    assert(t[w.len() as int] == '.');
    if i < w.len() {
        assert(is_digit(w[i]));
    }
    assert(t.take(i) =~= w);
    assert(t.skip(i + 1) =~= seq![x]);
}

} // verus!
