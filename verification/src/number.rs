//! Numbers of the JSON model and of the expression language.
//!
//! A number with a fraction or an exponent is held as an exact decimal, so
//! that comparing and printing it involves no rounding.

use vstd::prelude::*;
use vstd::slice::slice_subrange;
use crate::text::{
    all_digits, code_point, decimal, digits_value, digits_value_grows, is_digit, is_digit_char,
    push_chars, push_decimal, read_digits, text_of,
};

verus! {

/// An exact decimal number: `digits` times ten to the power `exp`, negated if
/// `neg`.
#[derive(Debug, Clone, Copy, PartialEq, Eq, Structural)]
pub struct Decimal {
    pub neg: bool,
    pub digits: u64,
    pub exp: i64,
}

/// A JSON number.
#[derive(Debug, Clone, Copy, PartialEq, Eq, Structural)]
pub enum Number {
    /// A negative integer, or one that fits a signed 64-bit integer.
    Int(i64),
    /// An integer above the signed range.
    UInt(u64),
    /// A number written with a fraction or an exponent.
    Float(Decimal),
}

/// A number of the expression language: a decimal, an infinity, or no number.
#[derive(Debug, Clone, Copy, PartialEq, Eq, Structural)]
pub enum Num {
    Finite(Decimal),
    Infinite { neg: bool },
    NotANumber,
}

// ---------------------------------------------------------------------------
// Powers of ten
// ---------------------------------------------------------------------------

/// Ten to the power `n`.
pub open spec fn pow10(n: nat) -> nat
    decreases n,
{
    if n == 0 {
        1
    } else {
        10 * pow10((n - 1) as nat)
    }
}

proof fn pow10_positive(n: nat)
    ensures
        pow10(n) >= 1,
    decreases n,
{
    if n > 0 {
        pow10_positive((n - 1) as nat);
    }
}

proof fn pow10_sum(a: nat, b: nat)
    ensures
        pow10(a + b) == pow10(a) * pow10(b),
    decreases b,
{
    if b > 0 {
        pow10_sum(a, (b - 1) as nat);
        assert(pow10(a + b) == 10 * pow10((a + b - 1) as nat));
        let x = pow10(a);
        let y = pow10((b - 1) as nat);
        assert(10 * (x * y) == x * (10 * y)) by (nonlinear_arith);
    } else {
        assert(pow10(b) == 1);
        assert(pow10(a) * 1 == pow10(a)) by (nonlinear_arith);
    }
}

/// Powers of ten grow.
pub proof fn pow10_mono(a: nat, b: nat)
    requires
        a <= b,
    ensures
        pow10(a) <= pow10(b),
    decreases b,
{
    if a < b {
        pow10_mono(a, (b - 1) as nat);
    }
}

/// `10^20` exceeds every 64-bit number, `10^39` every 128-bit one.
pub proof fn pow10_facts()
    ensures
        pow10(0) == 1,
        pow10(9) == 1_000_000_000,
        pow10(19) == 10_000_000_000_000_000_000,
        pow10(20) == 100_000_000_000_000_000_000,
        pow10(38) == 100_000_000_000_000_000_000_000_000_000_000_000_000,
        pow10(39) == 1_000_000_000_000_000_000_000_000_000_000_000_000_000,
{
    reveal_with_fuel(pow10, 40);
}

/// Ten to the power `n`, for the powers that fit.
pub fn power(n: u32) -> (r: u128)
    requires
        n <= 38,
    ensures
        r == pow10(n as nat),
{
    let mut r: u128 = 1;
    let mut i: u32 = 0;
    while i < n
        invariant
            i <= n <= 38,
            r == pow10(i as nat),
        decreases n - i,
    {
        proof {
            pow10_facts();
            pow10_mono(i as nat, 37);
            assert(pow10(38) == 10 * pow10(37));
        }
        r = r * 10;
        i = i + 1;
    }
    r
}

// ---------------------------------------------------------------------------
// Order
// ---------------------------------------------------------------------------

impl Decimal {
    /// The size of the number in units of `10^e`, for `e` no greater than its
    /// exponent.
    pub open spec fn size(self, e: int) -> int {
        self.digits * pow10((self.exp - e) as nat)
    }

    /// The number in units of `10^e`, for `e` no greater than its exponent.
    pub open spec fn scaled(self, e: int) -> int {
        if self.neg {
            -self.size(e)
        } else {
            self.size(e)
        }
    }
}

pub open spec fn min_int(a: int, b: int) -> int {
    if a <= b {
        a
    } else {
        b
    }
}

pub open spec fn max_int(a: int, b: int) -> int {
    if a >= b {
        a
    } else {
        b
    }
}

pub open spec fn abs_int(a: int) -> int {
    if a < 0 {
        -a
    } else {
        a
    }
}

/// Whether the decimal `a` is below the decimal `b`.
pub open spec fn dec_lt(a: Decimal, b: Decimal) -> bool {
    let e = min_int(a.exp as int, b.exp as int);
    a.scaled(e) < b.scaled(e)
}

/// Whether two decimals count as equal: they differ by less than a billionth
/// of the greatest of their sizes and one.
pub open spec fn dec_close(a: Decimal, b: Decimal) -> bool {
    let e = min_int(min_int(a.exp as int, b.exp as int), 0);
    let x = a.scaled(e);
    let y = b.scaled(e);
    abs_int(x - y) * 1_000_000_000 < max_int(max_int(abs_int(x), abs_int(y)), pow10((-e) as nat) as int)
}

/// Whether the number `a` is below the number `b`.
pub open spec fn num_lt(a: Num, b: Num) -> bool {
    match (a, b) {
        (Num::NotANumber, _) => false,
        (_, Num::NotANumber) => false,
        (Num::Infinite { neg }, Num::Infinite { neg: other }) => neg && !other,
        (Num::Infinite { neg }, Num::Finite(_)) => neg,
        (Num::Finite(_), Num::Infinite { neg }) => !neg,
        (Num::Finite(x), Num::Finite(y)) => dec_lt(x, y),
    }
}

/// Whether `a` is below or equal to `b`, both being numbers.
pub open spec fn num_le(a: Num, b: Num) -> bool {
    &&& !(a is NotANumber)
    &&& !(b is NotANumber)
    &&& !num_lt(b, a)
}

/// Whether two numbers count as equal.
pub open spec fn num_close(a: Num, b: Num) -> bool {
    match (a, b) {
        (Num::Finite(x), Num::Finite(y)) => dec_close(x, y),
        _ => false,
    }
}

/// The size comparison behind `less`.
fn smaller(a: Decimal, b: Decimal) -> (r: bool)
    ensures
        ({
            let e = min_int(a.exp as int, b.exp as int);
            r == (a.size(e) < b.size(e))
        }),
{
    let ea: i128 = a.exp as i128;
    let eb: i128 = b.exp as i128;
    proof {
        pow10_facts();
        assert(pow10(0) == 1);
    }
    if ea >= eb {
        let k: i128 = ea - eb;
        assert(b.size(b.exp as int) == b.digits) by {
            assert(b.digits * 1 == b.digits) by (nonlinear_arith);
        }
        if k >= 20 {
            proof {
                big_power(a.digits, k as nat);
            }
            a.digits == 0 && b.digits > 0
        } else {
            let x: u128 = scale(a.digits, k as u32);
            x < b.digits as u128
        }
    } else {
        let k: i128 = eb - ea;
        assert(a.size(a.exp as int) == a.digits) by {
            assert(a.digits * 1 == a.digits) by (nonlinear_arith);
        }
        if k >= 20 {
            proof {
                big_power(b.digits, k as nat);
            }
            b.digits > 0
        } else {
            let y: u128 = scale(b.digits, k as u32);
            (a.digits as u128) < y
        }
    }
}

/// A nonzero 64-bit number times `10^20` or more exceeds every 64-bit number.
proof fn big_power(d: u64, k: nat)
    requires
        k >= 20,
    ensures
        d == 0 ==> d * pow10(k) == 0,
        d > 0 ==> d * pow10(k) >= pow10(k) && pow10(k) > u64::MAX,
{
    pow10_facts();
    pow10_mono(20, k);
    let p = pow10(k) as int;
    let n = d as int;
    if d == 0 {
        assert(n * p == 0) by (nonlinear_arith)
            requires
                n == 0,
        ;
    } else {
        assert(n * p >= p) by (nonlinear_arith)
            requires
                n >= 1,
                p >= 0,
        ;
    }
}

/// `d` times ten to the power `k`.
fn scale(d: u64, k: u32) -> (r: u128)
    requires
        k <= 19,
    ensures
        r == d * pow10(k as nat),
{
    let p: u128 = power(k);
    proof {
        pow10_facts();
        pow10_mono(k as nat, 19);
        let x = d as int;
        let y = p as int;
        assert(x * y <= 18_446_744_073_709_551_615 * 10_000_000_000_000_000_000) by (nonlinear_arith)
            requires
                0 <= x <= 18_446_744_073_709_551_615,
                0 <= y <= 10_000_000_000_000_000_000,
        ;
    }
    (d as u128) * p
}

impl Decimal {
    /// Whether this decimal is below `other`.
    pub fn less(self, other: Decimal) -> (r: bool)
        ensures
            r == dec_lt(self, other),
    {
        let a_neg: bool = self.neg && self.digits > 0;
        let b_neg: bool = other.neg && other.digits > 0;
        proof {
            let e = min_int(self.exp as int, other.exp as int);
            size_sign(self, e);
            size_sign(other, e);
        }
        if a_neg && !b_neg {
            true
        } else if !a_neg && b_neg {
            false
        } else if a_neg {
            smaller(other, self)
        } else {
            smaller(self, other)
        }
    }

    /// Whether this decimal counts as equal to `other`.
    pub fn close(self, other: Decimal) -> (r: bool)
        ensures
            r == dec_close(self, other),
    {
        if self.exp >= other.exp {
            close_ordered(self, other)
        } else {
            proof {
                close_symmetric(self, other);
            }
            close_ordered(other, self)
        }
    }
}

proof fn size_sign(d: Decimal, e: int)
    ensures
        d.digits == 0 ==> d.size(e) == 0,
        d.digits > 0 ==> d.size(e) > 0,
{
    let p = pow10((d.exp - e) as nat) as int;
    let n = d.digits as int;
    pow10_positive((d.exp - e) as nat);
    if n == 0 {
        assert(n * p == 0) by (nonlinear_arith)
            requires
                n == 0,
        ;
    } else {
        assert(n * p > 0) by (nonlinear_arith)
            requires
                n > 0,
                p > 0,
        ;
    }
}

/// Counting as equal does not depend on the order of the two numbers.
pub proof fn close_symmetric(a: Decimal, b: Decimal)
    ensures
        dec_close(a, b) == dec_close(b, a),
{
}

/// Every decimal counts as equal to itself.
pub proof fn close_reflexive(a: Decimal)
    ensures
        dec_close(a, a),
{
    let e = min_int(min_int(a.exp as int, a.exp as int), 0);
    pow10_positive((-e) as nat);
}

/// `d * 10^9 < 10^p`.
fn below_billionth(d: u128, p: i128) -> (r: bool)
    requires
        p >= 0,
    ensures
        r == (d * 1_000_000_000 < pow10(p as nat)),
{
    proof {
        pow10_facts();
        pow10_positive(p as nat);
    }
    if p <= 9 {
        proof {
            pow10_mono(p as nat, 9);
        }
        d == 0
    } else if p >= 48 {
        proof {
            pow10_sum(39, 9);
            pow10_mono(48, p as nat);
            let big = pow10(39) as int;
            let x = d as int;
            assert(x * 1_000_000_000 < big * 1_000_000_000) by (nonlinear_arith)
                requires
                    x < big,
            ;
        }
        true
    } else {
        let q: u32 = (p - 9) as u32;
        let t: u128 = power(q);
        proof {
            pow10_sum(q as nat, 9);
            let x = d as int;
            let y = t as int;
            assert((x < y) == (x * 1_000_000_000 < y * 1_000_000_000)) by (nonlinear_arith);
        }
        d < t
    }
}

/// Multiplying both sides by a positive number keeps the order.
proof fn scale_order(t: int, x: int, y: int)
    requires
        t >= 1,
    ensures
        (x * t < y * t) == (x < y),
        x >= 1 ==> x * t >= 1,
        x == 0 ==> x * t == 0,
{
    assert((x * t < y * t) == (x < y)) by (nonlinear_arith)
        requires
            t >= 1,
    ;
    assert(x >= 1 ==> x * t >= 1) by (nonlinear_arith)
        requires
            t >= 1,
    ;
    assert(x == 0 ==> x * t == 0) by (nonlinear_arith);
}

/// What `dec_close` says, in units of the lower of the two exponents.
proof fn close_in_units(hi: Decimal, lo: Decimal, x: int, y: int, d: int)
    requires
        hi.exp >= lo.exp,
        x == hi.size(lo.exp as int),
        y == lo.digits,
        d == (if hi.neg == lo.neg {
            abs_int(x - y)
        } else {
            x + y
        }),
    ensures
        x >= 0,
        d >= 0,
        lo.exp >= 0 ==> dec_close(hi, lo) == (d * 1_000_000_000 < max_int(x, y) || d == 0),
        lo.exp < 0 ==> dec_close(hi, lo) == (d * 1_000_000_000 < max_int(x, y) || d * 1_000_000_000
            < pow10((-lo.exp) as nat)),
{
    let el = lo.exp as int;
    let e = min_int(min_int(hi.exp as int, el), 0);
    let t = pow10((el - e) as nat) as int;
    pow10_positive((el - e) as nat);
    size_sign(hi, el);
    // Both sizes in units of `10^e` are those in units of `10^el` times `t`.
    assert(hi.size(e) == x * t) by {
        pow10_sum((hi.exp - el) as nat, (el - e) as nat);
        assert((hi.exp - e) as nat == (hi.exp - el) as nat + (el - e) as nat);
        let n = hi.digits as int;
        let p = pow10((hi.exp - el) as nat) as int;
        assert(n * (p * t) == (n * p) * t) by (nonlinear_arith);
    }
    assert(lo.size(e) == y * t) by {
        assert((lo.exp - e) as nat == (el - e) as nat);
    }
    let a = hi.scaled(e);
    let b = lo.scaled(e);
    assert(x * t >= 0 && y * t >= 0) by (nonlinear_arith)
        requires
            x >= 0,
            y >= 0,
            t >= 1,
    ;
    assert(abs_int(a - b) == d * t) by {
        assert((x - y) * t == x * t - y * t) by (nonlinear_arith);
        assert((y - x) * t == y * t - x * t) by (nonlinear_arith);
        assert((x + y) * t == x * t + y * t) by (nonlinear_arith);
        scale_order(t, x, y);
        scale_order(t, y, x);
    }
    let m = max_int(x, y);
    assert(max_int(abs_int(a), abs_int(b)) == m * t) by {
        scale_order(t, x, y);
        scale_order(t, y, x);
    }
    assert((d * t) * 1_000_000_000 == (d * 1_000_000_000) * t) by (nonlinear_arith);
    scale_order(t, d * 1_000_000_000, m);
    if el >= 0 {
        assert(e == 0);
        assert(pow10(0) == 1);
        scale_order(t, d, 0);
        assert(d >= 1 ==> (d * 1_000_000_000) * t >= 1) by (nonlinear_arith)
            requires
                t >= 1,
        ;
    } else {
        assert(e == el);
        assert(t == 1) by {
            assert(pow10(0) == 1);
        }
    }
}

/// `close` with the operand of the higher exponent first.
fn close_ordered(hi: Decimal, lo: Decimal) -> (r: bool)
    requires
        hi.exp >= lo.exp,
    ensures
        r == dec_close(hi, lo),
{
    let k: i128 = hi.exp as i128 - lo.exp as i128;
    let el: i128 = lo.exp as i128;
    let y: u128 = lo.digits as u128;
    let same_sign: bool = hi.neg == lo.neg;
    if k <= 19 || hi.digits == 0 {
        let x: u128 = if hi.digits == 0 {
            0
        } else {
            scale(hi.digits, k as u32)
        };
        proof {
            pow10_facts();
            size_sign(hi, lo.exp as int);
            if hi.digits > 0 {
                pow10_mono(k as nat, 19);
                let n = hi.digits as int;
                let p = pow10(k as nat) as int;
                assert(n * p <= 18_446_744_073_709_551_615 * 10_000_000_000_000_000_000)
                    by (nonlinear_arith)
                    requires
                        0 <= n <= 18_446_744_073_709_551_615,
                        0 <= p <= 10_000_000_000_000_000_000,
                ;
            }
        }
        let d: u128 = if same_sign {
            if x >= y {
                x - y
            } else {
                y - x
            }
        } else {
            x + y
        };
        let m: u128 = if x >= y {
            x
        } else {
            y
        };
        proof {
            close_in_units(hi, lo, x as int, y as int, d as int);
        }
        let near: bool = m > 0 && d <= (m - 1) / 1_000_000_000;
        assert(near == (d * 1_000_000_000 < m));
        if el >= 0 {
            near || d == 0
        } else {
            near || below_billionth(d, -el)
        }
    } else {
        let ghost x = hi.size(lo.exp as int);
        let ghost d = if same_sign {
            abs_int(x - y)
        } else {
            x + y
        };
        proof {
            pow10_facts();
            big_power(hi.digits, k as nat);
            close_in_units(hi, lo, x, y as int, d);
            // The higher operand outweighs the lower one, so the difference
            // is far above a billionth of it.
            pow10_mono(20, k as nat);
            assert(x >= pow10(k as nat));
            assert(d >= x - y);
            assert(max_int(x, y as int) == x);
            assert(d * 1_000_000_000 >= x);
            assert(d > 0);
        }
        if el >= 0 {
            return false;
        }
        let q: i128 = -el - 9;
        let ghost p = (-el) as nat;
        if q < k {
            proof {
                // 10^p is at most 10^(k+8), and the difference at least 10^(k-1).
                pow10_mono(p, (k + 8) as nat);
                pow10_sum((k - 1) as nat, 9);
                let c = pow10((k - 1) as nat) as int;
                assert(pow10(k as nat) == 10 * c);
                pow10_mono(19, (k - 1) as nat);
                assert(d >= c);
                assert(d * 1_000_000_000 >= c * 1_000_000_000) by (nonlinear_arith)
                    requires
                        d >= c,
                ;
            }
            return false;
        }
        // 10^p is 10^9 times t times 10^k.
        let w: i128 = q - k;
        let ghost t = pow10(w as nat) as int;
        let ghost u = pow10(k as nat) as int;
        let ghost n = hi.digits as int;
        proof {
            pow10_sum(w as nat, k as nat);
            pow10_sum((w + k) as nat, 9);
            assert(p == w + k + 9);
            assert(x == n * u);
            assert(pow10(p) == (t * u) * 1_000_000_000);
            assert((d * 1_000_000_000 < (t * u) * 1_000_000_000) == (d < t * u)) by (nonlinear_arith);
            scale_order(u, n, t);
            assert((n - t) * u == n * u - t * u) by (nonlinear_arith);
            assert((t - n) * u == t * u - n * u) by (nonlinear_arith);
            assert(n < t ==> (t - n) * u >= u) by (nonlinear_arith)
                requires
                    u >= 1,
            ;
            assert(n > t ==> (n - t) * u >= u) by (nonlinear_arith)
                requires
                    u >= 1,
            ;
            assert(n == t ==> n * u == t * u);
        }
        if w >= 20 {
            proof {
                pow10_mono(20, w as nat);
            }
            return true;
        }
        let tt: u128 = power(w as u32);
        if same_sign && lo.digits > 0 {
            hi.digits as u128 <= tt
        } else {
            (hi.digits as u128) < tt
        }
    }
}

impl Num {
    /// Whether this number is below `other`.
    pub fn less(self, other: Num) -> (r: bool)
        ensures
            r == num_lt(self, other),
    {
        match (self, other) {
            (Num::NotANumber, _) => false,
            (_, Num::NotANumber) => false,
            (Num::Infinite { neg }, Num::Infinite { neg: right }) => neg && !right,
            (Num::Infinite { neg }, Num::Finite(_)) => neg,
            (Num::Finite(_), Num::Infinite { neg }) => !neg,
            (Num::Finite(x), Num::Finite(y)) => x.less(y),
        }
    }

    /// Whether this number is below or equal to `other`.
    pub fn at_most(self, other: Num) -> (r: bool)
        ensures
            r == num_le(self, other),
    {
        match (self, other) {
            (Num::NotANumber, _) => false,
            (_, Num::NotANumber) => false,
            _ => !other.less(self),
        }
    }

    /// Whether this number counts as equal to `other`.
    pub fn close(self, other: Num) -> (r: bool)
        ensures
            r == num_close(self, other),
    {
        match (self, other) {
            (Num::Finite(x), Num::Finite(y)) => x.close(y),
            _ => false,
        }
    }
}

// ---------------------------------------------------------------------------
// Reading
// ---------------------------------------------------------------------------

/// What an optionally signed run of digits denotes, where it fits a signed
/// 64-bit integer.
pub open spec fn signed(s: Seq<char>) -> Option<int> {
    let neg = s.len() > 0 && s[0] == '-';
    let t = unsigned_part(s);
    if t.len() > 0 && all_digits(t) {
        let v = if neg {
            -digits_value(t)
        } else {
            digits_value(t)
        };
        if i64::MIN <= v <= i64::MAX {
            Some(v)
        } else {
            None
        }
    } else {
        None
    }
}

/// `s` without a leading sign.
pub open spec fn unsigned_part(s: Seq<char>) -> Seq<char> {
    if s.len() > 0 && (s[0] == '-' || s[0] == '+') {
        s.subrange(1, s.len() as int)
    } else {
        s
    }
}

/// Drops a leading sign.
fn without_sign<'a>(s: &'a [char]) -> (r: &'a [char])
    ensures
        r@ == unsigned_part(s@),
{
    if s.len() > 0 && (s[0] == '-' || s[0] == '+') {
        slice_subrange(s, 1, s.len())
    } else {
        s
    }
}

/// Reads an optionally signed integer.
pub fn read_signed(s: &[char]) -> (r: Option<i64>)
    ensures
        match r {
            Some(v) => signed(s@) == Some(v as int),
            None => signed(s@) is None,
        },
{
    let neg: bool = s.len() > 0 && s[0] == '-';
    let t = without_sign(s);
    match read_digits(t, 9_223_372_036_854_775_808) {
        Some(v) => if neg {
            Some((-(v as i128)) as i64)
        } else if v <= 9_223_372_036_854_775_807 {
            Some(v as i64)
        } else {
            None
        },
        None => {
            proof {
                if t@.len() > 0 && all_digits(t@) {
                    digits_value_grows(t@, 0);
                }
            }
            None
        },
    }
}

/// The length of the digits that `s` begins with.
pub open spec fn digit_run(s: Seq<char>) -> int
    decreases s.len(),
{
    if s.len() > 0 && is_digit(s[0]) {
        1 + digit_run(s.drop_first())
    } else {
        0
    }
}

proof fn digit_run_digits(s: Seq<char>)
    ensures
        0 <= digit_run(s) <= s.len(),
        all_digits(s.subrange(0, digit_run(s))),
    decreases s.len(),
{
    if s.len() > 0 && is_digit(s[0]) {
        let rest = s.drop_first();
        digit_run_digits(rest);
        let run = s.subrange(0, digit_run(s));
        assert forall|i: int| 0 <= i < run.len() implies is_digit(#[trigger] run[i]) by {
            if i > 0 {
                assert(rest.subrange(0, digit_run(rest))[i - 1] == run[i]);
            }
        }
    }
}

/// The length of the digits that `s` begins with.
fn leading_digits(s: &[char]) -> (r: usize)
    ensures
        r == digit_run(s@),
        r <= s@.len(),
        all_digits(s@.subrange(0, r as int)),
{
    let mut i: usize = 0;
    assert(s@.subrange(0, s@.len() as int) =~= s@);
    while i < s.len() && is_digit_char(s[i])
        invariant
            i <= s@.len(),
            digit_run(s@) == i + digit_run(s@.subrange(i as int, s@.len() as int)),
        decreases s@.len() - i,
    {
        assert(s@.subrange(i as int, s@.len() as int).drop_first() =~= s@.subrange(
            i + 1,
            s@.len() as int,
        ));
        i = i + 1;
    }
    proof {
        digit_run_digits(s@);
    }
    i
}

/// The exponent part of a number: nothing, or `e`, an optional sign and
/// digits.  Exponents beyond a million count as a million.
pub open spec fn exponent(s: Seq<char>) -> Option<int> {
    if s.len() == 0 {
        Some(0)
    } else if s[0] == 'e' || s[0] == 'E' {
        let u = s.subrange(1, s.len() as int);
        let neg = u.len() > 0 && u[0] == '-';
        let v = unsigned_part(u);
        if v.len() > 0 && all_digits(v) {
            let n = min_int(digits_value(v), 1_000_000);
            Some(
                if neg {
                    -n
                } else {
                    n
                },
            )
        } else {
            None
        }
    } else {
        None
    }
}

/// Reads the exponent part of a number.
fn read_exponent(s: &[char]) -> (r: Option<i64>)
    ensures
        match r {
            Some(v) => exponent(s@) == Some(v as int) && -1_000_000 <= v <= 1_000_000,
            None => exponent(s@) is None,
        },
{
    if s.len() == 0 {
        return Some(0);
    }
    if !(s[0] == 'e' || s[0] == 'E') {
        return None;
    }
    let u = slice_subrange(s, 1, s.len());
    let neg: bool = u.len() > 0 && u[0] == '-';
    let v = without_sign(u);
    if v.len() == 0 || leading_digits(v) != v.len() {
        proof {
            if all_digits(v@) {
                all_digits_run(v@);
            }
        }
        return None;
    }
    assert(v@.subrange(0, v@.len() as int) =~= v@);
    proof {
        digits_value_grows(v@, 0);
    }
    let n: i64 = match read_digits(v, 1_000_000) {
        Some(x) => x as i64,
        None => 1_000_000,
    };
    if neg {
        Some(-n)
    } else {
        Some(n)
    }
}

proof fn all_digits_run(s: Seq<char>)
    requires
        all_digits(s),
    ensures
        digit_run(s) == s.len(),
    decreases s.len(),
{
    if s.len() > 0 {
        let rest = s.drop_first();
        assert(is_digit(s[0]));
        assert forall|i: int| 0 <= i < rest.len() implies is_digit(#[trigger] rest[i]) by {
            assert(rest[i] == s[i + 1]);
        }
        all_digits_run(rest);
    }
}

/// The digits of an unsigned decimal number, and its exponent.
pub open spec fn decimal_parts(t: Seq<char>) -> Option<(Seq<char>, int)> {
    let i = digit_run(t);
    let rest = t.subrange(i, t.len() as int);
    let dot = rest.len() > 0 && rest[0] == '.';
    let after = rest.subrange(1, rest.len() as int);
    let f = if dot {
        digit_run(after)
    } else {
        0
    };
    let frac = if dot {
        after.subrange(0, f)
    } else {
        Seq::empty()
    };
    let tail = if dot {
        after.subrange(f, after.len() as int)
    } else {
        rest
    };
    if i + f == 0 {
        None
    } else {
        match exponent(tail) {
            None => None,
            Some(e) => Some((t.subrange(0, i) + frac, e - f)),
        }
    }
}

/// `s` without leading zeros.
pub open spec fn strip_zeros(s: Seq<char>) -> Seq<char>
    decreases s.len(),
{
    if s.len() > 0 && s[0] == '0' {
        strip_zeros(s.drop_first())
    } else {
        s
    }
}

/// The exponent, kept within bounds that no written number reaches.
pub open spec fn clamp_exp(e: int) -> int {
    if e < -1_000_000_000_000_000_000 {
        -1_000_000_000_000_000_000
    } else if e > 1_000_000_000_000_000_000 {
        1_000_000_000_000_000_000
    } else {
        e
    }
}

/// The number with these digits and exponent.  The first eighteen significant
/// digits count; numbers of more than 309 digits before the point are infinite.
pub open spec fn number_of(neg: bool, digits: Seq<char>, exp: int) -> Num {
    let d = strip_zeros(digits);
    let kept = if d.len() > 18 {
        d.subrange(0, 18)
    } else {
        d
    };
    if d.len() > 0 && d.len() + exp > 309 {
        Num::Infinite { neg }
    } else {
        Num::Finite(
            Decimal {
                neg,
                digits: digits_value(kept) as u64,
                exp: clamp_exp(exp + d.len() - kept.len()) as i64,
            },
        )
    }
}

/// An ASCII letter in lower case; every other character as it is.
pub open spec fn ascii_lower(c: char) -> int {
    if 65 <= (c as int) <= 90 {
        c as int + 32
    } else {
        c as int
    }
}

/// Whether `s` spells `word`, whatever the case of its ASCII letters.
pub open spec fn spells(s: Seq<char>, word: Seq<char>) -> bool {
    s.len() == word.len() && forall|i: int|
        0 <= i < s.len() ==> ascii_lower(#[trigger] s[i]) == word[i] as int
}

/// The number that a text denotes: an optional sign, then `inf`, `infinity`,
/// `nan` or a decimal number.
pub open spec fn number_text(s: Seq<char>) -> Option<Num> {
    let neg = s.len() > 0 && s[0] == '-';
    let t = unsigned_part(s);
    if spells(t, seq!['i', 'n', 'f']) || spells(
        t,
        seq!['i', 'n', 'f', 'i', 'n', 'i', 't', 'y'],
    ) {
        Some(Num::Infinite { neg })
    } else if spells(t, seq!['n', 'a', 'n']) {
        Some(Num::NotANumber)
    } else {
        match decimal_parts(t) {
            None => None,
            Some((digits, exp)) => Some(number_of(neg, digits, exp)),
        }
    }
}

/// Whether `s` spells `word`.
fn is_spelled(s: &[char], word: &[char]) -> (r: bool)
    ensures
        r == spells(s@, word@),
{
    if s.len() != word.len() {
        return false;
    }
    let mut i: usize = 0;
    while i < s.len()
        invariant
            s@.len() == word@.len(),
            i <= s@.len(),
            forall|j: int| 0 <= j < i ==> ascii_lower(#[trigger] s@[j]) == word@[j] as int,
        decreases s@.len() - i,
    {
        let c: u32 = code_point(s[i]);
        let w: u32 = code_point(word[i]);
        let l: u32 = if c >= 65 && c <= 90 {
            c + 32
        } else {
            c
        };
        if l != w {
            assert(ascii_lower(s@[i as int]) != word@[i as int] as int);
            return false;
        }
        i = i + 1;
    }
    true
}

/// Digits below `10^n` where there are `n` of them.
proof fn digits_value_bound(s: Seq<char>)
    requires
        all_digits(s),
    ensures
        0 <= digits_value(s) < pow10(s.len()),
    decreases s.len(),
{
    if s.len() > 0 {
        let rest = s.drop_last();
        assert forall|i: int| 0 <= i < rest.len() implies is_digit(#[trigger] rest[i]) by {
            assert(rest[i] == s[i]);
        }
        digits_value_bound(rest);
        assert(is_digit(s[s.len() - 1]));
        assert(pow10(s.len()) == 10 * pow10(rest.len()));
    }
}

/// The number with these digits and exponent.
fn build_number(neg: bool, digits: &[char], exp: i128) -> (r: Num)
    requires
        all_digits(digits@),
        -100_000_000_000_000_000_000 <= exp <= 100_000_000_000_000_000_000,
    ensures
        r == number_of(neg, digits@, exp as int),
{
    let mut i: usize = 0;
    assert(digits@.subrange(0, digits@.len() as int) =~= digits@);
    while i < digits.len() && digits[i] == '0'
        invariant
            i <= digits@.len(),
            strip_zeros(digits@) == strip_zeros(digits@.subrange(i as int, digits@.len() as int)),
        decreases digits@.len() - i,
    {
        assert(digits@.subrange(i as int, digits@.len() as int).drop_first() =~= digits@.subrange(
            i + 1,
            digits@.len() as int,
        ));
        i = i + 1;
    }
    let d = slice_subrange(digits, i, digits.len());
    assert(d@ == strip_zeros(digits@));
    assert forall|j: int| 0 <= j < d@.len() implies is_digit(#[trigger] d@[j]) by {
        assert(d@[j] == digits@[i + j]);
    }
    if d.len() > 0 && d.len() as i128 + exp > 309 {
        return Num::Infinite { neg };
    }
    let n: usize = if d.len() > 18 {
        18
    } else {
        d.len()
    };
    let kept = slice_subrange(d, 0, n);
    assert(n == d@.len() ==> kept@ =~= d@);
    assert forall|j: int| 0 <= j < kept@.len() implies is_digit(#[trigger] kept@[j]) by {
        assert(kept@[j] == d@[j]);
    }
    proof {
        digits_value_bound(kept@);
        pow10_facts();
        pow10_mono(kept@.len(), 19);
    }
    let value: u64 = match read_digits(kept, u64::MAX) {
        Some(v) => v,
        None => 0,
    };
    let e: i128 = exp + (d.len() - n) as i128;
    let bounded: i64 = if e < -1_000_000_000_000_000_000 {
        -1_000_000_000_000_000_000
    } else if e > 1_000_000_000_000_000_000 {
        1_000_000_000_000_000_000
    } else {
        e as i64
    };
    Num::Finite(Decimal { neg, digits: value, exp: bounded })
}

/// Reads a number of the expression language.
pub fn read_number(s: &[char]) -> (r: Option<Num>)
    ensures
        r == number_text(s@),
{
    let neg: bool = s.len() > 0 && s[0] == '-';
    let t = without_sign(s);
    if is_spelled(t, &['i', 'n', 'f']) || is_spelled(
        t,
        &['i', 'n', 'f', 'i', 'n', 'i', 't', 'y'],
    ) {
        assert(['i', 'n', 'f']@ =~= seq!['i', 'n', 'f']);
        assert(['i', 'n', 'f', 'i', 'n', 'i', 't', 'y']@ =~= seq![
            'i',
            'n',
            'f',
            'i',
            'n',
            'i',
            't',
            'y',
        ]);
        return Some(Num::Infinite { neg });
    }
    assert(['i', 'n', 'f']@ =~= seq!['i', 'n', 'f']);
    assert(['i', 'n', 'f', 'i', 'n', 'i', 't', 'y']@ =~= seq![
        'i',
        'n',
        'f',
        'i',
        'n',
        'i',
        't',
        'y',
    ]);
    assert(['n', 'a', 'n']@ =~= seq!['n', 'a', 'n']);
    if is_spelled(t, &['n', 'a', 'n']) {
        return Some(Num::NotANumber);
    }
    let i: usize = leading_digits(t);
    let rest = slice_subrange(t, i, t.len());
    let dot: bool = rest.len() > 0 && rest[0] == '.';
    let mut digits: Vec<char> = Vec::new();
    push_chars(&mut digits, slice_subrange(t, 0, i));
    let mut f: usize = 0;
    let mut tail = rest;
    assert(digits@ =~= t@.subrange(0, i as int) + Seq::<char>::empty());
    if dot {
        let after = slice_subrange(rest, 1, rest.len());
        f = leading_digits(after);
        push_chars(&mut digits, slice_subrange(after, 0, f));
        tail = slice_subrange(after, f, after.len());
        assert(digits@ =~= t@.subrange(0, i as int) + after@.subrange(0, f as int));
        assert forall|j: int| 0 <= j < digits@.len() implies is_digit(#[trigger] digits@[j]) by {
            if j < i {
                assert(t@.subrange(0, i as int)[j] == digits@[j]);
            } else {
                assert(after@.subrange(0, f as int)[j - i] == digits@[j]);
            }
        }
    }
    if i == 0 && f == 0 {
        return None;
    }
    match read_exponent(tail) {
        None => None,
        Some(e) => Some(build_number(neg, digits.as_slice(), e as i128 - f as i128)),
    }
}

// ---------------------------------------------------------------------------
// Writing
// ---------------------------------------------------------------------------

/// The same number with no trailing zero among its digits.
pub open spec fn canonical(d: Decimal) -> Decimal
    decreases d.digits,
{
    if d.digits == 0 {
        Decimal { neg: d.neg, digits: 0, exp: 0 }
    } else if d.digits % 10 == 0 && d.exp < i64::MAX {
        canonical(Decimal { neg: d.neg, digits: d.digits / 10, exp: (d.exp + 1) as i64 })
    } else {
        d
    }
}

/// `n` zeros.
pub open spec fn zeros(n: int) -> Seq<char> {
    Seq::new(n as nat, |i: int| '0')
}

/// The digits and exponent part of a decimal number as JSON writes it: plainly
/// while the point stands within sixteen digits, with an exponent beyond.
pub open spec fn float_body(c: Decimal) -> Seq<char> {
    let d = decimal(c.digits as nat);
    let n = d.len() as int;
    let k = n + c.exp;
    if c.digits == 0 {
        seq!['0', '.', '0']
    } else if c.exp >= 0 && k <= 16 {
        d + zeros(c.exp as int) + seq!['.', '0']
    } else if 0 < k <= 16 {
        d.subrange(0, k) + seq!['.'] + d.subrange(k, n)
    } else if -5 < k <= 0 {
        seq!['0', '.'] + zeros(-k) + d
    } else {
        (if n == 1 {
            d
        } else {
            d.subrange(0, 1) + seq!['.'] + d.subrange(1, n)
        }) + (if k >= 1 {
            seq!['e', '+'] + decimal((k - 1) as nat)
        } else {
            seq!['e', '-'] + decimal((1 - k) as nat)
        })
    }
}

/// A decimal number as JSON writes it.
pub open spec fn float_text(number: Decimal) -> Seq<char> {
    let c = canonical(number);
    if c.neg {
        seq!['-'] + float_body(c)
    } else {
        float_body(c)
    }
}

/// An integer in decimal.
pub open spec fn int_text(v: int) -> Seq<char> {
    if v < 0 {
        seq!['-'] + decimal((-v) as nat)
    } else {
        decimal(v as nat)
    }
}

/// A JSON number as text.
pub open spec fn json_number_text(n: Number) -> Seq<char> {
    match n {
        Number::Int(v) => int_text(v as int),
        Number::UInt(v) => int_text(v as int),
        Number::Float(d) => float_text(d),
    }
}

fn push_zeros(out: &mut Vec<char>, n: i64)
    requires
        n >= 0,
    ensures
        final(out)@ == old(out)@ + zeros(n as int),
{
    let mut i: i64 = 0;
    assert(out@ =~= old(out)@ + zeros(0));
    while i < n
        invariant
            0 <= i <= n,
            out@ == old(out)@ + zeros(i as int),
        decreases n - i,
    {
        out.push('0');
        i = i + 1;
        assert(out@ =~= old(out)@ + zeros(i as int));
    }
}

fn to_canonical(number: Decimal) -> (r: Decimal)
    ensures
        r == canonical(number),
{
    let mut d: Decimal = number;
    while d.digits != 0 && d.digits % 10 == 0 && d.exp < i64::MAX
        invariant
            canonical(d) == canonical(number),
        decreases d.digits,
    {
        d = Decimal { neg: d.neg, digits: d.digits / 10, exp: d.exp + 1 };
    }
    if d.digits == 0 {
        Decimal { neg: d.neg, digits: 0, exp: 0 }
    } else {
        d
    }
}

proof fn decimal_len(n: nat)
    ensures
        decimal(n).len() >= 1,
    decreases n,
{
    if n >= 10 {
        decimal_len(n / 10);
    }
}

/// The digits and exponent part of a decimal number as JSON writes it.
fn float_chars(c: Decimal) -> (r: Vec<char>)
    ensures
        r@ == float_body(c),
{
    let mut out: Vec<char> = Vec::new();
    let mut digits: Vec<char> = Vec::new();
    push_decimal(&mut digits, c.digits as u128);
    let ghost d = decimal(c.digits as nat);
    assert(digits@ =~= d);
    proof {
        decimal_len(c.digits as nat);
    }
    let n: i128 = digits.len() as i128;
    let k: i128 = n + c.exp as i128;
    if c.digits == 0 {
        out.push('0');
        out.push('.');
        out.push('0');
        assert(out@ =~= float_body(c));
    } else if c.exp >= 0 && k <= 16 {
        push_chars(&mut out, digits.as_slice());
        push_zeros(&mut out, c.exp);
        out.push('.');
        out.push('0');
        assert(out@ =~= d + zeros(c.exp as int) + seq!['.', '0']);
    } else if 0 < k && k <= 16 {
        push_chars(&mut out, slice_subrange(digits.as_slice(), 0, k as usize));
        out.push('.');
        push_chars(&mut out, slice_subrange(digits.as_slice(), k as usize, digits.len()));
        assert(out@ =~= d.subrange(0, k as int) + seq!['.'] + d.subrange(k as int, n as int));
    } else if -5 < k && k <= 0 {
        out.push('0');
        out.push('.');
        push_zeros(&mut out, (-k) as i64);
        push_chars(&mut out, digits.as_slice());
        assert(out@ =~= seq!['0', '.'] + zeros(-k as int) + d);
    } else {
        if n == 1 {
            push_chars(&mut out, digits.as_slice());
            assert(out@ =~= d);
        } else {
            push_chars(&mut out, slice_subrange(digits.as_slice(), 0, 1));
            out.push('.');
            push_chars(&mut out, slice_subrange(digits.as_slice(), 1, digits.len()));
            assert(out@ =~= d.subrange(0, 1) + seq!['.'] + d.subrange(1, n as int));
        }
        let ghost lead = out@;
        out.push('e');
        if k >= 1 {
            out.push('+');
            assert(out@ =~= lead + seq!['e', '+']);
            push_decimal(&mut out, (k - 1) as u128);
            assert(out@ =~= lead + (seq!['e', '+'] + decimal((k - 1) as nat)));
        } else {
            out.push('-');
            assert(out@ =~= lead + seq!['e', '-']);
            push_decimal(&mut out, (1 - k) as u128);
            assert(out@ =~= lead + (seq!['e', '-'] + decimal((1 - k) as nat)));
        }
    }
    out
}

/// Appends a decimal number as JSON writes it.
fn push_float(out: &mut Vec<char>, number: Decimal)
    ensures
        final(out)@ == old(out)@ + float_text(number),
{
    let c = to_canonical(number);
    let body = float_chars(c);
    if c.neg {
        out.push('-');
        push_chars(out, body.as_slice());
        assert(out@ =~= old(out)@ + (seq!['-'] + body@));
    } else {
        push_chars(out, body.as_slice());
    }
}

/// Appends a JSON number.
pub fn push_number(out: &mut Vec<char>, number: Number)
    ensures
        final(out)@ == old(out)@ + json_number_text(number),
{
    match number {
        Number::Int(v) => {
            let w: i128 = v as i128;
            if w < 0 {
                out.push('-');
                push_decimal(out, (-w) as u128);
            } else {
                push_decimal(out, w as u128);
            }
            assert(out@ =~= old(out)@ + json_number_text(number));
        },
        Number::UInt(v) => push_decimal(out, v as u128),
        Number::Float(d) => push_float(out, d),
    }
}

impl Number {
    /// The number as text.
    pub fn to_text(self) -> (r: String)
        ensures
            r@ == json_number_text(self),
    {
        let mut out: Vec<char> = Vec::new();
        push_number(&mut out, self);
        assert(out@ =~= json_number_text(self));
        text_of(out.as_slice())
    }

    /// The integer that the number is, if it is one that fits.
    pub open spec fn unsigned_spec(self) -> Option<u64> {
        match self {
            Number::Int(v) => if v >= 0 {
                Some(v as u64)
            } else {
                None
            },
            Number::UInt(v) => Some(v),
            Number::Float(_) => None,
        }
    }

    /// The number as an unsigned integer, if it is one.
    pub fn as_u64(self) -> (r: Option<u64>)
        ensures
            r == self.unsigned_spec(),
    {
        match self {
            Number::Int(v) => if v >= 0 {
                Some(v as u64)
            } else {
                None
            },
            Number::UInt(v) => Some(v),
            Number::Float(_) => None,
        }
    }

    /// The number as the expression language sees it.
    pub open spec fn num(self) -> Num {
        match self {
            Number::Int(v) => Num::Finite(
                Decimal {
                    neg: v < 0,
                    digits: abs_int(v as int) as u64,
                    exp: 0,
                },
            ),
            Number::UInt(v) => Num::Finite(Decimal { neg: false, digits: v, exp: 0 }),
            Number::Float(d) => Num::Finite(d),
        }
    }

    /// The number as the expression language sees it.
    pub fn to_num(self) -> (r: Num)
        ensures
            r == self.num(),
    {
        match self {
            Number::Int(v) => {
                let w: i128 = v as i128;
                let size: u64 = if w < 0 {
                    (-w) as u64
                } else {
                    w as u64
                };
                Num::Finite(Decimal { neg: v < 0, digits: size, exp: 0 })
            },
            Number::UInt(v) => Num::Finite(Decimal { neg: false, digits: v, exp: 0 }),
            Number::Float(d) => Num::Finite(d),
        }
    }
}

/// The JSON number that a number of the expression language becomes: zero
/// where JSON has none for it.
pub open spec fn json_number(n: Num) -> Number {
    match n {
        Num::Finite(d) => Number::Float(canonical(d)),
        _ => Number::Int(0),
    }
}

/// The JSON number for a number of the expression language.
pub fn to_json_number(n: Num) -> (r: Number)
    ensures
        r == json_number(n),
{
    match n {
        Num::Finite(d) => Number::Float(to_canonical(d)),
        _ => Number::Int(0),
    }
}

/// The text of a number of the expression language.
pub open spec fn num_text(n: Num) -> Seq<char> {
    match n {
        Num::Finite(d) => float_text(d),
        Num::Infinite { neg } => if neg {
            seq!['-', 'i', 'n', 'f']
        } else {
            seq!['i', 'n', 'f']
        },
        Num::NotANumber => seq!['N', 'a', 'N'],
    }
}

/// Appends a number of the expression language.
pub fn push_num(out: &mut Vec<char>, n: Num)
    ensures
        final(out)@ == old(out)@ + num_text(n),
{
    match n {
        Num::Finite(d) => push_float(out, d),
        Num::Infinite { neg } => {
            if neg {
                out.push('-');
            }
            out.push('i');
            out.push('n');
            out.push('f');
            assert(out@ =~= old(out)@ + num_text(n));
        },
        Num::NotANumber => {
            out.push('N');
            out.push('a');
            out.push('N');
            assert(out@ =~= old(out)@ + num_text(n));
        },
    }
}

// ---------------------------------------------------------------------------
// Laws
// ---------------------------------------------------------------------------

/// A number written in digits is that number.
pub proof fn digits_are_a_number(n: nat)
    requires
        n < 1_000_000_000_000_000_000,
    ensures
        number_text(decimal(n)) == Some(Number::Int(n as i64).num()),
        signed(decimal(n)) == Some(n as int),
{
    let s = decimal(n);
    crate::text::decimal_is_read_back(n);
    assert(is_digit(s[0]));
    assert(unsigned_part(s) == s);
    run_of_digits(s);
    assert(s.subrange(0, s.len() as int) =~= s);
    assert(s.subrange(s.len() as int, s.len() as int) =~= Seq::empty());
    assert(s + Seq::<char>::empty() =~= s);
    assert(pow10(18) == 1_000_000_000_000_000_000) by {
        reveal_with_fuel(pow10, 19);
    }
    decimal_length(n, 18);
    if n == 0 {
        assert(s.drop_first() =~= Seq::empty());
        assert(strip_zeros(s) =~= Seq::empty()) by {
            reveal_with_fuel(strip_zeros, 2);
        }
    }
    assert(number_of(false, s, 0) == Number::Int(n as i64).num());
}

proof fn run_of_digits(s: Seq<char>)
    requires
        all_digits(s),
    ensures
        digit_run(s) == s.len(),
    decreases s.len(),
{
    if s.len() > 0 {
        assert(is_digit(s[0]));
        let rest = s.drop_first();
        assert forall|i: int| 0 <= i < rest.len() implies is_digit(#[trigger] rest[i]) by {
            assert(rest[i] == s[i + 1]);
        }
        run_of_digits(rest);
    }
}

proof fn decimal_length(n: nat, k: nat)
    requires
        k > 0,
        n < pow10(k),
    ensures
        decimal(n).len() <= k,
    decreases n,
{
    if n >= 10 {
        if k == 1 {
            assert(pow10(1) == 10 * pow10(0));
        } else {
            assert(n / 10 < pow10((k - 1) as nat));
            decimal_length(n / 10, (k - 1) as nat);
        }
    }
}

/// An integer counts in ones.
pub proof fn integers_scale_to_themselves(a: i64)
    ensures
        Number::Int(a).num() matches Num::Finite(d) && d.exp == 0 && d.scaled(0) == a,
{
    let d = Number::Int(a).num()->Finite_0;
    assert(pow10(0) == 1);
    assert(d.digits * 1 == d.digits) by (nonlinear_arith);
}

proof fn value_in_parts(a: Seq<char>, b: Seq<char>)
    ensures
        digits_value(a + b) == digits_value(a) * pow10(b.len()) + digits_value(b),
    decreases b.len(),
{
    if b.len() == 0 {
        assert(a + b =~= a);
        assert(pow10(0) == 1);
        assert(digits_value(a) * 1 == digits_value(a)) by (nonlinear_arith);
    } else {
        value_in_parts(a, b.drop_last());
        assert((a + b).drop_last() =~= a + b.drop_last());
        let x = digits_value(a);
        let p = pow10((b.len() - 1) as nat) as int;
        let y = digits_value(b.drop_last());
        assert((x * p + y) * 10 == x * (10 * p) + y * 10) by (nonlinear_arith);
    }
}

proof fn leading_zeros_count_nothing(s: Seq<char>)
    ensures
        digits_value(strip_zeros(s)) == digits_value(s),
        strip_zeros(s).len() <= s.len(),
    decreases s.len(),
{
    if s.len() > 0 && s[0] == '0' {
        leading_zeros_count_nothing(s.drop_first());
        let zero = seq!['0'];
        value_in_parts(zero, s.drop_first());
        assert(zero + s.drop_first() =~= s);
        assert(digits_value(zero) == 0) by {
            assert(zero.drop_last() =~= Seq::empty());
            reveal_with_fuel(digits_value, 2);
        }
        let p = pow10(s.drop_first().len()) as int;
        assert(0 * p == 0) by (nonlinear_arith);
    }
}

proof fn run_up_to(d: Seq<char>, rest: Seq<char>)
    requires
        all_digits(d),
        rest.len() > 0 && !is_digit(rest[0]),
    ensures
        digit_run(d + rest) == d.len(),
    decreases d.len(),
{
    if d.len() > 0 {
        let tail = d.drop_first();
        assert(is_digit(d[0]));
        assert forall|i: int| 0 <= i < tail.len() implies is_digit(#[trigger] tail[i]) by {
            assert(tail[i] == d[i + 1]);
        }
        run_up_to(tail, rest);
        assert((d + rest).drop_first() =~= tail + rest);
    } else {
        assert(d + rest =~= rest);
    }
}

/// Digits, a point and digits are that decimal number: all digits together, in
/// units of as many decimal places as stand behind the point.  A minus sign before
/// them makes it negative.
pub proof fn points_divide_whole_and_parts(n: nat, f: Seq<char>)
    requires
        all_digits(f),
        decimal(n).len() + f.len() <= 18,
    ensures
        ({
            let s = decimal(n) + seq!['.'] + f;
            let v = n * pow10(f.len()) + digits_value(f);
            &&& 0 <= v < pow10(18)
            &&& number_text(s) matches Some(Num::Finite(d)) && !d.neg && d.digits == v && d.exp
                == -(f.len() as int)
            &&& number_text(seq!['-'] + s) matches Some(Num::Finite(d)) && d.neg && d.digits == v
                && d.exp == -(f.len() as int)
        }),
{
    let w = decimal(n);
    let s = w + seq!['.'] + f;
    let m = seq!['-'] + s;
    crate::text::decimal_is_read_back(n);
    assert(is_digit(w[0]));
    assert(s[0] == w[0]);
    assert(unsigned_part(s) == s);
    assert(m.subrange(1, m.len() as int) =~= s);
    assert(unsigned_part(m) == s);
    parts_around_a_point(w, f);
    let digits = w + f;
    value_in_parts(w, f);
    leading_zeros_count_nothing(digits);
    assert forall|i: int| 0 <= i < digits.len() implies is_digit(#[trigger] digits[i]) by {
        if i < w.len() {
            assert(digits[i] == w[i]);
        } else {
            assert(digits[i] == f[i - w.len()]);
        }
    }
    digits_value_bound(digits);
    digits_value_grows(digits, 0);
    pow10_mono(digits.len(), 18);
    pow10_facts();
    pow10_mono(18, 19);
    assert(pow10(19) == 10 * pow10(18));
    assert(ascii_lower(s[0]) == s[0] as int);
    assert(!spells(s, seq!['i', 'n', 'f']));
    assert(!spells(s, seq!['i', 'n', 'f', 'i', 'n', 'i', 't', 'y']));
    assert(!spells(s, seq!['n', 'a', 'n']));
}

proof fn parts_around_a_point(w: Seq<char>, f: Seq<char>)
    requires
        w.len() > 0,
        all_digits(w),
        all_digits(f),
    ensures
        decimal_parts(w + seq!['.'] + f) == Some((w + f, -(f.len() as int))),
{
    let t = w + seq!['.'] + f;
    let rest = seq!['.'] + f;
    assert(t =~= w + rest);
    run_up_to(w, rest);
    assert(t.subrange(w.len() as int, t.len() as int) =~= rest);
    assert(rest.subrange(1, rest.len() as int) =~= f);
    run_of_digits(f);
    assert(f.subrange(0, f.len() as int) =~= f);
    assert(f.subrange(f.len() as int, f.len() as int) =~= Seq::empty());
    assert(t.subrange(0, w.len() as int) =~= w);
}

/// Decimals are ordered by what they come to in any units that both can be counted
/// in.
pub proof fn order_holds_in_any_units(a: Decimal, b: Decimal, e: int)
    requires
        e <= a.exp,
        e <= b.exp,
    ensures
        dec_lt(a, b) <==> a.scaled(e) < b.scaled(e),
{
    let m = min_int(a.exp as int, b.exp as int);
    let t = pow10((m - e) as nat) as int;
    pow10_positive((m - e) as nat);
    finer_units(a, m, e);
    finer_units(b, m, e);
    scale_order(t, a.scaled(m), b.scaled(m));
}

proof fn finer_units(a: Decimal, m: int, e: int)
    requires
        e <= m <= a.exp,
    ensures
        a.scaled(e) == a.scaled(m) * pow10((m - e) as nat),
{
    let p = pow10((a.exp - m) as nat) as int;
    let t = pow10((m - e) as nat) as int;
    pow10_sum((a.exp - m) as nat, (m - e) as nat);
    assert((a.exp - m) as nat + (m - e) as nat == (a.exp - e) as nat);
    let d = a.digits as int;
    assert(d * (p * t) == (d * p) * t) by (nonlinear_arith);
    assert((-(d * p)) * t == -((d * p) * t)) by (nonlinear_arith);
}

/// Every finite number lies between the infinite ones, and what is no number is
/// neither below, above nor equal to anything.
pub proof fn order_beyond_the_finite(a: Decimal, x: Num)
    ensures
        num_lt(Num::Infinite { neg: true }, Num::Finite(a)),
        num_lt(Num::Finite(a), Num::Infinite { neg: false }),
        num_lt(Num::Infinite { neg: true }, Num::Infinite { neg: false }),
        !num_lt(Num::NotANumber, x) && !num_lt(x, Num::NotANumber),
        !num_le(Num::NotANumber, x) && !num_le(x, Num::NotANumber),
        !num_close(Num::NotANumber, x) && !num_close(x, Num::NotANumber),
        !num_lt(x, x),
        !(x is NotANumber) ==> num_le(x, x),
{
}

} // verus!
