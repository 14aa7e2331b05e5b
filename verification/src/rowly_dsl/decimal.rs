//! Exact decimal values of the Rowly DSL: fractions with bounded numerator and denominator.

use vstd::prelude::*;

use crate::numbers::{
    digit_run_end, exponent_value, fraction_start, is_decimal_text, lemma_digit_run_all,
    mantissa_end, read_exponent, scan_digits, sign_end, decimal_text,
};
use crate::process::address::{all_digits, digits_value, lemma_decimal_digits, lemma_digits_value_monotone};
use crate::text::{decimal_digits, is_ascii_digit, push_decimal_digits, char_from_code, string_of};

verus! {

/// Largest magnitude of a numerator.
pub open spec fn numerator_bound() -> int {
    0x8000_0000_0000_0000
}

/// Largest denominator.
pub open spec fn denominator_bound() -> int {
    0x7fff_ffff_ffff_ffff
}

/// A fraction `numerator / denominator`; kept in lowest terms by the operations.
#[derive(Debug, Clone, Copy, PartialEq, Eq, Structural)]
pub struct Decimal {
    pub(crate) numerator: i128,
    pub(crate) denominator: i128,
}

impl Decimal {
    /// Within the bounds, with a positive denominator.
    #[verifier::type_invariant]
    pub closed spec fn wf(self) -> bool {
        &&& -numerator_bound() <= self.numerator <= numerator_bound()
        &&& 1 <= self.denominator <= denominator_bound()
    }
}

pub open spec fn gcd(a: nat, b: nat) -> nat
    decreases b,
{
    if b == 0 {
        a
    } else {
        gcd(b, a % b)
    }
}

pub proof fn lemma_gcd_bounds(a: nat, b: nat)
    requires
        b > 0,
    ensures
        0 < gcd(a, b) <= b,
    decreases b,
{
    assert(gcd(a, b) == gcd(b, a % b));
    if a % b != 0 {
        lemma_gcd_bounds(b, a % b);
    } else {
        assert(gcd(b, 0) == b);
    }
}

pub open spec fn abs(x: int) -> nat {
    if x < 0 {
        (-x) as nat
    } else {
        x as nat
    }
}

/// The fraction `n / d` (with `d > 0`) divided through by the greatest common divisor.
pub open spec fn reduce(n: int, d: int) -> (int, int) {
    let g = gcd(abs(n), d as nat) as int;
    if n < 0 {
        (-((abs(n) as int) / g), d / g)
    } else {
        (n / g, d / g)
    }
}

/// A fraction as a decimal value, when it lies within the bounds.
pub closed spec fn make_decimal(n: int, d: int) -> Option<Decimal> {
    let (rn, rd) = reduce(n, d);
    if -numerator_bound() <= rn <= numerator_bound() && 1 <= rd <= denominator_bound() {
        Some(Decimal { numerator: rn as i128, denominator: rd as i128 })
    } else {
        None
    }
}

fn gcd_exec(a: u128, b: u128) -> (g: u128)
    ensures
        g == gcd(a as nat, b as nat),
    decreases b,
{
    if b == 0 {
        a
    } else {
        gcd_exec(b, a % b)
    }
}

/// Reduces `n / d` and keeps it when it fits the bounds.
pub fn make(n: i128, d: i128) -> (result: Option<Decimal>)
    requires
        d > 0,
    ensures
        result == make_decimal(n as int, d as int),
        result matches Some(value) ==> value.wf(),
{
    let magnitude: u128 = if n < 0 {
        if n == i128::MIN {
            0x8000_0000_0000_0000_0000_0000_0000_0000u128
        } else {
            (-n) as u128
        }
    } else {
        n as u128
    };
    assert(magnitude == abs(n as int));
    let g = gcd_exec(magnitude, d as u128);
    proof {
        lemma_gcd_bounds(abs(n as int), d as nat);
    }
    let reduced_magnitude = magnitude / g;
    let reduced_denominator = (d as u128) / g;
    let ghost spec_g = gcd(abs(n as int), d as nat) as int;
    let ghost pair = reduce(n as int, d as int);
    assert(g as int == spec_g);
    assert(reduced_magnitude as int == (abs(n as int) as int) / spec_g);
    assert(reduced_denominator as int == (d as int) / spec_g);
    assert(pair.1 == reduced_denominator as int);
    if n < 0 {
        assert(pair.0 == -(reduced_magnitude as int));
    } else {
        assert(pair.0 == reduced_magnitude as int);
    }
    if reduced_magnitude > 0x8000_0000_0000_0000u128 || reduced_denominator > 0x7fff_ffff_ffff_ffffu128
        || reduced_denominator == 0 {
        return None;
    }
    let numerator: i128 = if n < 0 { -(reduced_magnitude as i128) } else { reduced_magnitude as i128 };
    Some(Decimal { numerator, denominator: reduced_denominator as i128 })
}

/// The greatest common divisor of two numbers, not both zero, is positive and divides both.
proof fn lemma_gcd_divides(a: nat, b: nat)
    requires
        a > 0 || b > 0,
    ensures
        gcd(a, b) > 0,
        a % gcd(a, b) == 0,
        b % gcd(a, b) == 0,
    decreases b,
{
    if b == 0 {
        assert(gcd(a, 0) == a);
        vstd::arithmetic::div_mod::lemma_mod_multiples_basic(1, a as int);
        vstd::arithmetic::div_mod::lemma_mod_multiples_basic(0, a as int);
    } else {
        let r = a % b;
        lemma_gcd_divides(b, r);
        let g = gcd(b, r);
        assert(gcd(a, b) == g);
        vstd::arithmetic::div_mod::lemma_fundamental_div_mod(a as int, b as int);
        vstd::arithmetic::div_mod::lemma_fundamental_div_mod(b as int, g as int);
        vstd::arithmetic::div_mod::lemma_fundamental_div_mod(r as int, g as int);
        let k = (b as int / g as int) * (a as int / b as int) + r as int / g as int;
        assert(a as int == k * g) by (nonlinear_arith)
            requires
                a as int == b as int * (a as int / b as int) + r as int,
                b as int == g as int * (b as int / g as int),
                r as int == g as int * (r as int / g as int),
                k == (b as int / g as int) * (a as int / b as int) + r as int / g as int,
        ;
        vstd::arithmetic::div_mod::lemma_mod_multiples_basic(k, g as int);
    }
}

/// The fraction that `make_decimal` keeps for `n / d` has the value `n / d`, with a
/// positive denominator.
proof fn lemma_make_value(n: int, d: int)
    requires
        d > 0,
    ensures
        make_decimal(n, d) matches Some(z) ==> z.numerator * d == n * z.denominator && z.denominator >= 1,
{
    let a = abs(n);
    let g = gcd(a, d as nat) as int;
    lemma_gcd_divides(a, d as nat);
    vstd::arithmetic::div_mod::lemma_fundamental_div_mod(a as int, g);
    vstd::arithmetic::div_mod::lemma_fundamental_div_mod(d, g);
    let (rn, rd) = reduce(n, d);
    assert(rd == d / g);
    assert(a as int == g * (a as int / g));
    assert(d == g * (d / g));
    if n < 0 {
        assert(rn == -(a as int / g));
        assert(n == -(a as int));
        assert(rn * d == n * rd) by (nonlinear_arith)
            requires
                rn == -(a as int / g),
                n == -(a as int),
                a as int == g * (a as int / g),
                d == g * rd,
        ;
    } else {
        assert(rn == n / g);
        assert(n == a as int);
        assert(rn * d == n * rd) by (nonlinear_arith)
            requires
                rn == a as int / g,
                n == a as int,
                a as int == g * (a as int / g),
                d == g * rd,
        ;
    }
}

/// Reducing a fraction never makes its numerator larger or its denominator larger, so a
/// fraction whose parts are within the bounds is always kept.
proof fn lemma_make_some(n: int, d: int)
    requires
        1 <= d <= denominator_bound(),
        -numerator_bound() <= n <= numerator_bound(),
    ensures
        make_decimal(n, d) is Some,
{
    let a = abs(n);
    lemma_gcd_bounds(a, d as nat);
    let g = gcd(a, d as nat) as int;
    assert(1 <= d / g <= d) by (nonlinear_arith)
        requires
            1 <= g <= d,
    ;
    assert(0 <= a as int / g <= a as int) by (nonlinear_arith)
        requires
            1 <= g,
            a >= 0,
    ;
}

/// An integer as a decimal value.
pub closed spec fn integer_decimal(value: int) -> Decimal {
    Decimal { numerator: value as i128, denominator: 1 }
}

/// The decimal value of an integer.
pub fn from_integer(value: i64) -> (decimal: Decimal)
    ensures
        decimal == integer_decimal(value as int),
{
    Decimal { numerator: value as i128, denominator: 1 }
}

pub closed spec fn add_spec(x: Decimal, y: Decimal) -> Option<Decimal> {
    make_decimal(x.numerator * y.denominator + y.numerator * x.denominator, x.denominator * y.denominator)
}

pub closed spec fn sub_spec(x: Decimal, y: Decimal) -> Option<Decimal> {
    make_decimal(x.numerator * y.denominator - y.numerator * x.denominator, x.denominator * y.denominator)
}

pub closed spec fn mul_spec(x: Decimal, y: Decimal) -> Option<Decimal> {
    make_decimal(x.numerator * y.numerator, x.denominator * y.denominator)
}

/// `x / y` for a non-zero `y`.
pub closed spec fn div_spec(x: Decimal, y: Decimal) -> Option<Decimal> {
    if y.numerator > 0 {
        make_decimal(x.numerator * y.denominator, x.denominator * y.numerator)
    } else {
        make_decimal(-(x.numerator * y.denominator), x.denominator * (-y.numerator))
    }
}

/// A numerator times a denominator stays clear of the `i128` limits, even doubled.
proof fn lemma_cross_bound(a: int, b: int)
    requires
        -numerator_bound() <= a <= numerator_bound(),
        1 <= b <= denominator_bound(),
    ensures
        -0x3fff_ffff_ffff_ffff_8000_0000_0000_0000 <= a * b <= 0x3fff_ffff_ffff_ffff_8000_0000_0000_0000,
{
    assert(-0x3fff_ffff_ffff_ffff_8000_0000_0000_0000 <= a * b <= 0x3fff_ffff_ffff_ffff_8000_0000_0000_0000) by (nonlinear_arith)
        requires
            -0x8000_0000_0000_0000 <= a <= 0x8000_0000_0000_0000,
            1 <= b <= 0x7fff_ffff_ffff_ffff,
    ;
}

/// `x * y` of two integer-sized factors stays well within `i128`.
proof fn lemma_product_bound(a: int, b: int)
    requires
        -numerator_bound() <= a <= numerator_bound(),
        -numerator_bound() <= b <= numerator_bound(),
    ensures
        -0x4000_0000_0000_0000_0000_0000_0000_0000 <= a * b <= 0x4000_0000_0000_0000_0000_0000_0000_0000,
{
    assert(-0x4000_0000_0000_0000_0000_0000_0000_0000 <= a * b <= 0x4000_0000_0000_0000_0000_0000_0000_0000) by (nonlinear_arith)
        requires
            -0x8000_0000_0000_0000 <= a <= 0x8000_0000_0000_0000,
            -0x8000_0000_0000_0000 <= b <= 0x8000_0000_0000_0000,
    ;
}

proof fn lemma_positive_product(a: int, b: int)
    requires
        1 <= a <= denominator_bound(),
        1 <= b <= numerator_bound(),
    ensures
        1 <= a * b <= 0x4000_0000_0000_0000_0000_0000_0000_0000,
{
    assert(1 <= a * b <= 0x4000_0000_0000_0000_0000_0000_0000_0000) by (nonlinear_arith)
        requires
            1 <= a <= 0x7fff_ffff_ffff_ffff,
            1 <= b <= 0x8000_0000_0000_0000,
    ;
}

pub fn decimal_add(x: Decimal, y: Decimal) -> (result: Option<Decimal>)
    ensures
        result == add_spec(x, y),
{
    proof {
        use_type_invariant(&x);
        use_type_invariant(&y);
        lemma_cross_bound(x.numerator as int, y.denominator as int);
        lemma_cross_bound(y.numerator as int, x.denominator as int);
        lemma_positive_product(x.denominator as int, y.denominator as int);
    }
    make(x.numerator * y.denominator + y.numerator * x.denominator, x.denominator * y.denominator)
}

pub fn decimal_sub(x: Decimal, y: Decimal) -> (result: Option<Decimal>)
    ensures
        result == sub_spec(x, y),
{
    proof {
        use_type_invariant(&x);
        use_type_invariant(&y);
        lemma_cross_bound(x.numerator as int, y.denominator as int);
        lemma_cross_bound(y.numerator as int, x.denominator as int);
        lemma_positive_product(x.denominator as int, y.denominator as int);
    }
    make(x.numerator * y.denominator - y.numerator * x.denominator, x.denominator * y.denominator)
}

pub fn decimal_mul(x: Decimal, y: Decimal) -> (result: Option<Decimal>)
    ensures
        result == mul_spec(x, y),
{
    proof {
        use_type_invariant(&x);
        use_type_invariant(&y);
        lemma_product_bound(x.numerator as int, y.numerator as int);
        lemma_positive_product(x.denominator as int, y.denominator as int);
    }
    make(x.numerator * y.numerator, x.denominator * y.denominator)
}

pub fn decimal_div(x: Decimal, y: Decimal) -> (result: Option<Decimal>)
    requires
        !is_zero_spec(y),
    ensures
        result == div_spec(x, y),
{
    proof {
        use_type_invariant(&x);
        use_type_invariant(&y);
        lemma_product_bound(x.numerator as int, y.denominator as int);
    }
    if y.numerator > 0 {
        proof {
            lemma_positive_product(x.denominator as int, y.numerator as int);
        }
        make(x.numerator * y.denominator, x.denominator * y.numerator)
    } else {
        proof {
            lemma_positive_product(x.denominator as int, -y.numerator);
        }
        make(-(x.numerator * y.denominator), x.denominator * (-y.numerator))
    }
}

/// Whether `x` is zero.
pub closed spec fn is_zero_spec(x: Decimal) -> bool {
    x.numerator == 0
}

pub fn is_zero(x: Decimal) -> (zero: bool)
    ensures
        zero == is_zero_spec(x),
{
    x.numerator == 0
}

/// `-x`.
pub closed spec fn negate_spec(x: Decimal) -> Decimal {
    Decimal { numerator: -x.numerator as i128, denominator: x.denominator }
}

/// `-x`, which always stays within the bounds.
pub fn negate(x: Decimal) -> (result: Decimal)
    ensures
        result == negate_spec(x),
{
    proof {
        use_type_invariant(&x);
    }
    Decimal { numerator: -x.numerator, denominator: x.denominator }
}

/// The sign of `x - y`: `-1`, `0` or `1`.
pub closed spec fn compare_spec(x: Decimal, y: Decimal) -> int {
    let left = x.numerator * y.denominator;
    let right = y.numerator * x.denominator;
    if left < right {
        -1
    } else if left == right {
        0
    } else {
        1
    }
}

pub fn compare(x: Decimal, y: Decimal) -> (sign: i8)
    ensures
        sign as int == compare_spec(x, y),
{
    proof {
        use_type_invariant(&x);
        use_type_invariant(&y);
        lemma_product_bound(x.numerator as int, y.denominator as int);
        lemma_product_bound(y.numerator as int, x.denominator as int);
    }
    let left = x.numerator * y.denominator;
    let right = y.numerator * x.denominator;
    if left < right {
        -1
    } else if left == right {
        0
    } else {
        1
    }
}


/// `10^k`.
pub open spec fn pow10(k: nat) -> nat
    decreases k,
{
    if k == 0 {
        1
    } else {
        10 * pow10((k - 1) as nat)
    }
}

/// The mantissa digits of a number text: its integer digits followed by its fraction digits.
pub open spec fn mantissa_digits(s: Seq<char>) -> Seq<char> {
    s.subrange(sign_end(s), digit_run_end(s, sign_end(s))) + s.subrange(
        fraction_start(s),
        mantissa_end(s),
    )
}

/// The power of ten that the mantissa digits, read as an integer, are scaled by.
pub open spec fn scaled_exponent(s: Seq<char>) -> int {
    exponent_value(s) - (mantissa_end(s) - fraction_start(s))
}

/// The largest mantissa (exclusive) and scale that a number text may carry: `10^38`, `38`.
pub open spec fn text_limit() -> nat {
    38
}

/// The mantissa digits of any text are digits.
proof fn lemma_mantissa_all_digits(s: Seq<char>)
    ensures
        all_digits(mantissa_digits(s)),
{
    let start = sign_end(s);
    lemma_digit_run_all(s, start);
    let a = digit_run_end(s, start);
    let b = fraction_start(s);
    lemma_digit_run_all(s, b);
    let c = mantissa_end(s);
    let digits = mantissa_digits(s);
    let head = s.subrange(start, a);
    assert forall|i: int| 0 <= i < digits.len() implies is_ascii_digit(#[trigger] digits[i]) by {
        if i < head.len() {
            assert(digits[i] == s[start + i]);
        } else {
            assert(digits[i] == s[b + i - head.len()]);
        }
    }
}

/// The decimal value that a number text denotes.  A text is taken when it is a decimal
/// number text, its mantissa digits read below `10^38`, its scale lies within `-38..=38`,
/// and the reduced fraction fits the bounds; a zero mantissa always reads as zero.
pub closed spec fn decimal_of_text(s: Seq<char>) -> Option<Decimal> {
    if !is_decimal_text(s) {
        None
    } else {
        let m = digits_value(mantissa_digits(s));
        let e = scaled_exponent(s);
        let n = if s.len() > 0 && s[0] == '-' {
            -m
        } else {
            m
        };
        if m == 0 {
            Some(Decimal { numerator: 0, denominator: 1 })
        } else if m >= pow10(text_limit()) || e < -text_limit() || e > text_limit() {
            None
        } else {
            scaled_decimal(n, e)
        }
    }
}

/// `n * 10^e` as a decimal value, when it fits.
pub open spec fn scaled_decimal(n: int, e: int) -> Option<Decimal> {
    if e >= 0 {
        make_decimal(n * pow10(e as nat), 1)
    } else {
        make_decimal(n, pow10((-e) as nat) as int)
    }
}

proof fn lemma_pow10_positive(k: nat)
    ensures
        pow10(k) >= 1,
    decreases k,
{
    if k > 0 {
        lemma_pow10_positive((k - 1) as nat);
    }
}

proof fn lemma_pow10_monotone(j: nat, k: nat)
    requires
        j <= k,
    ensures
        pow10(j) <= pow10(k),
    decreases k,
{
    if j < k {
        lemma_pow10_monotone(j, (k - 1) as nat);
        lemma_pow10_positive((k - 1) as nat);
    }
}

proof fn lemma_pow10_38()
    ensures
        pow10(38) == 100000000000000000000000000000000000000,
{
    reveal_with_fuel(pow10, 39);
}

/// `10^k` for `k <= 38`.
fn pow10_exec(k: u32) -> (p: u128)
    requires
        k <= 38,
    ensures
        p == pow10(k as nat),
{
    let mut p: u128 = 1;
    let mut i: u32 = 0;
    while i < k
        invariant
            i <= k <= 38,
            p == pow10(i as nat),
        decreases k - i,
    {
        proof {
            lemma_pow10_monotone((i + 1) as nat, 38);
            lemma_pow10_38();
        }
        p = p * 10;
        i += 1;
    }
    p
}

proof fn lemma_gcd_one(a: nat)
    ensures
        gcd(a, 1) == 1,
{
    assert(gcd(a, 1) == gcd(1, a % 1));
    assert(a % 1 == 0);
    assert(gcd(1, 0) == 1);
}

/// A whole number as a fraction over one is itself, so it is kept exactly when it is in bounds.
proof fn lemma_make_whole(n: int)
    ensures
        make_decimal(n, 1) == (if -numerator_bound() <= n <= numerator_bound() {
            Some(Decimal { numerator: n as i128, denominator: 1 })
        } else {
            None
        }),
{
    lemma_gcd_one(abs(n));
    let g = gcd(abs(n), 1);
    assert(g == 1);
    if n < 0 {
        assert((abs(n) as int) / 1 == -n);
    }
    assert(n / 1 == n);
    assert(1int / 1 == 1);
}

/// `±magnitude * 10^e` as a decimal value (see `scaled_decimal`).
fn scale(negative: bool, magnitude: u128, e: i128) -> (result: Option<Decimal>)
    requires
        1 <= magnitude < pow10(text_limit()),
        -38 <= e <= 38,
    ensures
        result == scaled_decimal(if negative { -(magnitude as int) } else { magnitude as int }, e as int),
        result matches Some(value) ==> value.wf(),
{
    proof {
        lemma_pow10_38();
    }
    if e >= 0 {
        let p = pow10_exec(e as u32);
        proof {
            lemma_make_whole((if negative { -(magnitude as int) } else { magnitude as int }) * pow10(e as nat));
        }
        let ghost n: int = if negative { -(magnitude as int) } else { magnitude as int };
        assert(n * pow10(e as nat) == if negative { -(magnitude as int * p as int) } else { magnitude as int * p as int }) by (nonlinear_arith)
            requires
                n == (if negative { -(magnitude as int) } else { magnitude as int }),
                p == pow10(e as nat),
        ;
        assert(magnitude as int * p as int >= 0) by (nonlinear_arith)
            requires
                magnitude >= 1,
                p >= 0,
        ;
        match magnitude.checked_mul(p) {
            None => None,
            Some(product) => {
                if product > 0x8000_0000_0000_0000u128 {
                    None
                } else if negative {
                    Some(Decimal { numerator: -(product as i128), denominator: 1 })
                } else {
                    Some(Decimal { numerator: product as i128, denominator: 1 })
                }
            },
        }
    } else {
        let p = pow10_exec((-e) as u32);
        let n: i128 = if negative { -(magnitude as i128) } else { magnitude as i128 };
        proof {
            lemma_pow10_positive((-e) as nat);
            lemma_pow10_monotone((-e) as nat, 38);
        }
        make(n, p as i128)
    }
}

/// The mantissa digits of a checked number text read as an integer, saturating at `10^38`
/// (the flag tells whether it saturated).
fn mantissa_value(chars: &[char], start: usize, a: usize, b: usize, c: usize) -> (read: (u128, bool))
    requires
        is_decimal_text(chars@),
        start == sign_end(chars@),
        a == digit_run_end(chars@, start as int),
        b == fraction_start(chars@),
        c == mantissa_end(chars@),
    ensures
        !read.1 ==> read.0 == digits_value(mantissa_digits(chars@)) && read.0 < pow10(text_limit()),
        read.1 ==> digits_value(mantissa_digits(chars@)) >= pow10(text_limit()),
{
    let len = chars.len();
    proof {
        lemma_digit_run_all(chars@, start as int);
        lemma_digit_run_all(chars@, b as int);
        lemma_pow10_38();
    }
    assert(start <= a <= b <= c <= len);
    let ghost digits = mantissa_digits(chars@);
    let ghost head = chars@.subrange(start as int, a as int);
    assert(digits == head + chars@.subrange(b as int, c as int));
    assert(all_digits(digits)) by {
        assert forall|i: int| 0 <= i < digits.len() implies is_ascii_digit(#[trigger] digits[i]) by {
            if i < head.len() {
                assert(digits[i] == chars@[start + i]);
            } else {
                assert(digits[i] == chars@[b + i - head.len()]);
            }
        }
    }
    let total = (a - start) + (c - b);
    let cap: u128 = 100000000000000000000000000000000000000;
    let mut magnitude: u128 = 0;
    let mut saturated = false;
    let mut k: usize = 0;
    while k < total
        invariant
            total == digits.len(),
            cap == 100000000000000000000000000000000000000,
            cap == pow10(text_limit()),
            start <= a <= b <= c <= len == chars@.len(),
            digits == chars@.subrange(start as int, a as int) + chars@.subrange(b as int, c as int),
            all_digits(digits),
            k <= total,
            !saturated ==> magnitude == digits_value(digits.take(k as int)) && magnitude < cap,
            saturated ==> digits_value(digits) >= cap && magnitude == cap,
        decreases total - k,
    {
        let ch = if k < a - start { chars[start + k] } else { chars[b + (k - (a - start))] };
        assert(ch == digits[k as int]);
        assert(digits.take(k + 1).drop_last() =~= digits.take(k as int));
        assert(digits.take(k + 1).last() == ch);
        assert(is_ascii_digit(digits[k as int]));
        assert(digits_value(digits.take(k + 1)) == digits_value(digits.take(k as int)) * 10 + (ch as int - '0' as int));
        let digit: u128 = (ch as u32 - '0' as u32) as u128;
        assert(digit as int == ch as int - '0' as int);
        assert(0 <= digit <= 9);
        if !saturated {
            let next = if magnitude >= 10000000000000000000000000000000000000 {
                assert(magnitude as int * 10 + digit as int >= cap as int);
                cap
            } else {
                magnitude * 10 + digit
            };
            assert(next >= cap ==> magnitude as int * 10 + digit as int >= cap as int);
            if next >= cap {
                proof {
                    assert(digits_value(digits.take(k + 1)) >= cap);
                    lemma_digits_value_monotone(digits, k + 1);
                }
                magnitude = cap;
                saturated = true;
            } else {
                magnitude = next;
            }
        }
        k += 1;
    }
    assert(digits.take(total as int) =~= digits);
    (magnitude, saturated)
}

/// The decimal value of a number text (see `decimal_of_text`).
pub fn decimal_from_text(chars: &[char]) -> (result: Option<Decimal>)
    ensures
        result == decimal_of_text(chars@),
        result matches Some(value) ==> value.wf(),
{
    if !decimal_text(chars) {
        return None;
    }
    let len = chars.len();
    let start: usize = if len > 0 && (chars[0] == '+' || chars[0] == '-') { 1 } else { 0 };
    let a = scan_digits(chars, start);
    let b = if a < len && chars[a] == '.' { a + 1 } else { a };
    let c = scan_digits(chars, b);
    assert(start == sign_end(chars@));
    assert(b == fraction_start(chars@));
    assert(c == mantissa_end(chars@));
    let (magnitude, saturated) = mantissa_value(chars, start, a, b, c);
    proof {
        lemma_pow10_38();
    }
    let negative = len > 0 && chars[0] == '-';
    if saturated {
        return None;
    }
    if magnitude == 0 {
        return Some(Decimal { numerator: 0, denominator: 1 });
    }
    let raw_exponent: i128 = if c < len {
        match read_exponent(chars, c) {
            Some(e) => e,
            None => {
                return None;
            },
        }
    } else {
        0
    };
    if raw_exponent >= 1000000000000000000000000000000 || raw_exponent <= -1000000000000000000000000000000 {
        return None;
    }
    let fraction_len = (c - b) as i128;
    let e: i128 = raw_exponent - fraction_len;
    assert(e == scaled_exponent(chars@));
    if e < -38 || e > 38 {
        return None;
    }
    scale(negative, magnitude, e)
}

/// Long-division digits of `r / d` (with `r < d`) after the point, stopping after
/// `count` digits or when nothing remains.
pub open spec fn fraction_digits(r: nat, d: nat, count: nat) -> Seq<char>
    decreases count,
{
    if r == 0 || count == 0 || d == 0 {
        Seq::empty()
    } else {
        seq![('0' as u32 + (r * 10) / d) as char] + fraction_digits((r * 10) % d, d, (count - 1) as nat)
    }
}

/// How many fraction digits are shown at most.
pub open spec fn shown_fraction_digits() -> nat {
    16
}

/// The text of a decimal value: its whole part, then (when the value is not whole) a point
/// and the fraction digits, cut off after sixteen digits.
pub closed spec fn decimal_text_of(x: Decimal) -> Seq<char> {
    let magnitude = abs(x.numerator as int);
    let d = x.denominator as nat;
    let whole = decimal_digits(magnitude / d);
    let fraction = fraction_digits(magnitude % d, d, shown_fraction_digits());
    let body = if fraction.len() == 0 {
        whole
    } else {
        whole + seq!['.'] + fraction
    };
    if x.numerator < 0 {
        seq!['-'] + body
    } else {
        body
    }
}

/// The text of a decimal value (see `decimal_text_of`).
pub fn decimal_to_string(x: Decimal) -> (text: String)
    ensures
        text@ == decimal_text_of(x),
{
    proof {
        use_type_invariant(&x);
    }
    let magnitude: u128 = if x.numerator < 0 { (-x.numerator) as u128 } else { x.numerator as u128 };
    let d: u128 = x.denominator as u128;
    let mut out: Vec<char> = Vec::new();
    if x.numerator < 0 {
        out.push('-');
    }
    let ghost prefix = out@;
    push_decimal_digits(&mut out, magnitude / d);
    let ghost whole_end = out@;
    let mut fraction: Vec<char> = Vec::new();
    let mut r: u128 = magnitude % d;
    let mut count: u32 = 16;
    while r != 0 && count > 0
        invariant
            1 <= d <= 0x7fff_ffff_ffff_ffff,
            r < d,
            count <= 16,
            fraction@ + fraction_digits(r as nat, d as nat, count as nat) == fraction_digits(
                magnitude as nat % d as nat,
                d as nat,
                16,
            ),
        decreases count,
    {
        let digit: u32 = ((r * 10) / d) as u32;
        proof {
            assert((r as int * 10) / (d as int) < 10) by (nonlinear_arith)
                requires
                    r < d,
                    d >= 1,
            ;
        }
        let ghost old_fraction = fraction@;
        fraction.push(char_from_code(48 + digit));
        proof {
            assert(('0' as u32 + (r as nat * 10) / d as nat) as char == (48 + digit) as char);
            assert(fraction@ =~= old_fraction + seq![(48 + digit) as char]);
        }
        r = (r * 10) % d;
        count -= 1;
        proof {
            assert(fraction@ + fraction_digits(r as nat, d as nat, count as nat) =~= old_fraction + (seq![(48 + digit) as char] + fraction_digits(r as nat, d as nat, count as nat)));
        }
    }
    assert(fraction@ =~= fraction_digits(magnitude as nat % d as nat, d as nat, 16));
    if fraction.len() > 0 {
        out.push('.');
        let mut i: usize = 0;
        let ghost point_end = out@;
        while i < fraction.len()
            invariant
                i <= fraction@.len(),
                out@ == point_end + fraction@.take(i as int),
            decreases fraction@.len() - i,
        {
            out.push(fraction[i]);
            i += 1;
            assert(out@ =~= point_end + fraction@.take(i as int));
        }
        assert(fraction@.take(fraction@.len() as int) =~= fraction@);
    }
    assert(abs(x.numerator as int) == magnitude as int);
    assert(out@ =~= decimal_text_of(x));
    string_of(out.as_slice())
}

impl Decimal {
    /// The numerator of the fraction this value stands for.
    pub closed spec fn numer(self) -> int {
        self.numerator as int
    }

    /// The denominator of the fraction this value stands for.
    pub closed spec fn denom(self) -> int {
        self.denominator as int
    }
}

/// Addition is exact: when `x + y` is a value `z`, `z` is the fraction
/// `x.numer() / x.denom() + y.numer() / y.denom()`; the sum of two whole
/// numbers is their integer sum whenever that fits.
pub proof fn lemma_add_value(x: Decimal, y: Decimal)
    requires
        x.wf(),
        y.wf(),
    ensures
        add_spec(x, y) matches Some(z) ==> z.denom() >= 1 && z.numer() * (x.denom() * y.denom())
            == (x.numer() * y.denom() + y.numer() * x.denom()) * z.denom(),
        x.denom() == 1 && y.denom() == 1 && -numerator_bound() <= x.numer() + y.numer()
            <= numerator_bound() ==> add_spec(x, y) == Some(
            integer_decimal(x.numer() + y.numer()),
        ),
        -numerator_bound() <= x.numer() * y.denom() + y.numer() * x.denom() <= numerator_bound() && x.denom()
            * y.denom() <= denominator_bound() ==> add_spec(x, y) is Some,
{
    if -numerator_bound() <= x.numer() * y.denom() + y.numer() * x.denom() <= numerator_bound() && x.denom()
        * y.denom() <= denominator_bound() {
        lemma_positive_product(x.denom(), y.denom());
        lemma_make_some(x.numer() * y.denom() + y.numer() * x.denom(), x.denom() * y.denom());
    }
    lemma_positive_product(x.denom() as int, y.denom() as int);
    lemma_make_value(
        x.numer() * y.denom() + y.numer() * x.denom(),
        x.denom() * y.denom(),
    );
    if x.denom() == 1 && y.denom() == 1 {
        let (xn, xd, yn, yd) = (x.numer(), x.denom(), y.numer(), y.denom());
        assert(xn * yd + yn * xd == xn + yn && xd * yd == 1) by (nonlinear_arith)
            requires
                xd == 1,
                yd == 1,
        ;
        lemma_make_whole(x.numer() + y.numer());
    }
}

/// Subtraction is exact: when `x - y` is a value `z`, `z` is the fraction
/// `x.numer() / x.denom() - y.numer() / y.denom()`, so adding `y` back gives
/// the value of `x`; the difference of two whole numbers is their integer difference
/// whenever that fits.
pub proof fn lemma_sub_value(x: Decimal, y: Decimal)
    requires
        x.wf(),
        y.wf(),
    ensures
        sub_spec(x, y) matches Some(z) ==> z.denom() >= 1 && z.numer() * (x.denom() * y.denom())
            == (x.numer() * y.denom() - y.numer() * x.denom()) * z.denom(),
        sub_spec(x, y) matches Some(z) ==> (add_spec(z, y) matches Some(w) ==> w.numer() * x.denom()
            == x.numer() * w.denom()),
        x.denom() == 1 && y.denom() == 1 && -numerator_bound() <= x.numer() - y.numer()
            <= numerator_bound() ==> sub_spec(x, y) == Some(
            integer_decimal(x.numer() - y.numer()),
        ),
        -numerator_bound() <= x.numer() * y.denom() - y.numer() * x.denom() <= numerator_bound() && x.denom()
            * y.denom() <= denominator_bound() ==> sub_spec(x, y) is Some,
{
    if -numerator_bound() <= x.numer() * y.denom() - y.numer() * x.denom() <= numerator_bound() && x.denom()
        * y.denom() <= denominator_bound() {
        lemma_positive_product(x.denom(), y.denom());
        lemma_make_some(x.numer() * y.denom() - y.numer() * x.denom(), x.denom() * y.denom());
    }
    let (xn, xd, yn, yd) = (x.numer() as int, x.denom() as int, y.numer() as int, y.denom() as int);
    lemma_positive_product(xd, yd);
    lemma_make_value(xn * yd - yn * xd, xd * yd);
    if xd == 1 && yd == 1 {
        assert(xn * yd - yn * xd == xn - yn && xd * yd == 1) by (nonlinear_arith)
            requires
                xd == 1,
                yd == 1,
        ;
        lemma_make_whole(xn - yn);
    }
    if sub_spec(x, y) is Some {
        let z = sub_spec(x, y).unwrap();
        let (zn, zd) = (z.numer() as int, z.denom() as int);
        lemma_positive_product(zd, yd);
        lemma_make_value(zn * yd + yn * zd, zd * yd);
        if add_spec(z, y) is Some {
            let w = add_spec(z, y).unwrap();
            let (wn, wd) = (w.numer() as int, w.denom() as int);
            let l = zn * yd + yn * zd;
            assert(zn * yd * xd == zn * (xd * yd)) by (nonlinear_arith);
            assert(l * xd == zn * yd * xd + yn * zd * xd) by (nonlinear_arith)
                requires
                    l == zn * yd + yn * zd,
            ;
            assert((xn * yd - yn * xd) * zd == xn * yd * zd - yn * xd * zd) by (nonlinear_arith);
            assert(yn * zd * xd == yn * xd * zd) by (nonlinear_arith);
            assert(l * xd == xn * yd * zd);
            assert(wn * xd * (zd * yd) == l * xd * wd) by (nonlinear_arith)
                requires
                    wn * (zd * yd) == l * wd,
            ;
            assert(l * xd * wd == xn * wd * (zd * yd)) by (nonlinear_arith)
                requires
                    l * xd == xn * yd * zd,
            ;
            assert(wn * xd == xn * wd) by (nonlinear_arith)
                requires
                    wn * xd * (zd * yd) == xn * wd * (zd * yd),
                    zd * yd > 0,
            ;
        }
    }
}

/// Multiplication is exact: when `x * y` is a value `z`, `z` is the fraction
/// `(x.numer() * y.numer()) / (x.denom() * y.denom())`.
pub proof fn lemma_mul_value(x: Decimal, y: Decimal)
    requires
        x.wf(),
        y.wf(),
    ensures
        mul_spec(x, y) matches Some(z) ==> z.denom() >= 1 && z.numer() * (x.denom() * y.denom())
            == x.numer() * y.numer() * z.denom(),
        -numerator_bound() <= x.numer() * y.numer() <= numerator_bound() && x.denom() * y.denom()
            <= denominator_bound() ==> mul_spec(x, y) is Some,
{
    if -numerator_bound() <= x.numer() * y.numer() <= numerator_bound() && x.denom() * y.denom()
        <= denominator_bound() {
        lemma_positive_product(x.denom(), y.denom());
        lemma_make_some(x.numer() * y.numer(), x.denom() * y.denom());
    }
    lemma_positive_product(x.denom() as int, y.denom() as int);
    lemma_make_value(x.numer() * y.numer(), x.denom() * y.denom());
}

/// Division is exact: for a non-zero `y`, when `x / y` is a value `q`, then `q * y` has the
/// value of `x` (so dividing by a negative number flips the sign).
pub proof fn lemma_div_value(x: Decimal, y: Decimal)
    requires
        x.wf(),
        y.wf(),
        y.numer() != 0,
    ensures
        div_spec(x, y) matches Some(q) ==> q.denom() >= 1 && q.numer() * y.numer() * x.denom()
            == x.numer() * q.denom() * y.denom(),
        div_spec(x, y) matches Some(q) ==> (mul_spec(q, y) matches Some(w) ==> w.numer() * x.denom()
            == x.numer() * w.denom()),
        -numerator_bound() <= x.numer() * y.denom() <= numerator_bound() && -numerator_bound() <= -(x.numer()
            * y.denom()) <= numerator_bound() && x.denom() * abs(y.numer()) <= denominator_bound() ==> div_spec(
            x,
            y,
        ) is Some,
{
    if -numerator_bound() <= x.numer() * y.denom() <= numerator_bound() && -numerator_bound() <= -(x.numer()
        * y.denom()) <= numerator_bound() && x.denom() * abs(y.numer()) <= denominator_bound() {
        if y.numer() > 0 {
            lemma_positive_product(x.denom(), y.numer());
            lemma_make_some(x.numer() * y.denom(), x.denom() * y.numer());
        } else {
            lemma_positive_product(x.denom(), -y.numer());
            lemma_make_some(-(x.numer() * y.denom()), x.denom() * (-y.numer()));
        }
    }
    let (xn, xd, yn, yd) = (x.numer() as int, x.denom() as int, y.numer() as int, y.denom() as int);
    if div_spec(x, y) is Some {
        let q = div_spec(x, y).unwrap();
        let (qn, qd) = (q.numer() as int, q.denom() as int);
        if yn > 0 {
            lemma_positive_product(xd, yn);
            lemma_make_value(xn * yd, xd * yn);
            assert(qn * yn * xd == xn * qd * yd) by (nonlinear_arith)
                requires
                    qn * (xd * yn) == xn * yd * qd,
            ;
        } else {
            lemma_positive_product(xd, -yn);
            lemma_make_value(-(xn * yd), xd * (-yn));
            assert(qn * yn * xd == xn * qd * yd) by (nonlinear_arith)
                requires
                    qn * (xd * (-yn)) == (-(xn * yd)) * qd,
            ;
        }
        assert(qd >= 1);
        lemma_positive_product(qd, yd);
        lemma_make_value(qn * yn, qd * yd);
        if mul_spec(q, y) is Some {
            let w = mul_spec(q, y).unwrap();
            let (wn, wd) = (w.numer() as int, w.denom() as int);
            assert(wn * xd * (qd * yd) == xn * wd * (qd * yd)) by (nonlinear_arith)
                requires
                    wn * (qd * yd) == qn * yn * wd,
                    qn * yn * xd == xn * qd * yd,
            ;
            assert(wn * xd == xn * wd) by (nonlinear_arith)
                requires
                    wn * xd * (qd * yd) == xn * wd * (qd * yd),
                    qd * yd > 0,
            ;
        }
    }
}

/// Comparison orders decimal values as the numbers they stand for: `x` is below, equal to
/// or above `y` as `x.numer() / x.denom()` is below, equal to or above
/// `y.numer() / y.denom()`; swapping the two flips the sign, and when `x - y` is a
/// value its sign is the comparison's.
pub proof fn lemma_compare_order(x: Decimal, y: Decimal)
    requires
        x.wf(),
        y.wf(),
    ensures
        compare_spec(x, y) < 0 <==> x.numer() * y.denom() < y.numer() * x.denom(),
        compare_spec(x, y) == 0 <==> x.numer() * y.denom() == y.numer() * x.denom(),
        compare_spec(x, y) > 0 <==> x.numer() * y.denom() > y.numer() * x.denom(),
        compare_spec(x, y) == -compare_spec(y, x),
        sub_spec(x, y) matches Some(z) ==> (compare_spec(x, y) < 0 <==> z.numer() < 0) && (compare_spec(x, y)
            == 0 <==> z.numer() == 0),
{
    lemma_sub_value(x, y);
    if sub_spec(x, y) is Some {
        let z = sub_spec(x, y).unwrap();
        let (zn, zd) = (z.numer() as int, z.denom() as int);
        let diff = x.numer() * y.denom() - y.numer() * x.denom();
        let p = x.denom() * y.denom();
        lemma_positive_product(x.denom() as int, y.denom() as int);
        assert(zn < 0 <==> diff < 0) by (nonlinear_arith)
            requires
                zn * p == diff * zd,
                p > 0,
                zd >= 1,
        ;
        assert(zn == 0 <==> diff == 0) by (nonlinear_arith)
            requires
                zn * p == diff * zd,
                p > 0,
                zd >= 1,
        ;
    }
}

/// A number text reads as the value its digits and exponent spell: its mantissa digits as an
/// integer, negated when the text starts with `-`, times ten to its scale; so a text that
/// starts with `-` and has a non-zero mantissa reads as a negative value.
pub proof fn lemma_text_value(s: Seq<char>)
    ensures
        decimal_of_text(s) matches Some(z) ==> {
            let m = digits_value(mantissa_digits(s));
            let e = scaled_exponent(s);
            let n = if s.len() > 0 && s[0] == '-' {
                -m
            } else {
                m
            };
            &&& z.denom() >= 1
            &&& e >= 0 ==> z.numer() == n * pow10(e as nat)
            &&& e < 0 ==> z.numer() * pow10((-e) as nat) == n * z.denom()
        },
        decimal_of_text(s) matches Some(z) ==> (s.len() > 0 && s[0] == '-' && digits_value(mantissa_digits(s))
            != 0 ==> z.numer() < 0),
        decimal_of_text(s) matches Some(z) ==> (!(s.len() > 0 && s[0] == '-') ==> z.numer() >= 0),
        ({
            let m = digits_value(mantissa_digits(s));
            let e = scaled_exponent(s);
            let n = if s.len() > 0 && s[0] == '-' {
                -m
            } else {
                m
            };
            is_decimal_text(s) && m < pow10(text_limit()) && -(text_limit() as int) <= e <= text_limit() && (e
                >= 0 ==> -numerator_bound() <= n * pow10(e as nat) <= numerator_bound()) && (e < 0 ==> (
            -numerator_bound() <= n <= numerator_bound() && pow10((-e) as nat) <= denominator_bound()))
                ==> decimal_of_text(s) is Some
        }),
{
    {
        let m = digits_value(mantissa_digits(s));
        let e = scaled_exponent(s);
        let n = if s.len() > 0 && s[0] == '-' { -m } else { m };
        if is_decimal_text(s) && m != 0 && m < pow10(text_limit()) && -(text_limit() as int) <= e <= text_limit() {
            if e >= 0 {
                lemma_make_whole(n * pow10(e as nat));
            } else if -numerator_bound() <= n <= numerator_bound() && pow10((-e) as nat) <= denominator_bound() {
                lemma_pow10_positive((-e) as nat);
                lemma_make_some(n, pow10((-e) as nat) as int);
            }
        }
    }
    if decimal_of_text(s) is Some {
        let z = decimal_of_text(s).unwrap();
        let m = digits_value(mantissa_digits(s));
        let e = scaled_exponent(s);
        let negative = s.len() > 0 && s[0] == '-';
        let n = if negative { -m } else { m };
        assert(is_decimal_text(s));
        if m == 0 {
            assert(n == 0);
            assert(n * pow10(e as nat) == 0 && n * 1 == 0 && 0 * pow10((-e) as nat) == 0) by (nonlinear_arith)
                requires
                    n == 0,
            ;
        }
        if m != 0 {
            assert(m >= 0) by {
                let digits = mantissa_digits(s);
                lemma_mantissa_all_digits(s);
                lemma_digits_value_monotone(digits, 0);
            }
            if e >= 0 {
                lemma_pow10_positive(e as nat);
                lemma_make_whole(n * pow10(e as nat));
                let p = pow10(e as nat) as int;
                assert(n < 0 ==> n * p < 0) by (nonlinear_arith)
                    requires
                        p >= 1,
                ;
                assert(n >= 0 ==> n * p >= 0) by (nonlinear_arith)
                    requires
                        p >= 1,
                ;
            } else {
                lemma_pow10_positive((-e) as nat);
                let p = pow10((-e) as nat) as int;
                lemma_make_value(n, p);
                let (zn, zd) = (z.numer() as int, z.denom() as int);
                assert(n < 0 ==> zn < 0) by (nonlinear_arith)
                    requires
                        zn * p == n * zd,
                        p >= 1,
                        zd >= 1,
                ;
                assert(n >= 0 ==> zn >= 0) by (nonlinear_arith)
                    requires
                        zn * p == n * zd,
                        p >= 1,
                        zd >= 1,
                ;
            }
        }
    }
}

/// The text of a decimal value is never empty; it starts with `-` exactly when the value is
/// negative, and the rest is then the text of the value's negation.
pub proof fn lemma_text_sign(x: Decimal)
    requires
        x.wf(),
    ensures
        decimal_text_of(x).len() > 0,
        x.numer() < 0 <==> decimal_text_of(x)[0] == '-',
        x.numer() < 0 ==> decimal_text_of(x).drop_first() == decimal_text_of(negate_spec(x)),
{
    let magnitude = abs(x.numer() as int);
    let d = x.denom() as nat;
    let whole = decimal_digits(magnitude / d);
    lemma_decimal_digits(magnitude / d);
    assert(crate::text::is_ascii_digit(whole[0]));
    let fraction = fraction_digits(magnitude % d, d, shown_fraction_digits());
    let body = if fraction.len() == 0 {
        whole
    } else {
        whole + seq!['.'] + fraction
    };
    assert(body[0] == whole[0]);
    if x.numer() < 0 {
        let y = negate_spec(x);
        assert(abs(y.numer() as int) == magnitude);
        assert(decimal_text_of(x).drop_first() =~= body);
    }
}

/// A digit put in front of digits adds its value times ten to the number of digits after it.
proof fn lemma_digits_value_prepend(c: char, t: Seq<char>)
    ensures
        digits_value(seq![c] + t) == (c as int - '0' as int) * pow10(t.len()) + digits_value(t),
    decreases t.len(),
{
    let s = seq![c] + t;
    if t.len() == 0 {
        assert(s.drop_last() =~= Seq::<char>::empty());
        assert(s.last() == c);
        assert(digits_value(s) == digits_value(s.drop_last()) * 10 + (s.last() as int - '0' as int));
        assert(pow10(0) == 1);
        assert((c as int - '0' as int) * pow10(0) == c as int - '0' as int) by (nonlinear_arith)
            requires
                pow10(0) == 1,
        ;
    } else {
        let shorter = t.drop_last();
        assert(s.drop_last() =~= seq![c] + shorter);
        assert(s.last() == t.last());
        lemma_digits_value_prepend(c, shorter);
        let k = t.len();
        assert(pow10(k) == 10 * pow10((k - 1) as nat));
        let v = c as int - '0' as int;
        let p = pow10((k - 1) as nat) as int;
        assert(t.drop_last() == shorter);
        assert(digits_value(s) == digits_value(seq![c] + shorter) * 10 + (t.last() as int - '0' as int));
        assert(digits_value(t) == digits_value(shorter) * 10 + (t.last() as int - '0' as int));
        assert(digits_value(seq![c] + shorter) == v * p + digits_value(shorter));
        assert((v * p + digits_value(shorter)) * 10 + (t.last() as int - '0' as int) == v * (10 * p) + (
        digits_value(shorter) * 10 + (t.last() as int - '0' as int))) by (nonlinear_arith);
    }
}

/// The long-division digits of `r / d` are digits that spell the first digits of the
/// fraction `r / d` after the point, and they stop early only when the division comes out
/// exact.
proof fn lemma_fraction_digits(r: nat, d: nat, count: nat)
    requires
        r < d,
    ensures
        ({
            let f = fraction_digits(r, d, count);
            &&& f.len() <= count
            &&& all_digits(f)
            &&& r != 0 && count > 0 ==> f.len() >= 1
            &&& digits_value(f) == (r * pow10(f.len())) as int / d as int
            &&& f.len() < count ==> (r * pow10(f.len())) as int % d as int == 0
        }),
    decreases count,
{
    let f = fraction_digits(r, d, count);
    if r == 0 || count == 0 {
        assert(f.len() == 0);
        assert(digits_value(f) == 0);
        assert(pow10(0) == 1);
        assert(r * pow10(0) == r) by (nonlinear_arith)
            requires
                pow10(0) == 1,
        ;
        assert(r as int / d as int == 0) by (nonlinear_arith)
            requires
                0 <= r < d,
        ;
    } else {
        let q = (r * 10) / d;
        let r1 = (r * 10) % d;
        assert(q < 10) by (nonlinear_arith)
            requires
                r < d,
                q == (r * 10) / d,
        ;
        assert(r1 < d) by (nonlinear_arith)
            requires
                d > 0,
                r1 == (r * 10) % d,
        ;
        let rest = fraction_digits(r1, d, (count - 1) as nat);
        lemma_fraction_digits(r1, d, (count - 1) as nat);
        let c = ('0' as u32 + q) as char;
        assert(f == seq![c] + rest);
        assert(c as int - '0' as int == q);
        lemma_digits_value_prepend(c, rest);
        let k = rest.len();
        assert(f.len() == k + 1);
        assert forall|i: int| 0 <= i < f.len() implies is_ascii_digit(#[trigger] f[i]) by {
            if i > 0 {
                assert(f[i] == rest[i - 1]);
            }
        }
        let p = pow10(k) as int;
        assert(pow10(k + 1) == 10 * pow10(k));
        let dd = d as int;
        vstd::arithmetic::div_mod::lemma_fundamental_div_mod(r as int * 10, dd);
        vstd::arithmetic::div_mod::lemma_fundamental_div_mod(r1 as int * p, dd);
        let inner_q = (r1 as int * p) / dd;
        let inner_r = (r1 as int * p) % dd;
        assert(0 <= inner_r < dd) by (nonlinear_arith)
            requires
                dd > 0,
                inner_r == (r1 as int * p) % dd,
        ;
        assert(r as int * (10 * p) == (q * p + inner_q) * dd + inner_r) by (nonlinear_arith)
            requires
                r as int * 10 == dd * q + r1,
                r1 as int * p == dd * inner_q + inner_r,
        ;
        vstd::arithmetic::div_mod::lemma_fundamental_div_mod_converse(
            r as int * (10 * p),
            dd,
            q * p + inner_q,
            inner_r,
        );
        assert((r * pow10(f.len())) as int == r as int * (10 * p));
    }
}

/// The text of a decimal value without its leading `-`, if any.
pub open spec fn unsigned_text(x: Decimal) -> Seq<char> {
    if x.numer() < 0 {
        decimal_text_of(x).drop_first()
    } else {
        decimal_text_of(x)
    }
}

/// The text of a decimal value spells it: after a `-` for a negative value come digits
/// that read as the whole part `|numerator| / denominator`; then, exactly when the value is
/// not whole, a point and one to sixteen digits that spell the first digits of the
/// fraction after the point, stopping before sixteen only when that is all of it.
pub proof fn lemma_text_digits(x: Decimal)
    requires
        x.wf(),
    ensures
        ({
            let body = unsigned_text(x);
            let a = abs(x.numer()) as int;
            let d = x.denom();
            exists|w: int|
                1 <= w <= body.len() && all_digits(#[trigger] unsigned_text(x).take(w)) && digits_value(body.take(w)) == a / d
                    && (w == body.len() <==> a % d == 0) && (w < body.len() ==> body[w] == '.' && {
                    let f = body.skip(w + 1);
                    &&& 1 <= f.len() <= shown_fraction_digits()
                    &&& all_digits(f)
                    &&& digits_value(f) == ((a % d) * pow10(f.len())) / d
                    &&& f.len() < shown_fraction_digits() ==> ((a % d) * pow10(f.len())) % d == 0
                })
        }),
{
    let t = decimal_text_of(x);
    let body = if x.numer() < 0 {
        t.drop_first()
    } else {
        t
    };
    let magnitude = abs(x.numerator as int);
    let d = x.denominator as nat;
    assert(d >= 1);
    let whole = decimal_digits(magnitude / d);
    lemma_decimal_digits(magnitude / d);
    let r = magnitude % d;
    assert(r < d);
    let fraction = fraction_digits(r, d, shown_fraction_digits());
    lemma_fraction_digits(r, d, shown_fraction_digits());
    let inner = if fraction.len() == 0 {
        whole
    } else {
        whole + seq!['.'] + fraction
    };
    assert(body =~= inner);
    let w = whole.len() as int;
    assert(body.take(w) =~= whole);
    assert((magnitude / d) as int == magnitude as int / d as int);
    assert((magnitude % d) as int == magnitude as int % d as int);
    if fraction.len() > 0 {
        assert(body.skip(w + 1) =~= fraction);
        assert(body[w] == '.');
    }
    assert(fraction.len() == 0 <==> r == 0);
    assert(all_digits(unsigned_text(x).take(w)));
}

} // verus!
