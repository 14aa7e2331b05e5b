//! Reading numbers and Boolean words out of cell text.

use vstd::prelude::*;

use crate::process::address::{all_digits, digits_value, lemma_digits_value_monotone};
use crate::text::{ascii_lower, chars_of, eq_ci, is_ascii_digit, lower_seq, to_ascii_lower};

verus! {

/// `text` read as an `i64` the way `str::parse::<i64>` reads it: an optional sign,
/// then one or more ASCII digits, within the range of `i64`.
pub open spec fn integer_value(text: Seq<char>) -> Option<int> {
    let signed = text.len() > 0 && (text[0] == '-' || text[0] == '+');
    let digits = if signed {
        text.drop_first()
    } else {
        text
    };
    let magnitude = digits_value(digits);
    let value = if signed && text[0] == '-' {
        -magnitude
    } else {
        magnitude
    };
    if text.len() == 0 || digits.len() == 0 || !all_digits(digits) {
        None
    } else if i64::MIN <= value <= i64::MAX {
        Some(value)
    } else {
        None
    }
}

/// Reads `chars` as an `i64`.
#[verifier::loop_isolation(false)]
pub fn parse_integer(chars: &[char]) -> (value: Option<i64>)
    ensures
        match value {
            Some(v) => integer_value(chars@) == Some(v as int),
            None => integer_value(chars@) is None,
        },
{
    let len = chars.len();
    if len == 0 {
        return None;
    }
    let signed = chars[0] == '-' || chars[0] == '+';
    let negative = chars[0] == '-';
    let start: usize = if signed { 1 } else { 0 };
    let ghost digits = chars@.subrange(start as int, len as int);
    assert(signed ==> digits =~= chars@.drop_first());
    assert(!signed ==> digits =~= chars@);
    if start == len {
        return None;
    }
    let limit: u128 = 9223372036854775808;
    let mut magnitude: u128 = 0;
    let mut index = start;
    while index < len
        invariant
            start <= index <= len == chars@.len(),
            digits == chars@.subrange(start as int, len as int),
            forall|i: int| 0 <= i < index - start ==> is_ascii_digit(#[trigger] digits[i]),
            magnitude == digits_value(digits.take(index - start)),
            magnitude <= limit,
        decreases len - index,
    {
        let c = chars[index];
        if !('0' <= c && c <= '9') {
            assert(digits[index - start] == c);
            return None;
        }
        let ghost k = index - start;
        assert(digits.take(k + 1).drop_last() =~= digits.take(k));
        assert(digits.take(k + 1).last() == c);
        magnitude = magnitude * 10 + (c as u32 - '0' as u32) as u128;
        index += 1;
        if magnitude > limit {
            proof {
                let ghost rest = digits.subrange(k + 1, digits.len() as int);
                if all_digits(digits) {
                    lemma_digits_value_monotone(digits, k + 1);
                }
            }
            return None;
        }
    }
    assert(digits.take(len - start) =~= digits);
    if negative {
        Some((0i128 - magnitude as i128) as i64)
    } else if magnitude == limit {
        None
    } else {
        Some(magnitude as i64)
    }
}

/// ASCII case-insensitive `true` or `false`, as the Boolean checks accept them.
pub open spec fn is_boolean_text(text: Seq<char>) -> bool {
    eq_ci(text, "true"@) || eq_ci(text, "false"@)
}

/// The Boolean a text denotes: `Some(true)` for `true`, `Some(false)` for `false`
/// (ASCII case-insensitive), else `None`.
pub open spec fn boolean_value(text: Seq<char>) -> Option<bool> {
    if eq_ci(text, "true"@) {
        Some(true)
    } else if eq_ci(text, "false"@) {
        Some(false)
    } else {
        None
    }
}

/// ASCII case-insensitive comparison of `chars` with a lower-case ASCII word.
pub fn equals_lower_word(chars: &[char], word: &[char]) -> (equal: bool)
    requires
        lower_seq(word@) == word@,
    ensures
        equal == eq_ci(chars@, word@),
{
    if chars.len() != word.len() {
        proof {
            assert(lower_seq(chars@).len() != lower_seq(word@).len());
        }
        return false;
    }
    let mut index: usize = 0;
    while index < chars.len()
        invariant
            index <= chars@.len() == word@.len(),
            lower_seq(word@) == word@,
            forall|i: int| 0 <= i < index ==> ascii_lower(#[trigger] chars@[i]) == word@[i],
        decreases chars@.len() - index,
    {
        if to_ascii_lower(chars[index]) != word[index] {
            proof {
                assert(lower_seq(chars@)[index as int] != lower_seq(word@)[index as int]);
            }
            return false;
        }
        index += 1;
    }
    assert(lower_seq(chars@) =~= lower_seq(word@));
    true
}

/// Reads `chars` as a Boolean word.
pub fn parse_boolean(chars: &[char]) -> (value: Option<bool>)
    ensures
        value == boolean_value(chars@),
{
    let true_word: Vec<char> = vec!['t', 'r', 'u', 'e'];
    let false_word: Vec<char> = vec!['f', 'a', 'l', 's', 'e'];
    assert(true_word@ =~= "true"@) by {
        reveal_strlit("true");
    }
    assert(false_word@ =~= "false"@) by {
        reveal_strlit("false");
    }
    assert(lower_seq(true_word@) =~= true_word@);
    assert(lower_seq(false_word@) =~= false_word@);
    if equals_lower_word(chars, true_word.as_slice()) {
        Some(true)
    } else if equals_lower_word(chars, false_word.as_slice()) {
        Some(false)
    } else {
        None
    }
}

} // verus!

verus! {

/// First index at or after `i` that does not hold an ASCII digit.
pub open spec fn digit_run_end(s: Seq<char>, i: int) -> int
    decreases s.len() - i,
{
    if i < 0 || i >= s.len() || !is_ascii_digit(s[i]) {
        i
    } else {
        digit_run_end(s, i + 1)
    }
}

/// Index just past a leading sign, if any.
pub open spec fn sign_end(s: Seq<char>) -> int {
    if s.len() > 0 && (s[0] == '+' || s[0] == '-') {
        1
    } else {
        0
    }
}

/// Where the fractional digits start (just past the point), or the end of the
/// integer digits when there is no point.
pub open spec fn fraction_start(s: Seq<char>) -> int {
    let a = digit_run_end(s, sign_end(s));
    if a < s.len() && s[a] == '.' {
        a + 1
    } else {
        a
    }
}

/// End of the mantissa (integer digits, point, fractional digits).
pub open spec fn mantissa_end(s: Seq<char>) -> int {
    digit_run_end(s, fraction_start(s))
}

/// Start of the exponent digits, just past `e`/`E` and an optional sign.
pub open spec fn exponent_digits_start(s: Seq<char>) -> int {
    let e = mantissa_end(s);
    if e + 1 < s.len() && (s[e + 1] == '+' || s[e + 1] == '-') {
        e + 2
    } else {
        e + 1
    }
}

/// The decimal-number form that `f64` parsing accepts (other than `inf`/`nan`):
/// `[+-]? (digits | digits '.' digits? | '.' digits) ([eE] [+-]? digits)?`.
pub open spec fn is_number_syntax(s: Seq<char>) -> bool {
    let start = sign_end(s);
    let a = digit_run_end(s, start);
    let b = fraction_start(s);
    let c = mantissa_end(s);
    let has_digits = a > start || c > b;
    let e = c;
    &&& has_digits
    &&& (e == s.len() || ((s[e] == 'e' || s[e] == 'E') && digit_run_end(s, exponent_digits_start(s))
        > exponent_digits_start(s) && digit_run_end(s, exponent_digits_start(s)) == s.len()))
}

/// Value of the exponent part (0 when there is none).
pub open spec fn exponent_value(s: Seq<char>) -> int {
    let e = mantissa_end(s);
    let f = exponent_digits_start(s);
    if e == s.len() {
        0
    } else if s[e + 1] == '-' {
        -digits_value(s.subrange(f, s.len() as int))
    } else {
        digits_value(s.subrange(f, s.len() as int))
    }
}

/// Index of the first digit other than `0` in `s[from..to]`, or `to`.
pub open spec fn first_nonzero(s: Seq<char>, from: int, to: int) -> int
    decreases to - from,
{
    if from >= to || s[from] != '0' {
        from
    } else {
        first_nonzero(s, from + 1, to)
    }
}

/// Decimal order of magnitude of the mantissa digits: `k` when the leading non-zero
/// digit stands for `10^k`. Meaningless when every digit is zero.
pub open spec fn mantissa_order(s: Seq<char>) -> int {
    let start = sign_end(s);
    let a = digit_run_end(s, start);
    let b = fraction_start(s);
    let c = mantissa_end(s);
    let p = first_nonzero(s, start, a);
    if p < a {
        a - p - 1
    } else {
        -(first_nonzero(s, b, c) - b) - 1
    }
}

/// Every mantissa digit is zero.
pub open spec fn mantissa_is_zero(s: Seq<char>) -> bool {
    let start = sign_end(s);
    let a = digit_run_end(s, start);
    let b = fraction_start(s);
    let c = mantissa_end(s);
    first_nonzero(s, start, a) == a && first_nonzero(s, b, c) == c
}

/// A decimal-number text whose magnitude is below `10^308`, which keeps it within the
/// finite range of a double.
pub open spec fn is_decimal_text(s: Seq<char>) -> bool {
    &&& is_number_syntax(s)
    &&& (mantissa_is_zero(s) || mantissa_order(s) + exponent_value(s) <= 307)
}

proof fn lemma_digit_run_end(s: Seq<char>, i: int, j: int)
    requires
        0 <= i <= j <= s.len(),
        forall|k: int| i <= k < j ==> is_ascii_digit(#[trigger] s[k]),
        j < s.len() ==> !is_ascii_digit(s[j]),
    ensures
        digit_run_end(s, i) == j,
    decreases j - i,
{
    if i < j {
        lemma_digit_run_end(s, i + 1, j);
    }
}

proof fn lemma_first_nonzero(s: Seq<char>, from: int, to: int, k: int)
    requires
        from <= k <= to,
        forall|m: int| from <= m < k ==> #[trigger] s[m] == '0',
        k < to ==> s[k] != '0',
    ensures
        first_nonzero(s, from, to) == k,
    decreases k - from,
{
    if from < k {
        lemma_first_nonzero(s, from + 1, to, k);
    }
}

/// End of the run of ASCII digits starting at `from`.
pub(crate) fn scan_digits(s: &[char], from: usize) -> (end: usize)
    requires
        from <= s@.len(),
    ensures
        from <= end <= s@.len(),
        end == digit_run_end(s@, from as int),
{
    let mut end = from;
    while end < s.len() && '0' <= s[end] && s[end] <= '9'
        invariant
            from <= end <= s@.len(),
            forall|k: int| from <= k < end ==> is_ascii_digit(#[trigger] s@[k]),
        decreases s@.len() - end,
    {
        end += 1;
    }
    proof {
        lemma_digit_run_end(s@, from as int, end as int);
    }
    end
}

/// Index of the first character other than `0` in `s[from..to]`, or `to`.
fn scan_zeros(s: &[char], from: usize, to: usize) -> (index: usize)
    requires
        from <= to <= s@.len(),
    ensures
        from <= index <= to,
        index == first_nonzero(s@, from as int, to as int),
{
    let mut index = from;
    while index < to && s[index] == '0'
        invariant
            from <= index <= to <= s@.len(),
            forall|m: int| from <= m < index ==> #[trigger] s@[m] == '0',
        decreases to - index,
    {
        index += 1;
    }
    proof {
        lemma_first_nonzero(s@, from as int, to as int, index as int);
    }
    index
}

pub(crate) proof fn lemma_digit_run_all(s: Seq<char>, i: int)
    requires
        0 <= i <= s.len(),
    ensures
        i <= digit_run_end(s, i) <= s.len(),
        forall|k: int| i <= k < digit_run_end(s, i) ==> is_ascii_digit(#[trigger] s[k]),
    decreases s.len() - i,
{
    if i < s.len() && is_ascii_digit(s[i]) {
        lemma_digit_run_all(s, i + 1);
    }
}

/// The exponent of a number text whose mantissa ends at `c`, capped in magnitude at
/// `10^30`; `None` when the text after the mantissa is not a well-formed exponent.
#[verifier::loop_isolation(false)]
pub(crate) fn read_exponent(chars: &[char], c: usize) -> (exponent: Option<i128>)
    requires
        c == mantissa_end(chars@),
        c < chars@.len(),
    ensures
        match exponent {
            None => !((chars@[c as int] == 'e' || chars@[c as int] == 'E') && digit_run_end(
                chars@,
                exponent_digits_start(chars@),
            ) > exponent_digits_start(chars@) && digit_run_end(
                chars@,
                exponent_digits_start(chars@),
            ) == chars@.len()),
            Some(e) => {
                &&& (chars@[c as int] == 'e' || chars@[c as int] == 'E')
                &&& digit_run_end(chars@, exponent_digits_start(chars@)) > exponent_digits_start(
                    chars@,
                )
                &&& digit_run_end(chars@, exponent_digits_start(chars@)) == chars@.len()
                &&& -1000000000000000000000000000000 <= e <= 1000000000000000000000000000000
                &&& (-1000000000000000000000000000000 < e < 1000000000000000000000000000000
                    ==> e == exponent_value(chars@))
                &&& (e == 1000000000000000000000000000000 ==> exponent_value(chars@) >= e)
                &&& (e == -1000000000000000000000000000000 ==> exponent_value(chars@) <= e)
            },
        },
{
    let len = chars.len();
    if !(chars[c] == 'e' || chars[c] == 'E') {
        return None;
    }
    let negative = c + 1 < len && chars[c + 1] == '-';
    let f = if c + 1 < len && (chars[c + 1] == '+' || chars[c + 1] == '-') { c + 2 } else { c + 1 };
    assert(f == exponent_digits_start(chars@));
    let g = scan_digits(chars, f);
    if !(g > f && g == len) {
        return None;
    }
    proof {
        lemma_digit_run_all(chars@, f as int);
    }
    let ghost digits = chars@.subrange(f as int, len as int);
    assert forall|i: int| 0 <= i < digits.len() implies is_ascii_digit(#[trigger] digits[i]) by {
        assert(digits[i] == chars@[f + i]);
    }
    let cap: i128 = 1000000000000000000000000000000;
    let mut magnitude: i128 = 0;
    let mut index = f;
    let mut saturated = false;
    while index < len
        invariant
            f <= index <= len == chars@.len(),
            digits == chars@.subrange(f as int, len as int),
            all_digits(digits),
            !saturated ==> magnitude == digits_value(digits.take(index - f)),
            saturated ==> digits_value(digits) >= cap && magnitude == cap,
            0 <= magnitude <= cap,
        decreases len - index,
    {
        let ghost k = index - f;
        assert(digits.take(k + 1).drop_last() =~= digits.take(k));
        assert(digits.take(k + 1).last() == chars@[index as int]);
        assert(is_ascii_digit(digits[k]));
        if !saturated {
            let next = magnitude * 10 + (chars[index] as u32 - '0' as u32) as i128;
            if next >= cap {
                proof {
                    lemma_digits_value_monotone(digits, k + 1);
                }
                magnitude = cap;
                saturated = true;
            } else {
                magnitude = next;
            }
        }
        index += 1;
    }
    assert(digits.take(len - f) =~= digits);
    proof {
        lemma_digits_value_monotone(digits, 0);
    }
    Some(if negative { -magnitude } else { magnitude })
}

/// The digits of `2^1024 - 2^970`, the smallest magnitude that `str::parse::<f64>` rounds to
/// infinity (`f64::MAX` plus half its last step; the tie rounds to even, away from it).
pub open spec fn overflow_digits() -> Seq<char> {
    "179769313486231580793728971405303415079934132710037826936173778980444968292764750946649017977587207096330286416692887910946555547851940402630657488671505820681908902000708383676273854845817711531764475730270069855571366959622842914819860834936475292719074168444365510704342711559699508093042880177904174497792"@
}

/// Every character of `l` is `0`.
pub open spec fn all_zeros(l: Seq<char>) -> bool {
    forall|i: int| 0 <= i < l.len() ==> l[i] == '0'
}

/// `0.d` is below `0.l`, both read as decimal digits.
pub open spec fn fraction_below(d: Seq<char>, l: Seq<char>) -> bool
    decreases l.len(),
{
    if l.len() == 0 {
        false
    } else if d.len() == 0 {
        !all_zeros(l)
    } else if d[0] != l[0] {
        (d[0] as u32) < (l[0] as u32)
    } else {
        fraction_below(d.drop_first(), l.drop_first())
    }
}

/// The mantissa digits from the first one other than `0`, the point left out.
pub open spec fn significant_digits(s: Seq<char>) -> Seq<char> {
    let start = sign_end(s);
    let a = digit_run_end(s, start);
    let b = fraction_start(s);
    let c = mantissa_end(s);
    let p = first_nonzero(s, start, a);
    if p < a {
        s.subrange(p, a) + s.subrange(b, c)
    } else {
        s.subrange(first_nonzero(s, b, c), c)
    }
}

/// A text that `str::parse::<f64>` reads as a finite number: the number form, with a
/// magnitude below `2^1024 - 2^970`. With the leading digit standing for `10^k`, that is
/// every `k <= 307`, no `k >= 309`, and for `k == 308` the digits below those of the limit.
/// (`inf` and `NaN` texts parse, but not to finite numbers.)
pub open spec fn is_finite_decimal_text(s: Seq<char>) -> bool {
    &&& is_number_syntax(s)
    &&& (mantissa_is_zero(s) || mantissa_order(s) + exponent_value(s) <= 307 || (mantissa_order(s)
        + exponent_value(s) == 308 && fraction_below(significant_digits(s), overflow_digits())))
}

/// Whether `0.d` is below `0.l` (see `fraction_below`).
fn digits_below(d: &Vec<char>, l: &Vec<char>) -> (below: bool)
    ensures
        below == fraction_below(d@, l@),
{
    let mut i: usize = 0;
    assert(d@.skip(0) =~= d@ && l@.skip(0) =~= l@);
    while i < l.len()
        invariant
            i <= l@.len(),
            i <= d@.len(),
            fraction_below(d@, l@) == fraction_below(d@.skip(i as int), l@.skip(i as int)),
        decreases l@.len() - i,
    {
        if i == d.len() {
            let mut j = i;
            while j < l.len() && l[j] == '0'
                invariant
                    i <= j <= l@.len(),
                    forall|m: int| i <= m < j ==> l@[m] == '0',
                decreases l@.len() - j,
            {
                j += 1;
            }
            proof {
                assert(d@.skip(i as int) =~= Seq::<char>::empty());
                if j < l.len() {
                    assert(l@.skip(i as int)[j - i] == l@[j as int]);
                } else {
                    assert(all_zeros(l@.skip(i as int)));
                }
            }
            return j < l.len();
        }
        assert(d@.skip(i as int)[0] == d@[i as int]);
        assert(l@.skip(i as int)[0] == l@[i as int]);
        if d[i] != l[i] {
            return (d[i] as u32) < (l[i] as u32);
        }
        assert(d@.skip(i as int).drop_first() =~= d@.skip(i + 1));
        assert(l@.skip(i as int).drop_first() =~= l@.skip(i + 1));
        i += 1;
    }
    assert(l@.skip(i as int) =~= Seq::<char>::empty());
    false
}

/// Appends `s[from..to]` to `out`.
fn push_span(s: &[char], from: usize, to: usize, out: &mut Vec<char>)
    requires
        from <= to <= s@.len(),
    ensures
        final(out)@ == old(out)@ + s@.subrange(from as int, to as int),
{
    let mut k = from;
    while k < to
        invariant
            from <= k <= to <= s@.len(),
            out@ == old(out)@ + s@.subrange(from as int, k as int),
        decreases to - k,
    {
        out.push(s[k]);
        k += 1;
        assert(out@ =~= old(out)@ + s@.subrange(from as int, k as int));
    }
}

/// Whether `chars` is a text that `str::parse::<f64>` reads as a finite number (see
/// `is_finite_decimal_text`).
pub fn finite_decimal_text(chars: &[char]) -> (valid: bool)
    ensures
        valid == is_finite_decimal_text(chars@),
{
    let len = chars.len();
    let start: usize = if len > 0 && (chars[0] == '+' || chars[0] == '-') { 1 } else { 0 };
    let a = scan_digits(chars, start);
    let b = if a < len && chars[a] == '.' { a + 1 } else { a };
    let c = scan_digits(chars, b);
    if !(a > start || c > b) {
        return false;
    }
    let exponent: i128 = if c < len {
        match read_exponent(chars, c) {
            Some(e) => e,
            None => {
                return false;
            },
        }
    } else {
        0
    };
    let p = scan_zeros(chars, start, a);
    let q = scan_zeros(chars, b, c);
    if p == a && q == c {
        return true;
    }
    let order: i128 = if p < a { (a - p) as i128 - 1 } else { -((q - b) as i128) - 1 };
    if order + exponent <= 307 {
        return true;
    }
    if order + exponent >= 309 {
        return false;
    }
    let mut digits: Vec<char> = Vec::new();
    if p < a {
        push_span(chars, p, a, &mut digits);
        push_span(chars, b, c, &mut digits);
    } else {
        push_span(chars, q, c, &mut digits);
    }
    assert(digits@ =~= significant_digits(chars@));
    let limit = chars_of("179769313486231580793728971405303415079934132710037826936173778980444968292764750946649017977587207096330286416692887910946555547851940402630657488671505820681908902000708383676273854845817711531764475730270069855571366959622842914819860834936475292719074168444365510704342711559699508093042880177904174497792");
    digits_below(&digits, &limit)
}

/// Whether `chars` is a decimal-number text (see `is_decimal_text`).
pub fn decimal_text(chars: &[char]) -> (valid: bool)
    ensures
        valid == is_decimal_text(chars@),
{
    let len = chars.len();
    let start: usize = if len > 0 && (chars[0] == '+' || chars[0] == '-') { 1 } else { 0 };
    let a = scan_digits(chars, start);
    let b = if a < len && chars[a] == '.' { a + 1 } else { a };
    let c = scan_digits(chars, b);
    if !(a > start || c > b) {
        return false;
    }
    let exponent: i128 = if c < len {
        match read_exponent(chars, c) {
            Some(e) => e,
            None => {
                return false;
            },
        }
    } else {
        0
    };
    let p = scan_zeros(chars, start, a);
    let q = scan_zeros(chars, b, c);
    if p == a && q == c {
        return true;
    }
    let order: i128 = if p < a { (a - p) as i128 - 1 } else { -((q - b) as i128) - 1 };
    order + exponent <= 307
}

} // verus!
