use vstd::prelude::*;

use crate::text::{
    ascii_upper, char_from_code, chars_of, decimal_digits, is_ascii_alpha, is_ascii_digit,
    is_white_space, lemma_trim_end_index_bounds, lemma_trim_end_index_char, lemma_trim_unchanged,
    lemma_trim_start_index_bounds, lemma_trim_start_index_char, push_decimal_digits, string_of,
    string_of_range, to_ascii_upper, trim, trim_bounds, trim_end, trim_end_index, trim_start,
    trim_start_index,
};

verus! {

/// A zero-based cell position.
#[derive(Debug, Clone, Copy, PartialEq, Eq, Structural, Hash)]
pub struct CellRef {
    pub row: usize,
    pub column: usize,
}

#[derive(Debug, Clone, PartialEq, Eq)]
pub enum ReferenceError {
    InvalidCell(String),
    InvalidRange(String),
    Overflow(String),
}

/// The message of a reference error.
pub open spec fn reference_message(error: ReferenceError) -> Seq<char> {
    match error {
        ReferenceError::InvalidCell(text) => "invalid cell reference `"@ + text@ + "`"@,
        ReferenceError::InvalidRange(text) => "invalid cell range `"@ + text@ + "`"@,
        ReferenceError::Overflow(text) => "cell reference is too large `"@ + text@ + "`"@,
    }
}

impl ReferenceError {
    /// The error's message (see `reference_message`).
    pub fn to_string(&self) -> (text: String)
        ensures
            text@ == reference_message(*self),
    {
        let (mut message, detail) = match self {
            ReferenceError::InvalidCell(text) => (String::from_str("invalid cell reference `"), text),
            ReferenceError::InvalidRange(text) => (String::from_str("invalid cell range `"), text),
            ReferenceError::Overflow(text) => (String::from_str("cell reference is too large `"), text),
        };
        message.append(detail.as_str());
        message.append("`");
        message
    }
}

/// Numeric value of a column letter: `A`/`a` is 1, `Z`/`z` is 26.
pub open spec fn letter_value(c: char) -> int {
    (ascii_upper(c) as int) - ('A' as int) + 1
}

/// Bijective base-26 value of a run of letters (`A` = 1, `Z` = 26, `AA` = 27).
pub open spec fn column_number(letters: Seq<char>) -> int
    decreases letters.len(),
{
    if letters.len() == 0 {
        0
    } else {
        column_number(letters.drop_last()) * 26 + letter_value(letters.last())
    }
}

/// Base-10 value of a run of ASCII digits.
pub open spec fn digits_value(digits: Seq<char>) -> int
    decreases digits.len(),
{
    if digits.len() == 0 {
        0
    } else {
        digits_value(digits.drop_last()) * 10 + (digits.last() as int - '0' as int)
    }
}

/// Length of the longest prefix made of ASCII letters.
pub open spec fn alpha_prefix_len(s: Seq<char>) -> int
    decreases s.len(),
{
    if s.len() == 0 || !is_ascii_alpha(s[0]) {
        0
    } else {
        1 + alpha_prefix_len(s.drop_first())
    }
}

pub open spec fn all_digits(s: Seq<char>) -> bool {
    forall|i: int| 0 <= i < s.len() ==> is_ascii_digit(#[trigger] s[i])
}

/// Why an A1 reference is refused.
#[derive(Debug, Clone, Copy, PartialEq, Eq, Structural)]
pub enum A1Failure {
    /// Not letters followed by digits, or row number zero.
    Invalid,
    /// The column or row number does not fit in `usize`.
    TooLarge,
}

/// Whether (and why) the A1 reference `input` is refused; `None` when it is accepted.
pub open spec fn a1_failure(input: Seq<char>) -> Option<A1Failure> {
    let t = trim(input);
    let n = alpha_prefix_len(t);
    let letters = t.subrange(0, n);
    let digits = t.subrange(n, t.len() as int);
    if n == 0 || n == t.len() || !all_digits(digits) {
        Some(A1Failure::Invalid)
    } else if column_number(letters) > usize::MAX || digits_value(digits) > usize::MAX {
        Some(A1Failure::TooLarge)
    } else if digits_value(digits) == 0 {
        Some(A1Failure::Invalid)
    } else {
        None
    }
}

/// `t` is `n` ASCII letters, at least one, followed by ASCII digits, at least one.
pub open spec fn letters_then_digits(t: Seq<char>, n: int) -> bool {
    &&& 0 < n < t.len()
    &&& forall|i: int| 0 <= i < n ==> is_ascii_alpha(#[trigger] t[i])
    &&& all_digits(t.subrange(n, t.len() as int))
}

/// `alpha_prefix_len(s)` letters start `s`, and no letter follows them.
proof fn lemma_alpha_prefix(s: Seq<char>)
    ensures
        0 <= alpha_prefix_len(s) <= s.len(),
        forall|i: int| 0 <= i < alpha_prefix_len(s) ==> is_ascii_alpha(#[trigger] s[i]),
        alpha_prefix_len(s) < s.len() ==> !is_ascii_alpha(s[alpha_prefix_len(s)]),
    decreases s.len(),
{
    if s.len() > 0 && is_ascii_alpha(s[0]) {
        lemma_alpha_prefix(s.drop_first());
        assert forall|i: int| 0 <= i < alpha_prefix_len(s) implies is_ascii_alpha(#[trigger] s[i]) by {
            if i > 0 {
                assert(s[i] == s.drop_first()[i - 1]);
            }
        }
    }
}

/// An A1 reference is accepted exactly when, once trimmed, it is one or more ASCII letters
/// followed by one or more ASCII digits, the row number the digits spell is at least 1,
/// and both it and the column number the letters spell fit in `usize`; the reference then
/// names the row one below that number and the column one below the letters' number.
pub proof fn lemma_a1_accepted(input: Seq<char>)
    ensures
        ({
            let t = trim(input);
            a1_failure(input) is None <==> exists|n: int|
                #[trigger] letters_then_digits(t, n) && 1 <= digits_value(t.subrange(n, t.len() as int))
                    <= usize::MAX && column_number(t.subrange(0, n)) <= usize::MAX
        }),
        forall|n: int|
            #[trigger] letters_then_digits(trim(input), n) ==> a1_row(input) == digits_value(
                trim(input).subrange(n, trim(input).len() as int),
            ) - 1 && a1_column(input) == column_number(trim(input).subrange(0, n)) - 1,
{
    let t = trim(input);
    let k = alpha_prefix_len(t);
    lemma_alpha_prefix(t);
    assert forall|n: int| #[trigger] letters_then_digits(t, n) implies n == k by {
        if k < n {
            assert(is_ascii_alpha(t[k]));
        }
        if n < k {
            assert(t.subrange(n, t.len() as int)[0] == t[n]);
            assert(is_ascii_alpha(t[n]));
        }
    }
    if a1_failure(input) is None {
        lemma_digits_value_monotone(t.subrange(k, t.len() as int), 0);
        assert(letters_then_digits(t, k));
    }
    if exists|n: int|
        #[trigger] letters_then_digits(t, n) && 1 <= digits_value(t.subrange(n, t.len() as int)) <= usize::MAX
            && column_number(t.subrange(0, n)) <= usize::MAX {
        let n = choose|n: int|
            #[trigger] letters_then_digits(t, n) && 1 <= digits_value(t.subrange(n, t.len() as int))
                <= usize::MAX && column_number(t.subrange(0, n)) <= usize::MAX;
        assert(n == k);
    }
}

/// The zero-based row of an accepted A1 reference.
pub open spec fn a1_row(input: Seq<char>) -> int {
    let t = trim(input);
    digits_value(t.subrange(alpha_prefix_len(t), t.len() as int)) - 1
}

/// The zero-based column of an accepted A1 reference.
pub open spec fn a1_column(input: Seq<char>) -> int {
    let t = trim(input);
    column_number(t.subrange(0, alpha_prefix_len(t))) - 1
}

/// `result` is what reading the A1 reference `input` gives.
pub open spec fn a1_result(input: Seq<char>, result: Result<CellRef, ReferenceError>) -> bool {
    match result {
        Ok(reference) => {
            &&& a1_failure(input) is None
            &&& reference.row == a1_row(input)
            &&& reference.column == a1_column(input)
        },
        Err(ReferenceError::InvalidCell(text)) => {
            &&& a1_failure(input) == Some(A1Failure::Invalid)
            &&& text@ == trim(input)
        },
        Err(ReferenceError::Overflow(text)) => {
            &&& a1_failure(input) == Some(A1Failure::TooLarge)
            &&& text@ == trim(input)
        },
        Err(ReferenceError::InvalidRange(_)) => false,
    }
}

/// Letters of a one-based column number (`1` is `A`, `27` is `AA`).
pub open spec fn column_letters(n: nat) -> Seq<char>
    decreases n,
{
    if n == 0 {
        seq![]
    } else {
        column_letters(((n - 1) / 26) as nat) + seq![('A' as u32 + ((n - 1) % 26) as nat) as char]
    }
}

/// The A1 text of a zero-based cell position.
pub open spec fn a1_text(row: int, column: int) -> Seq<char> {
    column_letters((column + 1) as nat) + decimal_digits((row + 1) as nat)
}

proof fn lemma_alpha_prefix_bounds(s: Seq<char>)
    ensures
        0 <= alpha_prefix_len(s) <= s.len(),
        forall|i: int| 0 <= i < alpha_prefix_len(s) ==> is_ascii_alpha(#[trigger] s[i]),
        alpha_prefix_len(s) < s.len() ==> !is_ascii_alpha(s[alpha_prefix_len(s)]),
    decreases s.len(),
{
    if s.len() > 0 && is_ascii_alpha(s[0]) {
        lemma_alpha_prefix_bounds(s.drop_first());
        assert forall|i: int| 0 <= i < alpha_prefix_len(s) implies is_ascii_alpha(#[trigger] s[i]) by {
            if i > 0 {
                assert(s[i] == s.drop_first()[i - 1]);
            }
        }
    }
}

proof fn lemma_alpha_prefix_exact(s: Seq<char>, k: int)
    requires
        0 <= k <= s.len(),
        forall|i: int| 0 <= i < k ==> is_ascii_alpha(#[trigger] s[i]),
        k < s.len() ==> !is_ascii_alpha(s[k]),
    ensures
        alpha_prefix_len(s) == k,
    decreases s.len(),
{
    if k > 0 {
        let t = s.drop_first();
        assert(is_ascii_alpha(s[0]));
        assert forall|i: int| 0 <= i < k - 1 implies is_ascii_alpha(#[trigger] t[i]) by {
            assert(t[i] == s[i + 1]);
        }
        if k - 1 < t.len() {
            assert(t[k - 1] == s[k]);
        }
        lemma_alpha_prefix_exact(t, k - 1);
    }
}

proof fn lemma_column_number_monotone(letters: Seq<char>, k: int)
    requires
        0 <= k <= letters.len(),
        forall|i: int| 0 <= i < letters.len() ==> is_ascii_alpha(#[trigger] letters[i]),
    ensures
        column_number(letters.take(k)) <= column_number(letters),
        column_number(letters) >= 0,
    decreases letters.len(),
{
    if letters.len() > 0 {
        let shorter = letters.drop_last();
        assert forall|i: int| 0 <= i < shorter.len() implies is_ascii_alpha(#[trigger] shorter[i]) by {
            assert(shorter[i] == letters[i]);
        }
        assert(is_ascii_alpha(letters.last()));
        if k == letters.len() {
            assert(letters.take(k) =~= letters);
            lemma_column_number_monotone(shorter, 0);
        } else {
            assert(letters.take(k) =~= shorter.take(k));
            lemma_column_number_monotone(shorter, k);
        }
    } else {
        assert(letters.take(k) =~= letters);
    }
}

pub proof fn lemma_digits_value_monotone(digits: Seq<char>, k: int)
    requires
        0 <= k <= digits.len(),
        all_digits(digits),
    ensures
        digits_value(digits.take(k)) <= digits_value(digits),
        digits_value(digits) >= 0,
    decreases digits.len(),
{
    if digits.len() > 0 {
        let shorter = digits.drop_last();
        assert forall|i: int| 0 <= i < shorter.len() implies is_ascii_digit(#[trigger] shorter[i]) by {
            assert(shorter[i] == digits[i]);
        }
        assert(is_ascii_digit(digits.last()));
        if k == digits.len() {
            assert(digits.take(k) =~= digits);
            lemma_digits_value_monotone(shorter, 0);
        } else {
            assert(digits.take(k) =~= shorter.take(k));
            lemma_digits_value_monotone(shorter, k);
        }
    } else {
        assert(digits.take(k) =~= digits);
    }
}

/// Reads `chars[from..to]` as a base-10 number; `None` when it exceeds `usize::MAX`.
fn read_digits(chars: &[char], from: usize, to: usize) -> (value: Option<usize>)
    requires
        from <= to <= chars@.len(),
        all_digits(chars@.subrange(from as int, to as int)),
    ensures
        match value {
            Some(v) => v == digits_value(chars@.subrange(from as int, to as int)),
            None => digits_value(chars@.subrange(from as int, to as int)) > usize::MAX,
        },
{
    let ghost digits = chars@.subrange(from as int, to as int);
    let mut value: usize = 0;
    let mut index = from;
    while index < to
        invariant
            from <= index <= to <= chars@.len(),
            digits == chars@.subrange(from as int, to as int),
            all_digits(digits),
            value == digits_value(digits.take(index - from)),
        decreases to - index,
    {
        let ghost k = index - from;
        assert(digits.take(k + 1).drop_last() =~= digits.take(k));
        assert(digits.take(k + 1).last() == chars@[index as int]);
        assert(is_ascii_digit(digits[k]));
        let digit = (chars[index] as u32 - '0' as u32) as usize;
        let next = match value.checked_mul(10) {
            Some(v) => v.checked_add(digit),
            None => None,
        };
        match next {
            Some(v) => {
                value = v;
            },
            None => {
                proof {
                    lemma_digits_value_monotone(digits, k + 1);
                }
                return None;
            },
        }
        index += 1;
    }
    assert(digits.take(to - from) =~= digits);
    Some(value)
}

impl CellRef {
    pub fn new(row: usize, column: usize) -> (reference: Self)
        ensures
            reference.row == row,
            reference.column == column,
    {
        Self { row, column }
    }

    pub fn row(self) -> (row: usize)
        ensures
            row == self.row,
    {
        self.row
    }

    pub fn column(self) -> (column: usize)
        ensures
            column == self.column,
    {
        self.column
    }

    /// Reads an A1 reference such as `B3` (letters then a one-based row number),
    /// ignoring surrounding white space; letters are case-insensitive.
    pub fn parse_a1(input: &str) -> (result: Result<CellRef, ReferenceError>)
        ensures
            a1_result(input@, result),
    {
        let chars = chars_of(input);
        assert(chars@.subrange(0, chars@.len() as int) =~= input@);
        Self::parse_chars(&chars, 0, chars.len())
    }

    /// `parse_a1` over the characters `chars[from..to]`.
    pub fn parse_chars(chars: &Vec<char>, from: usize, to: usize) -> (result: Result<
        CellRef,
        ReferenceError,
    >)
        requires
            from <= to <= chars@.len(),
        ensures
            a1_result(chars@.subrange(from as int, to as int), result),
    {
        let ghost input = chars@.subrange(from as int, to as int);
        let (start, end) = trim_bounds(chars.as_slice(), from, to);
        let ghost t = chars@.subrange(start as int, end as int);
        assert(t == trim(input));
        let mut split = start;
        while split < end && (('a' <= chars[split] && chars[split] <= 'z') || ('A' <= chars[split]
            && chars[split] <= 'Z'))
            invariant
                start <= split <= end <= chars@.len(),
                forall|i: int| start <= i < split ==> is_ascii_alpha(#[trigger] chars@[i]),
            decreases end - split,
        {
            split += 1;
        }
        proof {
            assert forall|i: int| 0 <= i < split - start implies is_ascii_alpha(#[trigger] t[i]) by {
                assert(t[i] == chars@[start + i]);
            }
            if split < end {
                assert(t[split - start] == chars@[split as int]);
            }
            lemma_alpha_prefix_exact(t, split - start);
        }
        let ghost n = split - start;
        let ghost letters = t.subrange(0, n);
        let ghost digits = t.subrange(n, t.len() as int);
        if split == start || split == end {
            let text = string_of_range(chars.as_slice(), start, end);
            return Err(ReferenceError::InvalidCell(text));
        }
        let mut index = split;
        while index < end
            invariant
                start < split <= index <= end <= chars@.len(),
                t == chars@.subrange(start as int, end as int),
                t == trim(input),
                input == chars@.subrange(from as int, to as int),
                alpha_prefix_len(t) == split - start,
                digits == t.subrange(split - start, t.len() as int),
                forall|i: int| split <= i < index ==> is_ascii_digit(#[trigger] chars@[i]),
            decreases end - index,
        {
            if !('0' <= chars[index] && chars[index] <= '9') {
                proof {
                    assert(digits[index - split] == chars@[index as int]);
                    assert(!is_ascii_digit(digits[index - split]));
                    assert(!all_digits(digits));
                }
                let text = string_of_range(chars.as_slice(), start, end);
                return Err(ReferenceError::InvalidCell(text));
            }
            index += 1;
        }
        proof {
            assert(digits =~= chars@.subrange(split as int, end as int));
            assert forall|i: int| 0 <= i < digits.len() implies is_ascii_digit(#[trigger] digits[i]) by {
                assert(digits[i] == chars@[split + i]);
            }
        }
        let mut column_value: usize = 0;
        let mut position = start;
        while position < split
            invariant
                start <= position <= split <= end <= chars@.len(),
                t == chars@.subrange(start as int, end as int),
                t == trim(input),
                input == chars@.subrange(from as int, to as int),
                letters == t.subrange(0, split - start),
                digits == t.subrange(split - start, t.len() as int),
                all_digits(digits),
                alpha_prefix_len(t) == split - start,
                start < split < end,
                forall|i: int| 0 <= i < letters.len() ==> is_ascii_alpha(#[trigger] letters[i]),
                column_value == column_number(letters.take(position - start)),
            decreases split - position,
        {
            let ghost k = position - start;
            assert(letters.take(k + 1).drop_last() =~= letters.take(k));
            assert(letters.take(k + 1).last() == chars@[position as int]);
            assert(is_ascii_alpha(letters[k]));
            let upper = to_ascii_upper(chars[position]);
            let digit = (upper as u32 - 'A' as u32 + 1) as usize;
            let next = match column_value.checked_mul(26) {
                Some(v) => v.checked_add(digit),
                None => None,
            };
            match next {
                Some(v) => {
                    column_value = v;
                },
                None => {
                    proof {
                        lemma_column_number_monotone(letters, k + 1);
                        assert(column_number(letters.take(k + 1)) == column_value * 26 + digit);
                        assert(column_number(letters) > usize::MAX);
                    }
                    let text = string_of_range(chars.as_slice(), start, end);
                    return Err(ReferenceError::Overflow(text));
                },
            }
            position += 1;
        }
        assert(letters.take(split - start) =~= letters);
        let row_value = match read_digits(chars.as_slice(), split, end) {
            Some(v) => v,
            None => {
                let text = string_of_range(chars.as_slice(), start, end);
                return Err(ReferenceError::Overflow(text));
            },
        };
        if row_value == 0 {
            let text = string_of_range(chars.as_slice(), start, end);
            return Err(ReferenceError::InvalidCell(text));
        }
        proof {
            lemma_column_number_monotone(letters.drop_last(), 0);
            assert forall|i: int| 0 <= i < letters.drop_last().len() implies is_ascii_alpha(#[trigger] letters.drop_last()[i]) by {
                assert(letters.drop_last()[i] == letters[i]);
            }
            assert(is_ascii_alpha(letters.last()));
        }
        Ok(CellRef { row: row_value - 1, column: column_value - 1 })
    }

    /// The A1 text of this position, such as `AA10`.
    pub fn to_string(&self) -> (text: String)
        ensures
            text@ == a1_text(self.row as int, self.column as int),
    {
        let mut out: Vec<char> = Vec::new();
        push_column_letters(&mut out, self.column as u128 + 1);
        push_decimal_digits(&mut out, self.row as u128 + 1);
        string_of(out.as_slice())
    }
}

proof fn lemma_column_letters(n: nat)
    requires
        n >= 1,
    ensures
        column_letters(n).len() >= 1,
        forall|i: int|
            0 <= i < column_letters(n).len() ==> 'A' <= #[trigger] column_letters(n)[i] <= 'Z',
        column_number(column_letters(n)) == n,
    decreases n,
{
    let q = ((n - 1) / 26) as nat;
    let c = ('A' as u32 + ((n - 1) % 26) as nat) as char;
    let s = column_letters(n);
    assert(s == column_letters(q) + seq![c]);
    if q >= 1 {
        lemma_column_letters(q);
    } else {
        assert(column_letters(q) =~= Seq::<char>::empty());
    }
    assert(s.drop_last() =~= column_letters(q));
    assert(s.last() == c);
    assert(letter_value(c) == (n - 1) % 26 + 1);
    assert(column_number(s) == column_number(s.drop_last()) * 26 + letter_value(s.last()));
    assert(column_number(s.drop_last()) == q);
    assert(q * 26 + (n - 1) % 26 == n - 1) by (nonlinear_arith)
        requires
            q == (n - 1) / 26,
            n >= 1,
    ;
    assert(forall|i: int| 0 <= i < s.len() ==> 'A' <= #[trigger] s[i] <= 'Z') by {
        assert forall|i: int| 0 <= i < s.len() implies 'A' <= #[trigger] s[i] <= 'Z' by {
            if i < s.len() - 1 {
                assert(s[i] == column_letters(q)[i]);
            }
        }
    }
}

pub(crate) proof fn lemma_decimal_digits(n: nat)
    ensures
        decimal_digits(n).len() >= 1,
        all_digits(decimal_digits(n)),
        digits_value(decimal_digits(n)) == n,
    decreases n,
{
    let s = decimal_digits(n);
    if n >= 10 {
        lemma_decimal_digits(n / 10);
        let c = ('0' as u32 + n % 10) as char;
        assert(s == decimal_digits(n / 10) + seq![c]);
        assert(s.drop_last() =~= decimal_digits(n / 10));
        assert(s.last() == c);
        assert(digits_value(s) == digits_value(s.drop_last()) * 10 + (c as int - '0' as int));
        assert((n / 10) * 10 + n % 10 == n) by (nonlinear_arith);
        assert forall|i: int| 0 <= i < s.len() implies is_ascii_digit(#[trigger] s[i]) by {
            if i < s.len() - 1 {
                assert(s[i] == decimal_digits(n / 10)[i]);
            }
        }
    } else {
        assert(s.drop_last() =~= Seq::<char>::empty());
        assert(digits_value(s) == digits_value(s.drop_last()) * 10 + (s.last() as int - '0' as int));
    }
}

/// Reading back the A1 text of a position gives that position.
pub proof fn lemma_a1_round_trip(row: int, column: int)
    requires
        0 <= row < usize::MAX,
        0 <= column < usize::MAX,
    ensures
        a1_failure(a1_text(row, column)) is None,
        a1_row(a1_text(row, column)) == row,
        a1_column(a1_text(row, column)) == column,
{
    let letters = column_letters((column + 1) as nat);
    let digits = decimal_digits((row + 1) as nat);
    lemma_column_letters((column + 1) as nat);
    lemma_decimal_digits((row + 1) as nat);
    let text = a1_text(row, column);
    assert(text == letters + digits);
    assert(text[0] == letters[0]);
    assert(text.last() == digits.last());
    assert(is_ascii_digit(digits[digits.len() - 1]));
    lemma_trim_unchanged(text);
    lemma_alpha_prefix_bounds(text);
    let n = alpha_prefix_len(text);
    if n < letters.len() {
        assert(text[n] == letters[n]);
    }
    if n > letters.len() {
        assert(text[letters.len() as int] == digits[0]);
        assert(is_ascii_digit(digits[0]));
    }
    assert(n == letters.len());
    assert(text.subrange(0, n) =~= letters);
    assert(text.subrange(n, text.len() as int) =~= digits);
}

/// A run of letters read as a column number gives back its letters upper-cased.
proof fn lemma_column_letters_of(letters: Seq<char>)
    requires
        forall|i: int| 0 <= i < letters.len() ==> is_ascii_alpha(#[trigger] letters[i]),
    ensures
        column_number(letters) >= 0,
        column_letters(column_number(letters) as nat) == letters.map_values(|c: char| ascii_upper(c)),
    decreases letters.len(),
{
    if letters.len() > 0 {
        let prefix = letters.drop_last();
        assert forall|i: int| 0 <= i < prefix.len() implies is_ascii_alpha(#[trigger] prefix[i]) by {
            assert(prefix[i] == letters[i]);
        }
        lemma_column_letters_of(prefix);
        let last = letters.last();
        assert(is_ascii_alpha(letters[letters.len() - 1]));
        let c = column_number(prefix);
        let v = letter_value(last);
        assert(1 <= v <= 26);
        let n = c * 26 + v;
        assert(column_number(letters) == n);
        assert((n - 1) / 26 == c && (n - 1) % 26 == v - 1) by (nonlinear_arith)
            requires
                n == c * 26 + v,
                1 <= v <= 26,
                c >= 0,
        ;
        assert(('A' as u32 + ((n - 1) % 26) as nat) as char == ascii_upper(last));
        assert(column_letters(n as nat) == column_letters(c as nat) + seq![ascii_upper(last)]);
        assert(letters.map_values(|c: char| ascii_upper(c)) =~= prefix.map_values(|c: char| ascii_upper(c))
            + seq![ascii_upper(last)]);
    }
}

/// A run of digits without a leading zero, read as a number, gives back its digits.
proof fn lemma_decimal_digits_of(digits: Seq<char>)
    requires
        digits.len() >= 1,
        all_digits(digits),
        digits[0] != '0',
    ensures
        digits_value(digits) >= 1,
        decimal_digits(digits_value(digits) as nat) == digits,
    decreases digits.len(),
{
    let n = digits_value(digits);
    let d = digits.last() as int - '0' as int;
    assert(is_ascii_digit(digits[digits.len() - 1]));
    if digits.len() == 1 {
        assert(digits.drop_last() =~= Seq::<char>::empty());
        assert(digits_value(digits.drop_last()) == 0);
        assert(n == digits_value(digits.drop_last()) * 10 + d);
        assert(n == d);
        assert(seq![('0' as u32 + n as nat) as char] =~= digits);
    } else {
        let prefix = digits.drop_last();
        assert(prefix[0] == digits[0]);
        assert forall|i: int| 0 <= i < prefix.len() implies is_ascii_digit(#[trigger] prefix[i]) by {
            assert(prefix[i] == digits[i]);
        }
        lemma_decimal_digits_of(prefix);
        let m = digits_value(prefix);
        assert(n == m * 10 + d);
        assert(n / 10 == m && n % 10 == d && n >= 10) by (nonlinear_arith)
            requires
                n == m * 10 + d,
                0 <= d <= 9,
                m >= 1,
        ;
        assert(decimal_digits(n as nat) == decimal_digits(m as nat) + seq![('0' as u32 + (n % 10) as nat) as char]);
        assert(decimal_digits(n as nat) =~= digits);
    }
}

/// The A1 text of a read reference is the text read, trimmed and upper-cased, when its row
/// number has no leading zero; so formatting and reading again gives the same reference.
pub proof fn lemma_a1_text_of_read(input: Seq<char>)
    requires
        a1_failure(input) is None,
        trim(input)[alpha_prefix_len(trim(input))] != '0',
    ensures
        a1_text(a1_row(input), a1_column(input)) == trim(input).map_values(|c: char| ascii_upper(c)),
{
    let t = trim(input);
    let n = alpha_prefix_len(t);
    lemma_alpha_prefix_bounds(t);
    let letters = t.subrange(0, n);
    let digits = t.subrange(n, t.len() as int);
    assert forall|i: int| 0 <= i < letters.len() implies is_ascii_alpha(#[trigger] letters[i]) by {
        assert(letters[i] == t[i]);
    }
    lemma_column_letters_of(letters);
    assert(digits[0] == t[n]);
    lemma_decimal_digits_of(digits);
    assert(t.map_values(|c: char| ascii_upper(c)) =~= letters.map_values(|c: char| ascii_upper(c))
        + digits) by {
        assert forall|i: int| n <= i < t.len() implies ascii_upper(#[trigger] t[i]) == t[i] by {
            assert(t[i] == digits[i - n]);
            assert(is_ascii_digit(digits[i - n]));
        }
    }
}

/// Pushes the column letters of the one-based column number `n`.
pub fn push_column_letters(out: &mut Vec<char>, n: u128)
    ensures
        final(out)@ == old(out)@ + column_letters(n as nat),
    decreases n,
{
    if n == 0 {
        assert(final(out)@ =~= old(out)@ + column_letters(n as nat));
        return;
    }
    push_column_letters(out, (n - 1) / 26);
    let remainder: u32 = ((n - 1) % 26) as u32;
    out.push(char_from_code(65 + remainder));
    assert(('A' as u32 + ((n - 1) % 26) as nat) as char == (65 + remainder) as char);
    assert(final(out)@ =~= old(out)@ + column_letters(n as nat));
}

} // verus!

verus! {

/// A rectangular range of cells; `start` is the top-left and `end` the bottom-right corner.
#[derive(Debug, Clone, Copy, PartialEq, Eq, Structural)]
pub struct CellRange {
    start: CellRef,
    end: CellRef,
}

pub open spec fn min_int(a: int, b: int) -> int {
    if a <= b {
        a
    } else {
        b
    }
}

pub open spec fn max_int(a: int, b: int) -> int {
    if a >= b {
        a
    } else {
        b
    }
}

/// Number of occurrences of `c` in `s`.
pub open spec fn count_char(s: Seq<char>, c: char) -> nat
    decreases s.len(),
{
    if s.len() == 0 {
        0
    } else {
        count_char(s.drop_last(), c) + if s.last() == c {
            1nat
        } else {
            0nat
        }
    }
}

/// Index of the first occurrence of `c` in `s` (or `s.len()` when absent).
pub open spec fn first_index_of(s: Seq<char>, c: char) -> int
    decreases s.len(),
{
    if s.len() == 0 {
        0
    } else if s[0] == c {
        0
    } else {
        1 + first_index_of(s.drop_first(), c)
    }
}

/// The A1 text of a range: one reference for a single cell, else `start:end`.
pub open spec fn range_text(range: CellRange) -> Seq<char> {
    if range.start() == range.end() {
        a1_text(range.start().row as int, range.start().column as int)
    } else {
        a1_text(range.start().row as int, range.start().column as int) + seq![':'] + a1_text(
            range.end().row as int,
            range.end().column as int,
        )
    }
}

/// `range` spans the rectangle with corners `(r1, c1)` and `(r2, c2)`.
pub open spec fn spans(range: CellRange, r1: int, c1: int, r2: int, c2: int) -> bool {
    &&& range.start().row == min_int(r1, r2)
    &&& range.start().column == min_int(c1, c2)
    &&& range.end().row == max_int(r1, r2)
    &&& range.end().column == max_int(c1, c2)
}

/// `result` is what reading the A1 range text `input` (`A1`, `A1:B4`) gives.
pub open spec fn range_result(input: Seq<char>, result: Result<CellRange, ReferenceError>) -> bool {
    let t = trim(input);
    let k = first_index_of(t, ':');
    let first = t.subrange(0, k);
    let second = t.subrange(k + 1, t.len() as int);
    if count_char(t, ':') >= 2 {
        result matches Err(ReferenceError::InvalidRange(text)) && text@ == t
    } else if count_char(t, ':') == 0 {
        match result {
            Ok(range) => a1_failure(t) is None && spans(
                range,
                a1_row(t),
                a1_column(t),
                a1_row(t),
                a1_column(t),
            ),
            Err(error) => a1_result(t, Err(error)),
        }
    } else if a1_failure(first) is Some {
        result matches Err(error) && a1_result(first, Err(error))
    } else if trim(second).len() == 0 {
        result matches Err(ReferenceError::InvalidRange(text)) && text@ == t
    } else if a1_failure(second) is Some {
        result matches Err(error) && a1_result(second, Err(error))
    } else {
        result matches Ok(range) && spans(
            range,
            a1_row(first),
            a1_column(first),
            a1_row(second),
            a1_column(second),
        )
    }
}

proof fn lemma_count_char_prefix(s: Seq<char>, c: char, k: int)
    requires
        0 <= k <= s.len(),
    ensures
        count_char(s.take(k), c) <= count_char(s, c),
    decreases s.len(),
{
    if k < s.len() {
        assert(s.drop_last().take(k) =~= s.take(k));
        lemma_count_char_prefix(s.drop_last(), c, k);
    } else {
        assert(s.take(k) =~= s);
    }
}

proof fn lemma_first_index(s: Seq<char>, c: char, k: int)
    requires
        0 <= k <= s.len(),
        forall|i: int| 0 <= i < k ==> s[i] != c,
        k < s.len() ==> s[k] == c,
    ensures
        first_index_of(s, c) == k,
    decreases s.len(),
{
    if k > 0 {
        let t = s.drop_first();
        assert(s[0] != c);
        assert forall|i: int| 0 <= i < k - 1 implies t[i] != c by {
            assert(t[i] == s[i + 1]);
        }
        if k - 1 < t.len() {
            assert(t[k - 1] == s[k]);
        }
        lemma_first_index(t, c, k - 1);
    }
}

/// The `i`-th cell, in row-major order, of a range `width` cells wide whose top-left is `start`.
pub open spec fn nth_cell(start: CellRef, width: int, i: int) -> CellRef {
    CellRef { row: (start.row + i / width) as usize, column: (start.column + i % width) as usize }
}

impl CellRange {
    /// The range with corners `first` and `second`, in either order.
    pub fn new(first: CellRef, second: CellRef) -> (range: Self)
        ensures
            spans(range, first.row as int, first.column as int, second.row as int, second.column as int),
    {
        let start = CellRef::new(
            if first.row <= second.row { first.row } else { second.row },
            if first.column <= second.column { first.column } else { second.column },
        );
        let end = CellRef::new(
            if first.row >= second.row { first.row } else { second.row },
            if first.column >= second.column { first.column } else { second.column },
        );
        Self { start, end }
    }

    /// The top-left corner.
    pub closed spec fn start_spec(self) -> CellRef {
        self.start
    }

    /// The bottom-right corner.
    pub closed spec fn end_spec(self) -> CellRef {
        self.end
    }

    /// The corners are in order: `start` is never below or right of `end`.
    #[verifier::type_invariant]
    pub open spec fn corners_ordered(self) -> bool {
        self.start_spec().row <= self.end_spec().row && self.start_spec().column <= self.end_spec().column
    }

    /// The top-left corner; it is never below or right of the bottom-right one.
    #[verifier::when_used_as_spec(start_spec)]
    pub fn start(self) -> (start: CellRef)
        ensures
            start == self.start_spec(),
            start.row <= self.end_spec().row && start.column <= self.end_spec().column,
    {
        proof {
            use_type_invariant(&self);
        }
        self.start
    }

    #[verifier::when_used_as_spec(end_spec)]
    pub fn end(self) -> (end: CellRef)
        ensures
            end == self.end_spec(),
    {
        self.end
    }

    /// Every cell of the range, each once: row by row from the top, and left to right
    /// within a row.
    pub fn iter(self) -> (cells: Vec<CellRef>)
        requires
            (self.end_spec().row - self.start_spec().row + 1) * (self.end_spec().column - self.start_spec().column
                + 1) <= usize::MAX,
        ensures
            ({
                let width = self.end_spec().column - self.start_spec().column + 1;
                &&& cells@.len() == (self.end_spec().row - self.start_spec().row + 1) * width
                &&& forall|i: int| 0 <= i < cells@.len() ==> #[trigger] cells@[i] == nth_cell(self.start_spec(), width, i)
            }),
    {
        proof {
            use_type_invariant(&self);
        }
        self.ordered_cells()
    }

    /// Every cell of a range whose start is its top-left corner.
    fn ordered_cells(self) -> (cells: Vec<CellRef>)
        requires
            self.start().row <= self.end().row,
            self.start().column <= self.end().column,
            (self.end().row - self.start().row + 1) * (self.end().column - self.start().column + 1) <= usize::MAX,
        ensures
            cells@.len() == (self.end().row - self.start().row + 1) * (self.end().column - self.start().column + 1),
            forall|i: int|
                0 <= i < cells@.len() ==> #[trigger] cells@[i] == nth_cell(
                    self.start(),
                    self.end().column - self.start().column + 1,
                    i,
                ),
    {
        let ghost h = self.end().row - self.start().row + 1;
        let ghost w = self.end().column - self.start().column + 1;
        assert(w <= usize::MAX && h <= usize::MAX && h * w == w * h) by (nonlinear_arith)
            requires
                h >= 1,
                w >= 1,
                h * w <= usize::MAX,
        ;
        let width = self.end().column - self.start().column + 1;
        let height = self.end().row - self.start().row + 1;
        let total = height * width;
        let mut cells: Vec<CellRef> = Vec::new();
        let mut k: usize = 0;
        while k < total
            invariant
                k <= total,
                total == h * w,
                width == w,
                width >= 1,
                height == h,
                h == self.end().row - self.start().row + 1,
                w == self.end().column - self.start().column + 1,
                cells@.len() == k,
                forall|i: int|
                    0 <= i < cells@.len() ==> #[trigger] cells@[i] == nth_cell(self.start(), width as int, i),
            decreases total - k,
        {
            proof {
                let ki = k as int;
                let wi = width as int;
                let hi = height as int;
                assert(ki / wi < hi && 0 <= ki % wi < wi && ki / wi >= 0) by (nonlinear_arith)
                    requires
                        0 <= ki < hi * wi,
                        wi >= 1,
                ;
            }
            let row = self.start().row + k / width;
            let column = self.start().column + k % width;
            cells.push(CellRef::new(row, column));
            k += 1;
        }
        cells
    }

    /// Reads a range written as one A1 reference or two joined by `:`.
    pub fn parse_a1(input: &str) -> (result: Result<CellRange, ReferenceError>)
        ensures
            range_result(input@, result),
    {
        let chars = chars_of(input);
        assert(chars@.subrange(0, chars@.len() as int) =~= input@);
        Self::parse_chars(&chars, 0, chars.len())
    }

    /// `parse_a1` over the characters `chars[from..to]`.
    pub fn parse_chars(chars: &Vec<char>, from: usize, to: usize) -> (result: Result<
        CellRange,
        ReferenceError,
    >)
        requires
            from <= to <= chars@.len(),
        ensures
            range_result(chars@.subrange(from as int, to as int), result),
    {
        let ghost input = chars@.subrange(from as int, to as int);
        let (start, end) = trim_bounds(chars.as_slice(), from, to);
        let ghost t = chars@.subrange(start as int, end as int);
        let mut colon = start;
        while colon < end && chars[colon] != ':'
            invariant
                start <= colon <= end <= chars@.len(),
                forall|i: int| start <= i < colon ==> chars@[i] != ':',
            decreases end - colon,
        {
            colon += 1;
        }
        proof {
            assert forall|i: int| 0 <= i < colon - start implies t[i] != ':' by {
                assert(t[i] == chars@[start + i]);
            }
            if colon < end {
                assert(t[colon - start] == chars@[colon as int]);
            }
            lemma_first_index(t, ':', colon - start);
        }
        if colon == end {
            proof {
                assert(count_char(t.take(t.len() as int), ':') == 0) by {
                    lemma_no_colon(t, colon - start);
                }
                assert(t.take(t.len() as int) =~= t);
            }
            let first = CellRef::parse_chars(chars, start, end);
            proof {
                assert(trim(t) == t) by {
                    lemma_trim_idempotent(chars@, from as int, to as int, start as int, end as int);
                }
            }
            return match first {
                Ok(reference) => Ok(CellRange::new(reference, reference)),
                Err(error) => Err(error),
            };
        }
        let mut second_colon = colon + 1;
        while second_colon < end && chars[second_colon] != ':'
            invariant
                colon < second_colon <= end <= chars@.len(),
                forall|i: int| colon < i < second_colon ==> chars@[i] != ':',
            decreases end - second_colon,
        {
            second_colon += 1;
        }
        proof {
            lemma_colon_count(t, colon - start, second_colon - start, chars@, start as int);
        }
        if second_colon < end {
            let text = string_of_range(chars.as_slice(), start, end);
            return Err(ReferenceError::InvalidRange(text));
        }
        let first = match CellRef::parse_chars(chars, start, colon) {
            Ok(reference) => reference,
            Err(error) => {
                assert(chars@.subrange(start as int, colon as int) =~= t.subrange(0, colon - start));
                return Err(error);
            },
        };
        assert(chars@.subrange(start as int, colon as int) =~= t.subrange(0, colon - start));
        let (second_start, second_end) = trim_bounds(chars.as_slice(), colon + 1, end);
        assert(chars@.subrange(colon + 1, end as int) =~= t.subrange(colon - start + 1, t.len() as int));
        if second_start == second_end {
            let text = string_of_range(chars.as_slice(), start, end);
            return Err(ReferenceError::InvalidRange(text));
        }
        let second = match CellRef::parse_chars(chars, colon + 1, end) {
            Ok(reference) => reference,
            Err(error) => {
                return Err(error);
            },
        };
        proof {
            assert(trim(t) == t) by {
                lemma_trim_idempotent(chars@, from as int, to as int, start as int, end as int);
            }
        }
        Ok(CellRange::new(first, second))
    }

    /// The A1 text of the range: one reference for a single cell, else `start:end`.
    pub fn to_string(&self) -> (text: String)
        ensures
            text@ == range_text(*self),
    {
        let mut out: Vec<char> = Vec::new();
        push_column_letters(&mut out, self.start().column as u128 + 1);
        push_decimal_digits(&mut out, self.start().row as u128 + 1);
        if !(self.start() == self.end()) {
            out.push(':');
            push_column_letters(&mut out, self.end().column as u128 + 1);
            push_decimal_digits(&mut out, self.end().row as u128 + 1);
        }
        string_of(out.as_slice())
    }
}

proof fn lemma_a1_text_chars(row: int, column: int)
    requires
        0 <= row < usize::MAX,
        0 <= column < usize::MAX,
    ensures
        a1_text(row, column).len() >= 2,
        forall|i: int|
            0 <= i < a1_text(row, column).len() ==> #[trigger] a1_text(row, column)[i] != ':'
                && !is_white_space(a1_text(row, column)[i]),
{
    let letters = column_letters((column + 1) as nat);
    let digits = decimal_digits((row + 1) as nat);
    lemma_column_letters((column + 1) as nat);
    lemma_decimal_digits((row + 1) as nat);
    let text = a1_text(row, column);
    assert forall|i: int| 0 <= i < text.len() implies #[trigger] text[i] != ':' && !is_white_space(
        text[i],
    ) by {
        if i < letters.len() {
            assert(text[i] == letters[i]);
        } else {
            assert(text[i] == digits[i - letters.len()]);
            assert(is_ascii_digit(digits[i - letters.len()]));
        }
    }
}

/// A range whose corners are in order reads back from its A1 text as itself, and as
/// nothing else.
pub proof fn lemma_range_round_trip(range: CellRange)
    requires
        range.start().row <= range.end().row < usize::MAX,
        range.start().column <= range.end().column < usize::MAX,
    ensures
        range_result(range_text(range), Ok(range)),
        forall|result: Result<CellRange, ReferenceError>|
            range_result(range_text(range), result) ==> result == Ok::<CellRange, ReferenceError>(
                range,
            ),
{
    let (sr, sc) = (range.start().row as int, range.start().column as int);
    let (er, ec) = (range.end().row as int, range.end().column as int);
    let a = a1_text(sr, sc);
    lemma_a1_round_trip(sr, sc);
    lemma_a1_text_chars(sr, sc);
    let text = range_text(range);
    if range.start() == range.end() {
        assert(text == a);
        lemma_trim_unchanged(text);
        lemma_no_colon(text, text.len() as int);
        assert(text.take(text.len() as int) =~= text);
        assert forall|result: Result<CellRange, ReferenceError>|
            range_result(text, result) implies result == Ok::<CellRange, ReferenceError>(range) by {
            if let Ok(other) = result {
                assert(other.start() == range.start());
                assert(other.end() == range.end());
            }
        }
    } else {
        let b = a1_text(er, ec);
        lemma_a1_round_trip(er, ec);
        lemma_a1_text_chars(er, ec);
        let k = a.len() as int;
        assert(text == a + seq![':'] + b);
        assert(text[0] == a[0]);
        assert(text.last() == b.last());
        lemma_trim_unchanged(text);
        assert(text[k] == ':');
        assert forall|i: int| 0 <= i < k implies text[i] != ':' by {
            assert(text[i] == a[i]);
        }
        assert forall|i: int| k < i < text.len() implies text[i] != ':' by {
            assert(text[i] == b[i - k - 1]);
        }
        lemma_first_index(text, ':', k);
        lemma_count_upto(text, k, text.len() as int);
        assert(text.subrange(0, k) =~= a);
        assert(text.subrange(k + 1, text.len() as int) =~= b);
        lemma_trim_unchanged(b);
        assert forall|result: Result<CellRange, ReferenceError>|
            range_result(text, result) implies result == Ok::<CellRange, ReferenceError>(range) by {
            if let Ok(other) = result {
                assert(other.start() == range.start());
                assert(other.end() == range.end());
            }
        }
    }
}

proof fn lemma_no_colon(t: Seq<char>, k: int)
    requires
        k == t.len(),
        forall|i: int| 0 <= i < k ==> t[i] != ':',
    ensures
        count_char(t.take(t.len() as int), ':') == 0,
    decreases t.len(),
{
    assert(t.take(t.len() as int) =~= t);
    if t.len() > 0 {
        let u = t.drop_last();
        assert forall|i: int| 0 <= i < u.len() implies u[i] != ':' by {
            assert(u[i] == t[i]);
        }
        lemma_no_colon(u, k - 1);
        assert(u.take(u.len() as int) =~= u);
    }
}

proof fn lemma_colon_count(t: Seq<char>, a: int, b: int, chars: Seq<char>, start: int)
    requires
        0 <= a < b <= t.len(),
        0 <= start,
        start + t.len() <= chars.len(),
        t == chars.subrange(start, start + t.len()),
        chars[start + a] == ':',
        forall|i: int| 0 <= i < a ==> t[i] != ':',
        forall|i: int| start + a < i < start + b ==> chars[i] != ':',
        b < t.len() ==> chars[start + b] == ':',
    ensures
        b < t.len() ==> count_char(t, ':') >= 2,
        b == t.len() ==> count_char(t, ':') == 1,
    decreases t.len(),
{
    lemma_count_upto(t, a, b);
}

proof fn lemma_count_upto(t: Seq<char>, a: int, b: int)
    requires
        0 <= a < b <= t.len(),
        t[a] == ':',
        forall|i: int| 0 <= i < a ==> t[i] != ':',
        forall|i: int| a < i < b ==> t[i] != ':',
        b < t.len() ==> t[b] == ':',
    ensures
        count_char(t.take(b), ':') == 1,
        b < t.len() ==> count_char(t, ':') >= 2,
        b == t.len() ==> count_char(t, ':') == 1,
{
    lemma_count_prefix_exact(t, a, b);
    if b < t.len() {
        assert(t.take(b + 1).drop_last() =~= t.take(b));
        lemma_count_char_prefix(t, ':', b + 1);
    } else {
        assert(t.take(b) =~= t);
    }
}

proof fn lemma_count_prefix_exact(t: Seq<char>, a: int, k: int)
    requires
        0 <= a < k <= t.len(),
        t[a] == ':',
        forall|i: int| 0 <= i < k && i != a ==> t[i] != ':',
    ensures
        count_char(t.take(k), ':') == 1,
    decreases k,
{
    assert(t.take(k).drop_last() =~= t.take(k - 1));
    if k - 1 > a {
        lemma_count_prefix_exact(t, a, k - 1);
    } else {
        lemma_count_none(t, a);
    }
}

proof fn lemma_count_none(t: Seq<char>, k: int)
    requires
        0 <= k <= t.len(),
        forall|i: int| 0 <= i < k ==> t[i] != ':',
    ensures
        count_char(t.take(k), ':') == 0,
    decreases k,
{
    if k > 0 {
        assert(t.take(k).drop_last() =~= t.take(k - 1));
        lemma_count_none(t, k - 1);
    }
}

proof fn lemma_trim_idempotent(chars: Seq<char>, from: int, to: int, start: int, end: int)
    requires
        0 <= from <= start <= end <= to <= chars.len(),
        chars.subrange(start, end) == trim(chars.subrange(from, to)),
    ensures
        trim(chars.subrange(start, end)) == chars.subrange(start, end),
{
    let t = chars.subrange(start, end);
    let s = chars.subrange(from, to);
    lemma_trim_start_index_bounds(s);
    let u = trim_start(s);
    lemma_trim_end_index_bounds(u);
    assert(t == u.subrange(0, trim_end_index(u)));
    if t.len() > 0 {
        assert(t[0] == s[trim_start_index(s)]);
        assert(!is_white_space(t[0]));
        assert(t.last() == u[trim_end_index(u) - 1]);
        assert(!is_white_space(t.last()));
    }
    lemma_trim_start_index_char(t, 0);
    assert(trim_start(t) =~= t);
    lemma_trim_end_index_char(t, t.len() as int);
    assert(trim_end(t) =~= t);
}

impl std::str::FromStr for CellRef {
    type Err = ReferenceError;

    /// Reads an A1 reference (see `CellRef::parse_a1`).
    fn from_str(text: &str) -> (result: Result<CellRef, ReferenceError>)
        ensures
            a1_result(text@, result),
    {
        CellRef::parse_a1(text)
    }
}

impl std::str::FromStr for CellRange {
    type Err = ReferenceError;

    /// Reads an A1 cell or range (see `CellRange::parse_a1`).
    fn from_str(text: &str) -> (result: Result<CellRange, ReferenceError>)
        ensures
            range_result(text@, result),
    {
        CellRange::parse_a1(text)
    }
}

} // verus!
