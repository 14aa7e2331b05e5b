//! Character-level helpers shared by the address parser and the DSL.

use vstd::prelude::*;

verus! {

/// The Unicode `White_Space` property, which is what `char::is_whitespace` tests.
pub open spec fn is_white_space(c: char) -> bool {
    ||| ('\u{9}' <= c && c <= '\u{d}')
    ||| c == ' '
    ||| c == '\u{85}'
    ||| c == '\u{a0}'
    ||| c == '\u{1680}'
    ||| ('\u{2000}' <= c && c <= '\u{200a}')
    ||| c == '\u{2028}'
    ||| c == '\u{2029}'
    ||| c == '\u{202f}'
    ||| c == '\u{205f}'
    ||| c == '\u{3000}'
}

pub fn white_space(c: char) -> (result: bool)
    ensures
        result == is_white_space(c),
{
    ('\u{9}' <= c && c <= '\u{d}') || c == ' ' || c == '\u{85}' || c == '\u{a0}' || c
        == '\u{1680}' || ('\u{2000}' <= c && c <= '\u{200a}') || c == '\u{2028}' || c
        == '\u{2029}' || c == '\u{202f}' || c == '\u{205f}' || c == '\u{3000}'
}

pub open spec fn is_ascii_alpha(c: char) -> bool {
    ('a' <= c && c <= 'z') || ('A' <= c && c <= 'Z')
}

pub open spec fn is_ascii_digit(c: char) -> bool {
    '0' <= c && c <= '9'
}

/// ASCII upper-casing of one character; other characters are unchanged.
pub open spec fn ascii_upper(c: char) -> char {
    if 'a' <= c && c <= 'z' {
        ((c as u32) - 32) as char
    } else {
        c
    }
}

/// ASCII lower-casing of one character; other characters are unchanged.
pub open spec fn ascii_lower(c: char) -> char {
    if 'A' <= c && c <= 'Z' {
        ((c as u32) + 32) as char
    } else {
        c
    }
}

pub fn to_ascii_lower(c: char) -> (result: char)
    ensures
        result == ascii_lower(c),
{
    if 'A' <= c && c <= 'Z' {
        let code: u32 = (c as u32) + 32;
        char_from_code(code)
    } else {
        c
    }
}

pub fn to_ascii_upper(c: char) -> (result: char)
    ensures
        result == ascii_upper(c),
{
    if 'a' <= c && c <= 'z' {
        let code: u32 = (c as u32) - 32;
        char_from_code(code)
    } else {
        c
    }
}

/// Converts an ASCII code point back to its character.
pub fn char_from_code(code: u32) -> (c: char)
    requires
        code < 128,
    ensures
        c == code as char,
        c as u32 == code,
{
    let byte: u8 = code as u8;
    byte as char
}

/// Lower-cases every ASCII letter of a character sequence.
pub open spec fn lower_seq(s: Seq<char>) -> Seq<char> {
    s.map_values(|c: char| ascii_lower(c))
}

/// ASCII case-insensitive equality, as `str::eq_ignore_ascii_case`.
pub open spec fn eq_ci(a: Seq<char>, b: Seq<char>) -> bool {
    lower_seq(a) == lower_seq(b)
}

/// Index of the first character that is not white space.
pub open spec fn trim_start_index(s: Seq<char>) -> int
    decreases s.len(),
{
    if s.len() == 0 || !is_white_space(s[0]) {
        0
    } else {
        1 + trim_start_index(s.drop_first())
    }
}

/// Index just past the last character that is not white space.
pub open spec fn trim_end_index(s: Seq<char>) -> int
    decreases s.len(),
{
    if s.len() == 0 || !is_white_space(s.last()) {
        s.len() as int
    } else {
        trim_end_index(s.drop_last())
    }
}

/// `str::trim_start`.
pub open spec fn trim_start(s: Seq<char>) -> Seq<char> {
    s.subrange(trim_start_index(s), s.len() as int)
}

/// `str::trim_end`.
pub open spec fn trim_end(s: Seq<char>) -> Seq<char> {
    s.subrange(0, trim_end_index(s))
}

/// `str::trim`.
pub open spec fn trim(s: Seq<char>) -> Seq<char> {
    trim_end(trim_start(s))
}

pub proof fn lemma_trim_start_index_bounds(s: Seq<char>)
    ensures
        0 <= trim_start_index(s) <= s.len(),
        forall|i: int| 0 <= i < trim_start_index(s) ==> is_white_space(#[trigger] s[i]),
        trim_start_index(s) < s.len() ==> !is_white_space(s[trim_start_index(s)]),
    decreases s.len(),
{
    if s.len() > 0 && is_white_space(s[0]) {
        lemma_trim_start_index_bounds(s.drop_first());
        assert forall|i: int| 0 <= i < trim_start_index(s) implies is_white_space(#[trigger] s[i]) by {
            if i > 0 {
                assert(s[i] == s.drop_first()[i - 1]);
            }
        }
    }
}

pub proof fn lemma_trim_end_index_bounds(s: Seq<char>)
    ensures
        0 <= trim_end_index(s) <= s.len(),
        forall|i: int| trim_end_index(s) <= i < s.len() ==> is_white_space(#[trigger] s[i]),
        trim_end_index(s) > 0 ==> !is_white_space(s[trim_end_index(s) - 1]),
    decreases s.len(),
{
    if s.len() > 0 && is_white_space(s.last()) {
        lemma_trim_end_index_bounds(s.drop_last());
        assert forall|i: int| trim_end_index(s) <= i < s.len() implies is_white_space(
            #[trigger] s[i],
        ) by {
            if i < s.len() - 1 {
                assert(s[i] == s.drop_last()[i]);
            }
        }
    }
}

pub proof fn lemma_trim_start_index_char(s: Seq<char>, k: int)
    requires
        0 <= k <= s.len(),
        forall|i: int| 0 <= i < k ==> is_white_space(#[trigger] s[i]),
        k < s.len() ==> !is_white_space(s[k]),
    ensures
        trim_start_index(s) == k,
    decreases s.len(),
{
    if k > 0 {
        assert(is_white_space(s[0]));
        let t = s.drop_first();
        assert forall|i: int| 0 <= i < k - 1 implies is_white_space(#[trigger] t[i]) by {
            assert(t[i] == s[i + 1]);
        }
        if k - 1 < t.len() {
            assert(t[k - 1] == s[k]);
        }
        lemma_trim_start_index_char(t, k - 1);
    }
}

pub proof fn lemma_trim_end_index_char(s: Seq<char>, k: int)
    requires
        0 <= k <= s.len(),
        forall|i: int| k <= i < s.len() ==> is_white_space(#[trigger] s[i]),
        k > 0 ==> !is_white_space(s[k - 1]),
    ensures
        trim_end_index(s) == k,
    decreases s.len(),
{
    if k < s.len() {
        assert(is_white_space(s[s.len() - 1]));
        let t = s.drop_last();
        assert forall|i: int| k <= i < t.len() implies is_white_space(#[trigger] t[i]) by {
            assert(t[i] == s[i]);
        }
        if k > 0 {
            assert(t[k - 1] == s[k - 1]);
        }
        lemma_trim_end_index_char(t, k);
    }
}

/// Text that neither starts nor ends with white space is its own trimmed text.
pub proof fn lemma_trim_unchanged(s: Seq<char>)
    requires
        s.len() > 0,
        !is_white_space(s[0]),
        !is_white_space(s.last()),
    ensures
        trim(s) == s,
{
    lemma_trim_start_index_char(s, 0);
    let t = trim_start(s);
    assert(t =~= s);
    lemma_trim_end_index_char(t, t.len() as int);
    assert(trim(s) =~= s);
}

/// Bounds of the trimmed part of a character vector: `trim(s) == s[start..end]`.
pub fn trim_bounds(s: &[char], from: usize, to: usize) -> (bounds: (usize, usize))
    requires
        from <= to <= s@.len(),
    ensures
        from <= bounds.0 <= bounds.1 <= to,
        s@.subrange(bounds.0 as int, bounds.1 as int) == trim(s@.subrange(from as int, to as int)),
        forall|i: int| from <= i < bounds.0 ==> is_white_space(#[trigger] s@[i]),
        bounds.0 < to ==> !is_white_space(s@[bounds.0 as int]),
        bounds.0 < bounds.1 ==> !is_white_space(s@[bounds.1 - 1]),
{
    let ghost t = s@.subrange(from as int, to as int);
    let mut start = from;
    while start < to && white_space(s[start])
        invariant
            from <= start <= to <= s@.len(),
            forall|i: int| from <= i < start ==> is_white_space(#[trigger] s@[i]),
        decreases to - start,
    {
        start += 1;
    }
    proof {
        assert forall|i: int| 0 <= i < start - from implies is_white_space(#[trigger] t[i]) by {
            assert(t[i] == s@[from + i]);
        }
        if start < to {
            assert(t[start - from] == s@[start as int]);
        }
        lemma_trim_start_index_char(t, start - from);
    }
    let mut end = to;
    while end > start && white_space(s[end - 1])
        invariant
            from <= start <= end <= to <= s@.len(),
            forall|i: int| end <= i < to ==> is_white_space(#[trigger] s@[i]),
        decreases end - start,
    {
        end -= 1;
    }
    proof {
        let u = trim_start(t);
        assert(u =~= s@.subrange(start as int, to as int));
        assert forall|i: int| end - start <= i < u.len() implies is_white_space(#[trigger] u[i]) by {
            assert(u[i] == s@[start + i]);
        }
        if end > start {
            assert(u[end - start - 1] == s@[end - 1]);
        }
        lemma_trim_end_index_char(u, end - start);
        assert(s@.subrange(start as int, end as int) =~= trim(t));
    }
    (start, end)
}

/// The characters of a string slice.
pub fn chars_of(s: &str) -> (chars: Vec<char>)
    ensures
        chars@ == s@,
{
    let mut chars: Vec<char> = Vec::new();
    for c in it: s.chars()
        invariant
            it.seq() == s@,
            chars@ == s@.take(it.index() as int),
    {
        chars.push(c);
    }
    assert(s@.take(s@.len() as int) =~= s@);
    chars
}

} // verus!

verus! {

/// Builds a `String` holding exactly the given characters (`String: FromIterator<char>`).
#[verifier::external_body]
pub fn string_of(chars: &[char]) -> (s: String)
    ensures
        s@ == chars@,
{
    chars.iter().collect()
}

/// Characters `from..to` of `chars` as a `String`.
pub fn string_of_range(chars: &[char], from: usize, to: usize) -> (s: String)
    requires
        from <= to <= chars@.len(),
    ensures
        s@ == chars@.subrange(from as int, to as int),
{
    let mut part: Vec<char> = Vec::new();
    let mut index = from;
    while index < to
        invariant
            from <= index <= to <= chars@.len(),
            part@ == chars@.subrange(from as int, index as int),
        decreases to - index,
    {
        part.push(chars[index]);
        index += 1;
        assert(part@ =~= chars@.subrange(from as int, index as int));
    }
    string_of(part.as_slice())
}

/// Decimal digits of a natural number, most significant first.
pub open spec fn decimal_digits(n: nat) -> Seq<char>
    decreases n,
{
    if n < 10 {
        seq![('0' as u32 + n) as char]
    } else {
        decimal_digits(n / 10) + seq![('0' as u32 + n % 10) as char]
    }
}

/// The decimal numeral of an integer, with a leading `-` when negative.
pub open spec fn integer_text(n: int) -> Seq<char> {
    if n < 0 {
        seq!['-'] + decimal_digits((-n) as nat)
    } else {
        decimal_digits(n as nat)
    }
}

/// Pushes the decimal digits of `n` onto `out`.
pub fn push_decimal_digits(out: &mut Vec<char>, n: u128)
    ensures
        final(out)@ == old(out)@ + decimal_digits(n as nat),
    decreases n,
{
    if n >= 10 {
        push_decimal_digits(out, n / 10);
    }
    let digit: u32 = (n % 10) as u32;
    out.push(char_from_code(48 + digit));
    proof {
        assert(('0' as u32 + (n % 10) as nat) as char == (48 + digit) as char);
        if n >= 10 {
            assert(final(out)@ =~= old(out)@ + decimal_digits(n as nat));
        } else {
            assert(final(out)@ =~= old(out)@ + decimal_digits(n as nat));
        }
    }
}

/// `i64::to_string`.
pub fn integer_to_string(n: i64) -> (s: String)
    ensures
        s@ == integer_text(n as int),
{
    let mut out: Vec<char> = Vec::new();
    if n < 0 {
        out.push('-');
        let magnitude: u128 = (-(n as i128)) as u128;
        push_decimal_digits(&mut out, magnitude);
    } else {
        push_decimal_digits(&mut out, n as u128);
    }
    assert(out@ =~= integer_text(n as int));
    string_of(out.as_slice())
}

/// `usize::to_string`.
pub fn count_to_string(n: usize) -> (s: String)
    ensures
        s@ == decimal_digits(n as nat),
{
    let mut out: Vec<char> = Vec::new();
    push_decimal_digits(&mut out, n as u128);
    assert(out@ =~= decimal_digits(n as nat));
    string_of(out.as_slice())
}

/// The items of a list of counts, separated by `, `.
pub open spec fn count_items_text(items: Seq<usize>) -> Seq<char>
    decreases items.len(),
{
    if items.len() == 0 {
        Seq::empty()
    } else if items.len() == 1 {
        decimal_digits(items[0] as nat)
    } else {
        count_items_text(items.drop_last()) + ", "@ + decimal_digits(items.last() as nat)
    }
}

/// A list of counts written as `[a, b, c]`, as `Debug` writes a `Vec<usize>`.
pub open spec fn count_list_text(items: Seq<usize>) -> Seq<char> {
    "["@ + count_items_text(items) + "]"@
}

/// The text of a list of counts (see `count_list_text`).
pub fn count_list_to_string(items: &Vec<usize>) -> (s: String)
    ensures
        s@ == count_list_text(items@),
{
    let mut text = String::from_str("[");
    let mut i: usize = 0;
    while i < items.len()
        invariant
            i <= items@.len(),
            text@ == "["@ + count_items_text(items@.take(i as int)),
        decreases items@.len() - i,
    {
        let ghost before = text@;
        if i > 0 {
            text.append(", ");
        }
        let item = count_to_string(items[i]);
        text.append(item.as_str());
        proof {
            let taken = items@.take(i + 1);
            assert(taken.drop_last() =~= items@.take(i as int));
            assert(taken.last() == items@[i as int]);
            if i > 0 {
                assert(text@ =~= "["@ + count_items_text(taken));
            } else {
                assert(items@.take(0) =~= Seq::<usize>::empty());
                assert(taken.len() == 1);
                assert(text@ =~= "["@ + count_items_text(taken));
            }
        }
        i += 1;
    }
    assert(items@.take(items@.len() as int) =~= items@);
    text.append("]");
    text
}

/// A line without the `\r` of a `\r\n` ending.
pub open spec fn strip_carriage_return(line: Seq<char>) -> Seq<char> {
    if line.len() > 0 && line.last() == '\r' {
        line.drop_last()
    } else {
        line
    }
}

/// The lines of `rest`, the current line having begun with `current`.
pub open spec fn lines_from(rest: Seq<char>, current: Seq<char>) -> Seq<Seq<char>>
    decreases rest.len(),
{
    if rest.len() == 0 {
        if current.len() > 0 {
            seq![current]
        } else {
            seq![]
        }
    } else if rest[0] == '\n' {
        seq![strip_carriage_return(current)] + lines_from(rest.drop_first(), seq![])
    } else {
        lines_from(rest.drop_first(), current.push(rest[0]))
    }
}

/// `str::lines`: the text split at each `\n` (a `\r` just before it is dropped), with
/// no empty line after a final `\n`.
pub open spec fn text_lines(text: Seq<char>) -> Seq<Seq<char>> {
    lines_from(text, seq![])
}

/// The lines of a text (see `text_lines`).
pub fn lines_of(text: &str) -> (lines: Vec<String>)
    ensures
        lines@.map_values(|line: String| line@) == text_lines(text@),
{
    let chars = chars_of(text);
    let mut lines: Vec<String> = Vec::new();
    let mut current: Vec<char> = Vec::new();
    let mut index: usize = 0;
    assert(chars@.skip(0) =~= chars@);
    while index < chars.len()
        invariant
            chars@ == text@,
            index <= chars@.len(),
            text_lines(text@) == lines@.map_values(|line: String| line@) + lines_from(
                chars@.skip(index as int),
                current@,
            ),
        decreases chars@.len() - index,
    {
        let ghost rest = chars@.skip(index as int);
        assert(rest[0] == chars@[index as int]);
        assert(rest.drop_first() =~= chars@.skip(index + 1));
        let ghost before = lines@.map_values(|line: String| line@);
        if chars[index] == '\n' {
            let mut end = current.len();
            if end > 0 && current[end - 1] == '\r' {
                end = end - 1;
            }
            let line = string_of_range(current.as_slice(), 0, end);
            assert(line@ =~= strip_carriage_return(current@));
            lines.push(line);
            current = Vec::new();
            assert(lines@.map_values(|line: String| line@) =~= before.push(line@));
            assert(before.push(line@) + lines_from(chars@.skip(index + 1), seq![]) =~= before + (
            seq![line@] + lines_from(chars@.skip(index + 1), seq![])));
        } else {
            let ghost previous = current@;
            current.push(chars[index]);
            assert(current@ == previous.push(chars@[index as int]));
        }
        index += 1;
    }
    let ghost before = lines@.map_values(|line: String| line@);
    assert(chars@.skip(index as int).len() == 0);
    if current.len() > 0 {
        let line = string_of(current.as_slice());
        lines.push(line);
        assert(lines@.map_values(|line: String| line@) =~= before + seq![line@]);
    } else {
        assert(before + Seq::<Seq<char>>::empty() =~= before);
    }
    lines
}

} // verus!
