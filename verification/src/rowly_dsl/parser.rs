//! The parser of the Rowly DSL: one statement per line, blocks closed by `End If`,
//! `Next`, `End Def` and `End Class`, keywords matched up to ASCII case.

use vstd::prelude::*;

use crate::process::{CellRange, ColumnType};
use crate::rowly_dsl::ast::{
    ArithmeticOperator, ClassDefinition, ColumnSelector, ComparisonOperator, Condition,
    DeclarationKind, Expression, FieldDefinition, FunctionDefinition, Program, StandardNamespace,
    Statement, UnaryOperator,
};
use crate::rowly_dsl::error::ParseError;
use crate::rowly_dsl::scan::{
    eq_ci_span, find_closing_parenthesis, find_ci, is_identifier, split_keyword_top_level,
    split_top_level_arithmetic, split_top_level_token, starts_with_ci, strip_outer_parentheses,
    strip_prefix_ci,
};
use crate::process::address::{all_digits, digits_value, lemma_digits_value_monotone};
use crate::text::{
    is_ascii_digit, lemma_trim_end_index_bounds, lemma_trim_start_index_bounds, lemma_trim_unchanged,
    trim_start,
};
use crate::text::{chars_of, eq_ci, is_white_space, string_of_range, to_ascii_lower, trim, trim_bounds};
use crate::text::{ascii_lower, lemma_trim_start_index_char, lower_seq, trim_start_index};
use crate::rowly_dsl::scan::{closes_at, is_identifier_text, starts_with_ci_spec, token_at};
use crate::rowly_dsl::scan::{scan_next, scan_state};

verus! {

/// A line of source that holds something: its one-based number and its trimmed text.
pub struct SourceLine {
    pub number: usize,
    pub text: Vec<char>,
}

fn err(line: usize, message: &str) -> (error: ParseError)
    ensures
        error.line == line,
        error.message@ == message@,
{
    ParseError { line, message: String::from_str(message) }
}

/// An error whose message is `before`, the characters `t[lo..hi]`, then `after`.
fn err_with(line: usize, before: &str, t: &Vec<char>, lo: usize, hi: usize, after: &str) -> (error: ParseError)
    requires
        lo <= hi <= t@.len(),
    ensures
        error.line == line,
        error.message@ == before@ + t@.subrange(lo as int, hi as int) + after@,
{
    let mut message = String::from_str(before);
    let middle = string_of_range(t.as_slice(), lo, hi);
    message.append(middle.as_str());
    message.append(after);
    ParseError { line, message }
}

fn span_string(t: &Vec<char>, lo: usize, hi: usize) -> (s: String)
    requires
        lo <= hi <= t@.len(),
    ensures
        s@ == t@.subrange(lo as int, hi as int),
{
    string_of_range(t.as_slice(), lo, hi)
}

fn trim_span(t: &Vec<char>, lo: usize, hi: usize) -> (span: (usize, usize))
    requires
        lo <= hi <= t@.len(),
    ensures
        lo <= span.0 <= span.1 <= hi,
        t@.subrange(span.0 as int, span.1 as int) == trim(t@.subrange(lo as int, hi as int)),
        forall|i: int| lo <= i < span.0 ==> is_white_space(#[trigger] t@[i]),
        span.0 < hi ==> !is_white_space(t@[span.0 as int]),
        trim(t@.subrange(span.0 as int, span.1 as int)) == t@.subrange(span.0 as int, span.1 as int),
{
    let (s, e) = trim_bounds(t.as_slice(), lo, hi);
    proof {
        let u = t@.subrange(s as int, e as int);
        if s < e {
            assert(u[0] == t@[s as int]);
            assert(u.last() == t@[e - 1]);
            lemma_trim_unchanged(u);
        } else {
            lemma_trim_start_index_bounds(u);
            lemma_trim_end_index_bounds(trim_start(u));
            assert(trim(u) =~= u);
        }
    }
    (s, e)
}

/// Whether two names are equal up to ASCII case.
pub fn names_match(a: &str, b: &str) -> (equal: bool)
    ensures
        equal == eq_ci(a@, b@),
{
    let chars = chars_of(a);
    assert(chars@.subrange(0, chars@.len() as int) =~= a@);
    eq_ci_span(&chars, 0, chars.len(), b)
}

/// The lines of `s`, cut at each `\n`; the last one is what follows the last `\n`, possibly
/// nothing.
pub open spec fn split_lines(s: Seq<char>) -> Seq<Seq<char>>
    decreases s.len(),
{
    if s.len() == 0 {
        seq![Seq::<char>::empty()]
    } else {
        let before = split_lines(s.drop_last());
        if s.last() == '\n' {
            before.push(Seq::<char>::empty())
        } else {
            before.update(before.len() - 1, before.last().push(s.last()))
        }
    }
}

/// Whether a trimmed line holds a statement: it is not empty and no comment (`'` or `Rem`).
pub open spec fn holds_statement(text: Seq<char>) -> bool {
    &&& text.len() > 0
    &&& text[0] != '\''
    &&& !eq_ci(text, "rem"@)
    &&& !starts_with_ci_spec(text, "rem "@)
}

/// The lines among `raw` that hold a statement, trimmed, each with its number counted from one.
pub open spec fn statement_lines(raw: Seq<Seq<char>>) -> Seq<(int, Seq<char>)>
    decreases raw.len(),
{
    if raw.len() == 0 {
        Seq::empty()
    } else {
        let before = statement_lines(raw.drop_last());
        let text = trim(raw.last());
        if holds_statement(text) {
            before.push((raw.len() as int, text))
        } else {
            before
        }
    }
}

/// Each source line as its number and its text.
pub open spec fn numbered_view(lines: Seq<SourceLine>) -> Seq<(int, Seq<char>)> {
    lines.map_values(|l: SourceLine| (l.number as int, l.text@))
}

proof fn lemma_split_lines_len(s: Seq<char>)
    ensures
        1 <= split_lines(s).len() <= s.len() + 1,
    decreases s.len(),
{
    if s.len() > 0 {
        lemma_split_lines_len(s.drop_last());
    }
}

/// Appends `chars[lo..hi]`, trimmed and numbered `number`, where it holds a statement.
fn push_statement_line(chars: &Vec<char>, lo: usize, hi: usize, number: usize, lines: &mut Vec<SourceLine>)
    requires
        lo <= hi <= chars@.len(),
        1 <= number,
        forall|i: int| 0 <= i < old(lines)@.len() ==> #[trigger] old(lines)@[i].number >= 1,
    ensures
        forall|i: int| 0 <= i < final(lines)@.len() ==> #[trigger] final(lines)@[i].number >= 1,
        ({
            let text = trim(chars@.subrange(lo as int, hi as int));
            numbered_view(final(lines)@) == numbered_view(old(lines)@) + if holds_statement(text) {
                seq![(number as int, text)]
            } else {
                Seq::empty()
            }
        }),
{
    let ghost before = lines@;
    let (s, e) = trim_span(chars, lo, hi);
    if s < e && !(chars[s] == '\'') {
        let mut text: Vec<char> = Vec::new();
        let mut k = s;
        while k < e
            invariant
                s <= k <= e <= chars@.len(),
                text@ == chars@.subrange(s as int, k as int),
            decreases e - k,
        {
            text.push(chars[k]);
            k += 1;
            assert(text@ =~= chars@.subrange(s as int, k as int));
        }
        let tlen = text.len();
        assert(text@.subrange(0, tlen as int) =~= text@);
        if !(eq_ci_span(&text, 0, tlen, "rem") || starts_with_ci(&text, 0, tlen, "rem ")) {
            let ghost text_view = text@;
            lines.push(SourceLine { number, text });
            assert(numbered_view(lines@) =~= numbered_view(before) + seq![(number as int, text_view)]);
        } else {
            assert(numbered_view(lines@) =~= numbered_view(before) + Seq::empty());
        }
    } else {
        assert(numbered_view(lines@) =~= numbered_view(before) + Seq::empty());
    }
}

/// The lines of `source` that hold something, trimmed and numbered from one; blank lines
/// and comments (`'` or `Rem`) are left out.
pub fn source_lines(source: &str) -> (lines: Vec<SourceLine>)
    ensures
        forall|i: int| 0 <= i < lines@.len() ==> #[trigger] lines@[i].number >= 1,
        numbered_view(lines@) == statement_lines(split_lines(source@)),
{
    let chars = chars_of(source);
    let len = chars.len();
    let mut lines: Vec<SourceLine> = Vec::new();
    let mut number: usize = 1;
    let mut start: usize = 0;
    let mut i: usize = 0;
    proof {
        assert(chars@.take(0) =~= Seq::<char>::empty());
        assert(chars@.subrange(0, 0) =~= Seq::<char>::empty());
        assert(numbered_view(lines@) =~= Seq::empty());
    }
    while i < len
        invariant
            len == chars@.len(),
            start <= i <= len,
            1 <= number,
            number <= split_lines(chars@.take(i as int)).len(),
            (i < len || start < i) ==> number == split_lines(chars@.take(i as int)).len(),
            split_lines(chars@.take(i as int)).last() == chars@.subrange(start as int, i as int),
            numbered_view(lines@) == statement_lines(split_lines(chars@.take(i as int)).drop_last()),
            forall|k: int| 0 <= k < lines@.len() ==> #[trigger] lines@[k].number >= 1,
        decreases len - i,
    {
        let ghost raw = split_lines(chars@.take(i as int));
        proof {
            lemma_split_lines_len(chars@.take(i as int));
            assert(chars@.take(i + 1).drop_last() =~= chars@.take(i as int));
            assert(chars@.take(i + 1).last() == chars@[i as int]);
        }
        if chars[i] == '\n' {
            push_statement_line(&chars, start, i, number, &mut lines);
            proof {
                assert(split_lines(chars@.take(i + 1)) == raw.push(Seq::<char>::empty()));
                assert(raw.push(Seq::<char>::empty()).drop_last() =~= raw);
                assert(statement_lines(raw) == if holds_statement(trim(raw.last())) {
                    statement_lines(raw.drop_last()).push((raw.len() as int, trim(raw.last())))
                } else {
                    statement_lines(raw.drop_last())
                });
                assert(chars@.subrange(i + 1, i + 1) =~= Seq::<char>::empty());
            }
            if i + 1 < len {
                number = number + 1;
            }
            start = i + 1;
        } else {
            proof {
                let next = raw.update(raw.len() - 1, raw.last().push(chars@[i as int]));
                assert(split_lines(chars@.take(i + 1)) == next);
                assert(next.drop_last() =~= raw.drop_last());
                assert(chars@.subrange(start as int, i + 1) =~= chars@.subrange(start as int, i as int).push(
                    chars@[i as int],
                ));
            }
        }
        i += 1;
    }
    proof {
        assert(chars@.take(len as int) =~= chars@);
        assert(chars@ == source@);
        let raw = split_lines(chars@);
        lemma_split_lines_len(chars@);
        assert(statement_lines(raw) == if holds_statement(trim(raw.last())) {
            statement_lines(raw.drop_last()).push((raw.len() as int, trim(raw.last())))
        } else {
            statement_lines(raw.drop_last())
        });
        if start == len {
            assert(chars@.subrange(start as int, len as int) =~= Seq::<char>::empty());
            assert(trim(Seq::<char>::empty()) =~= Seq::<char>::empty());
        }
    }
    push_statement_line(&chars, start, len, number, &mut lines);
    lines
}

/// Whether a line closes an `If` block.
fn is_end_if(t: &Vec<char>) -> (closes: bool)
    ensures
        closes == (eq_ci(t@, "end if"@) || eq_ci(t@, "endif"@)),
{
    assert(t@.subrange(0, t@.len() as int) =~= t@);
    eq_ci_span(t, 0, t.len(), "end if") || eq_ci_span(t, 0, t.len(), "endif")
}

/// Whether a line closes a `Def` block.
fn is_end_def(t: &Vec<char>) -> (closes: bool)
    ensures
        closes == (eq_ci(t@, "end def"@) || eq_ci(t@, "enddef"@)),
{
    assert(t@.subrange(0, t@.len() as int) =~= t@);
    eq_ci_span(t, 0, t.len(), "end def") || eq_ci_span(t, 0, t.len(), "enddef")
}

/// Whether a line closes a `Class` block.
fn is_end_class(t: &Vec<char>) -> (closes: bool)
    ensures
        closes == (eq_ci(t@, "end class"@) || eq_ci(t@, "endclass"@)),
{
    assert(t@.subrange(0, t@.len() as int) =~= t@);
    eq_ci_span(t, 0, t.len(), "end class") || eq_ci_span(t, 0, t.len(), "endclass")
}

/// Whether a line closes an `If`, `Def` or `Class` block.
fn is_terminator(t: &Vec<char>) -> (closes: bool)
    ensures
        closes == (eq_ci(t@, "end if"@) || eq_ci(t@, "endif"@) || eq_ci(t@, "end def"@) || eq_ci(
            t@,
            "enddef"@,
        ) || eq_ci(t@, "end class"@) || eq_ci(t@, "endclass"@)),
{
    is_end_if(t) || is_end_def(t) || is_end_class(t)
}

/// Whether a line is `Else`.
fn is_else(t: &Vec<char>) -> (other: bool)
    ensures
        other == eq_ci(t@, "else"@),
{
    assert(t@.subrange(0, t@.len() as int) =~= t@);
    eq_ci_span(t, 0, t.len(), "else")
}

/// Whether a line closes a `For` block: `Next`, with or without the loop variable.
fn is_next(t: &Vec<char>) -> (closes: bool)
    ensures
        closes == (eq_ci(trim(t@), "next"@) || starts_with_ci_spec(trim(t@), "next "@)),
{
    assert(t@.subrange(0, t@.len() as int) =~= t@);
    let (s, e) = trim_span(t, 0, t.len());
    eq_ci_span(t, s, e, "next") || starts_with_ci(t, s, e, "next ")
}

/// The variable named after `Next`, if any.
fn next_variable(t: &Vec<char>) -> (span: Option<(usize, usize)>)
    ensures
        match span {
            Some((a, b)) => a < b <= t@.len() && starts_with_ci_spec(trim(t@), "next "@) && t@.subrange(
                a as int,
                b as int,
            ) == trim(trim(t@).subrange("next "@.len() as int, trim(t@).len() as int)),
            None => !starts_with_ci_spec(trim(t@), "next "@) || trim(
                trim(t@).subrange("next "@.len() as int, trim(t@).len() as int),
            ).len() == 0,
        },
{
    assert(t@.subrange(0, t@.len() as int) =~= t@);
    let (s, e) = trim_span(t, 0, t.len());
    let rest = match strip_prefix_ci(t, s, e, "next ") {
        Some(rest) => rest,
        None => {
            return None;
        },
    };
    assert(t@.subrange(rest as int, e as int) =~= trim(t@).subrange("next "@.len() as int, trim(t@).len() as int));
    let (a, b) = trim_span(t, rest, e);
    if a < b {
        Some((a, b))
    } else {
        None
    }
}

fn validate_identifier(t: &Vec<char>, lo: usize, hi: usize, line: usize) -> (result: Result<(), ParseError>)
    requires
        lo <= hi <= t@.len(),
    ensures
        match result {
            Ok(()) => is_identifier_text(t@.subrange(lo as int, hi as int)),
            Err(error) => !is_identifier_text(t@.subrange(lo as int, hi as int)) && error.line == line
                && error.message@ == "invalid identifier `"@ + t@.subrange(lo as int, hi as int) + "`"@,
        },
{
    if is_identifier(t, lo, hi) {
        Ok(())
    } else {
        Err(err_with(line, "invalid identifier `", t, lo, hi, "`"))
    }
}

/// A name that a variable, constant or parameter may not take (any ASCII case).
pub open spec fn reserved_name(name: Seq<char>) -> bool {
    eq_ci(name, "self"@) || eq_ci(name, "super"@) || eq_ci(name, "true"@) || eq_ci(name, "false"@)
        || eq_ci(name, "var"@) || eq_ci(name, "const"@) || eq_ci(name, "let"@) || eq_ci(name, "dim"@)
        || eq_ci(name, "text"@) || eq_ci(name, "number"@) || eq_ci(name, "boolean"@)
}

/// Names that a variable, constant or parameter may not take.
fn is_reserved_name(t: &Vec<char>, lo: usize, hi: usize) -> (reserved: bool)
    requires
        lo <= hi <= t@.len(),
    ensures
        reserved == reserved_name(t@.subrange(lo as int, hi as int)),
{
    eq_ci_span(t, lo, hi, "self") || eq_ci_span(t, lo, hi, "super") || eq_ci_span(t, lo, hi, "true")
        || eq_ci_span(t, lo, hi, "false") || eq_ci_span(t, lo, hi, "var") || eq_ci_span(t, lo, hi, "const")
        || eq_ci_span(t, lo, hi, "let") || eq_ci_span(t, lo, hi, "dim") || eq_ci_span(t, lo, hi, "text")
        || eq_ci_span(t, lo, hi, "number") || eq_ci_span(t, lo, hi, "boolean")
}

fn validate_binding_name(t: &Vec<char>, lo: usize, hi: usize, line: usize) -> (result: Result<(), ParseError>)
    requires
        lo <= hi <= t@.len(),
    ensures
        ({
            let name = t@.subrange(lo as int, hi as int);
            match result {
                Ok(()) => is_identifier_text(name) && !reserved_name(name),
                Err(error) => error.line == line && if !is_identifier_text(name) {
                    error.message@ == "invalid identifier `"@ + name + "`"@
                } else {
                    reserved_name(name) && error.message@ == "reserved binding name `"@ + name + "`"@
                },
            }
        }),
{
    validate_identifier(t, lo, hi, line)?;
    if is_reserved_name(t, lo, hi) {
        return Err(err_with(line, "reserved binding name `", t, lo, hi, "`"));
    }
    Ok(())
}

/// The character that `c` stands for after a backslash.
pub open spec fn unescaped(c: char) -> char {
    if c == 'n' {
        '\n'
    } else if c == 't' {
        '\t'
    } else {
        c
    }
}

/// Reading the text after an opening quote: the value so far, whether a backslash was
/// just read, whether the closing quote was read, and whether anything but white space
/// followed it.
pub open spec fn quoted_state(body: Seq<char>) -> (Seq<char>, bool, bool, bool)
    decreases body.len(),
{
    if body.len() == 0 {
        (Seq::empty(), false, false, false)
    } else {
        let (value, escaped, closed, trailing) = quoted_state(body.drop_last());
        let c = body.last();
        if closed {
            (value, escaped, closed, trailing || !is_white_space(c))
        } else if escaped {
            (value.push(unescaped(c)), false, closed, trailing)
        } else if c == '\\' {
            (value, true, closed, trailing)
        } else if c == '"' {
            (value, escaped, true, trailing)
        } else {
            (value.push(c), escaped, closed, trailing)
        }
    }
}

/// The value a trimmed scalar `text` stands for: a quoted string (closed, with nothing
/// after it) unescaped, or the text as it stands; `None` when it is empty or the quoted
/// string is invalid.
pub open spec fn scalar_value(text: Seq<char>) -> Option<Seq<char>> {
    if text.len() == 0 {
        None
    } else if text[0] != '"' {
        Some(text)
    } else {
        let (value, escaped, closed, trailing) = quoted_state(text.drop_first());
        if escaped || !closed || trailing {
            None
        } else {
            Some(value)
        }
    }
}

/// Reads a value: a quoted string (with `\n`, `\t`, `\"` and `\\` escapes) or the trimmed
/// text as it stands.
fn parse_scalar(t: &Vec<char>, lo: usize, hi: usize, line: usize) -> (result: Result<String, ParseError>)
    requires
        lo <= hi <= t@.len(),
    ensures
        ({
            let text = trim(t@.subrange(lo as int, hi as int));
            match result {
                Ok(value) => scalar_value(text) == Some(value@),
                Err(error) => scalar_value(text) is None && error.line == line && error.message@ == if text.len()
                    == 0 {
                    "expected a value"@
                } else {
                    "invalid quoted string"@
                },
            }
        }),
{
    let (s, e) = trim_span(t, lo, hi);
    if s == e {
        return Err(err(line, "expected a value"));
    }
    if t[s] != '"' {
        return Ok(span_string(t, s, e));
    }
    let mut value: Vec<char> = Vec::new();
    let mut escaped = false;
    let mut closed = false;
    let mut trailing_text = false;
    let mut i = s + 1;
    assert(t@.subrange(s + 1, s + 1) =~= Seq::<char>::empty());
    while i < e
        invariant
            s < i <= e <= t@.len(),
            quoted_state(t@.subrange(s + 1, i as int)) == (value@, escaped, closed, trailing_text),
        decreases e - i,
    {
        assert(t@.subrange(s + 1, i + 1).drop_last() =~= t@.subrange(s + 1, i as int));
        let c = t[i];
        if closed {
            if !crate::text::white_space(c) {
                trailing_text = true;
            }
        } else if escaped {
            let unescaped = if c == 'n' {
                '\n'
            } else if c == 't' {
                '\t'
            } else {
                c
            };
            value.push(unescaped);
            escaped = false;
        } else if c == '\\' {
            escaped = true;
        } else if c == '"' {
            closed = true;
        } else {
            value.push(c);
        }
        i += 1;
    }
    assert(trim(t@.subrange(lo as int, hi as int)).drop_first() =~= t@.subrange(s + 1, e as int));
    if escaped || !closed || trailing_text {
        return Err(err(line, "invalid quoted string"));
    }
    Ok(crate::text::string_of(value.as_slice()))
}

/// Reading an argument list `u` from its start: how many parentheses are open, whether
/// inside a quoted string, whether right after a backslash in one, where the current
/// argument starts, the arguments read so far (trimmed), and why the list is refused, if
/// it is.
pub open spec fn argument_scan(u: Seq<char>) -> (int, bool, bool, int, Seq<Seq<char>>, Option<Seq<char>>)
    decreases u.len(),
{
    if u.len() == 0 {
        (0, false, false, 0, Seq::empty(), None)
    } else {
        let (depth, quoted, escaped, start, parts, failure) = argument_scan(u.drop_last());
        let i = u.len() - 1;
        let c = u.last();
        if failure is Some {
            (depth, quoted, escaped, start, parts, failure)
        } else if escaped {
            (depth, quoted, false, start, parts, failure)
        } else if c == '\\' && quoted {
            (depth, quoted, true, start, parts, failure)
        } else if c == '"' {
            (depth, !quoted, escaped, start, parts, failure)
        } else if quoted {
            (depth, quoted, escaped, start, parts, failure)
        } else if c == '(' {
            (depth + 1, quoted, escaped, start, parts, failure)
        } else if c == ')' {
            if depth == 0 {
                (depth, quoted, escaped, start, parts, Some("unexpected `)` in argument list"@))
            } else {
                (depth - 1, quoted, escaped, start, parts, failure)
            }
        } else if c == ',' && depth == 0 {
            let part = trim(u.subrange(start, i));
            if part.len() == 0 {
                (depth, quoted, escaped, start, parts, Some("empty argument"@))
            } else {
                (depth, quoted, escaped, i + 1, parts.push(part), failure)
            }
        } else {
            (depth, quoted, escaped, start, parts, failure)
        }
    }
}

/// The arguments of the comma-separated list `u` (commas inside parentheses and strings
/// do not count), each trimmed; or why the list is refused. A blank list has none.
pub open spec fn argument_texts(u: Seq<char>) -> Result<Seq<Seq<char>>, Seq<char>> {
    if trim(u).len() == 0 {
        Ok(Seq::empty())
    } else {
        let (depth, quoted, escaped, start, parts, failure) = argument_scan(u);
        match failure {
            Some(message) => Err(message),
            None => if quoted {
                Err("unterminated quoted string"@)
            } else if depth != 0 {
                Err("unbalanced parentheses in argument list"@)
            } else if trim(u.subrange(start, u.len() as int)).len() == 0 {
                Err("empty argument"@)
            } else {
                Ok(parts.push(trim(u.subrange(start, u.len() as int))))
            },
        }
    }
}

/// The texts of strings.
pub open spec fn string_texts(strings: Seq<String>) -> Seq<Seq<char>> {
    strings.map_values(|text: String| text@)
}

/// The texts of spans of `t`.
pub open spec fn span_texts(t: Seq<char>, spans: Seq<(usize, usize)>) -> Seq<Seq<char>> {
    spans.map_values(|span: (usize, usize)| t.subrange(span.0 as int, span.1 as int))
}

proof fn lemma_failure_stays(u: Seq<char>, k: int)
    requires
        0 <= k <= u.len(),
        argument_scan(u.take(k)).5 is Some,
    ensures
        argument_scan(u) == argument_scan(u.take(k)),
    decreases u.len(),
{
    if k < u.len() {
        assert(u.drop_last().take(k) =~= u.take(k));
        lemma_failure_stays(u.drop_last(), k);
    } else {
        assert(u.take(k) =~= u);
    }
}

/// The spans of the comma-separated arguments in `t[lo..hi]` (commas inside parentheses
/// and strings do not count), each trimmed.
fn split_arguments(t: &Vec<char>, lo: usize, hi: usize, line: usize) -> (result: Result<
    Vec<(usize, usize)>,
    ParseError,
>)
    requires
        lo <= hi <= t@.len(),
    ensures
        result matches Ok(parts) ==> forall|k: int|
            0 <= k < parts@.len() ==> lo <= (#[trigger] parts@[k]).0 <= parts@[k].1 <= hi,
        match result {
            Ok(parts) => argument_texts(t@.subrange(lo as int, hi as int)) == Ok::<Seq<Seq<char>>, Seq<char>>(
                span_texts(t@, parts@),
            ),
            Err(error) => error.line == line && argument_texts(t@.subrange(lo as int, hi as int)) == Err::<
                Seq<Seq<char>>,
                Seq<char>,
            >(error.message@),
        },
{
    let ghost u = t@.subrange(lo as int, hi as int);
    let (s, e) = trim_span(t, lo, hi);
    let mut parts: Vec<(usize, usize)> = Vec::new();
    if s == e {
        assert(span_texts(t@, parts@) =~= Seq::<Seq<char>>::empty());
        return Ok(parts);
    }
    let mut start = lo;
    let mut depth: usize = 0;
    let mut quoted = false;
    let mut escaped = false;
    let mut i = lo;
    assert(u.take(0) =~= Seq::<char>::empty());
    while i < hi
        invariant
            lo <= start <= hi,
            start <= i,
            lo <= i <= hi <= t@.len(),
            depth <= i - lo,
            u == t@.subrange(lo as int, hi as int),
            trim(u).len() > 0,
            forall|k: int| 0 <= k < parts@.len() ==> lo <= (#[trigger] parts@[k]).0 <= parts@[k].1 <= hi,
            argument_scan(u.take(i - lo)) == (depth as int, quoted, escaped, start - lo, span_texts(t@, parts@), None::<Seq<char>>),
        decreases hi - i,
    {
        assert(u.take(i + 1 - lo).drop_last() =~= u.take(i - lo));
        assert(u.take(i + 1 - lo).last() == t@[i as int]);
        assert(u.take(i + 1 - lo).subrange(start - lo, i - lo) =~= t@.subrange(start as int, i as int));
        let c = t[i];
        if escaped {
            escaped = false;
        } else if c == '\\' && quoted {
            escaped = true;
        } else if c == '"' {
            quoted = !quoted;
        } else if !quoted {
            if c == '(' {
                depth += 1;
            } else if c == ')' {
                if depth == 0 {
                    proof {
                        lemma_failure_stays(u, i + 1 - lo);
                    }
                    return Err(err(line, "unexpected `)` in argument list"));
                }
                depth -= 1;
            } else if c == ',' && depth == 0 {
                let (ps, pe) = trim_span(t, start, i);
                if ps == pe {
                    proof {
                        lemma_failure_stays(u, i + 1 - lo);
                    }
                    return Err(err(line, "empty argument"));
                }
                let ghost before = parts@;
                parts.push((ps, pe));
                assert(span_texts(t@, parts@) =~= span_texts(t@, before).push(t@.subrange(ps as int, pe as int)));
                start = i + 1;
            }
        }
        i += 1;
    }
    assert(u.take(hi - lo) =~= u);
    assert(u.subrange(start - lo, u.len() as int) =~= t@.subrange(start as int, hi as int));
    if quoted {
        return Err(err(line, "unterminated quoted string"));
    }
    if depth != 0 {
        return Err(err(line, "unbalanced parentheses in argument list"));
    }
    let (ps, pe) = trim_span(t, start, hi);
    if ps == pe {
        return Err(err(line, "empty argument"));
    }
    let ghost before = parts@;
    parts.push((ps, pe));
    assert(span_texts(t@, parts@) =~= span_texts(t@, before).push(t@.subrange(ps as int, pe as int)));
    Ok(parts)
}

/// Position of the first `(` in `t[lo..hi]`.
fn find_open_parenthesis(t: &Vec<char>, lo: usize, hi: usize) -> (found: Option<usize>)
    requires
        lo <= hi <= t@.len(),
    ensures
        match found {
            Some(i) => lo <= i < hi && t@[i as int] == '(' && forall|k: int| lo <= k < i ==> t@[k] != '(',
            None => forall|k: int| lo <= k < hi ==> t@[k] != '(',
        },
{
    let mut i = lo;
    while i < hi
        invariant
            lo <= i <= hi <= t@.len(),
            forall|k: int| lo <= k < i ==> t@[k] != '(',
        decreases hi - i,
    {
        if t[i] == '(' {
            return Some(i);
        }
        i += 1;
    }
    None
}

/// `open` is the first `(` of `t[lo..hi]`.
pub open spec fn first_open(t: Seq<char>, lo: int, hi: int, open: int) -> bool {
    lo <= open < hi && t[open] == '(' && forall|k: int| lo <= k < open ==> t[k] != '('
}

/// `close` is the `)` that closes what opens just before `start` (see `closes_at`), the
/// first one in `t[start..hi]`.
pub open spec fn first_close(t: Seq<char>, start: int, hi: int, close: int) -> bool {
    start <= close < hi && closes_at(t, start, close) && forall|k: int| start <= k < close ==> !#[trigger] closes_at(t, start, k)
}

proof fn lemma_first_open_unique(t: Seq<char>, lo: int, hi: int, open: int)
    requires
        first_open(t, lo, hi, open),
    ensures
        forall|o: int| #[trigger] first_open(t, lo, hi, o) ==> o == open,
{
    assert forall|o: int| #[trigger] first_open(t, lo, hi, o) implies o == open by {
        if o < open {
            assert(t[o] != '(');
        } else if o > open {
            assert(t[open] != '(');
        }
    }
}

/// Whether `t[lo..hi]` has the shape `identifier( ... )`.
fn looks_like_named_call(t: &Vec<char>, lo: usize, hi: usize) -> (call: bool)
    requires
        lo <= hi <= t@.len(),
    ensures
        call == exists|open: int|
            #[trigger] first_open(t@, lo as int, hi as int, open) && is_identifier_text(
                trim(t@.subrange(lo as int, open)),
            ) && trim(t@.subrange(lo as int, hi as int)).len() > 0 && trim(t@.subrange(lo as int, hi as int)).last()
                == ')',
{
    match find_open_parenthesis(t, lo, hi) {
        Some(open) => {
            let (ns, ne) = trim_span(t, lo, open);
            let (s, e) = trim_span(t, lo, hi);
            proof {
                assert(first_open(t@, lo as int, hi as int, open as int));
                if s == e && e > lo {
                    assert(is_white_space(t@[e - 1]));
                }
                if s < e {
                    assert(trim(t@.subrange(lo as int, hi as int)).last() == t@[e - 1]);
                }
                assert forall|o: int| #[trigger] first_open(t@, lo as int, hi as int, o) implies o == open by {
                    if o < open {
                        assert(t@[o] != '(');
                    } else if o > open {
                        assert(t@[open as int] != '(');
                    }
                }
            }
            is_identifier(t, ns, ne) && e > lo && t[e - 1] == ')'
        },
        None => {
            proof {
                assert forall|o: int| !#[trigger] first_open(t@, lo as int, hi as int, o) by {
                    if lo <= o < hi {
                        assert(t@[o] != '(');
                    }
                }
            }
            false
        },
    }
}

/// `t[lo..hi]` is `name(...)`: an identifier before the first `(`, the `)` that closes it,
/// and nothing after that but white space.
#[verifier::opaque]
pub open spec fn well_formed_call(t: Seq<char>, lo: int, hi: int) -> bool {
    exists|o: int, c: int|
        #[trigger] first_open(t, lo, hi, o) && is_identifier_text(trim(t.subrange(lo, o))) && #[trigger] first_close(
            t,
            o + 1,
            hi,
            c,
        ) && trim(t.subrange(c + 1, hi)).len() == 0
}

/// Splits `name(arguments)`: the name and the span of the arguments.
#[verifier::spinoff_prover]
#[verifier::rlimit(50)]
fn parse_named_call(t: &Vec<char>, lo: usize, hi: usize, line: usize) -> (result: Result<
    (String, usize, usize),
    ParseError,
>)
    requires
        lo <= hi <= t@.len(),
    ensures
        result matches Ok((_, a, b)) ==> lo < a <= b < hi,
        match result {
            Ok((name, a, b)) => {
                &&& first_open(t@, lo as int, hi as int, a - 1)
                &&& name@ == trim(t@.subrange(lo as int, a - 1))
                &&& is_identifier_text(name@)
                &&& first_close(t@, a as int, hi as int, b as int)
                &&& trim(t@.subrange(b + 1, hi as int)).len() == 0
            },
            Err(error) => {
                &&& error.line == line
                &&& (forall|o: int| !#[trigger] first_open(t@, lo as int, hi as int, o)) ==> error.message@
                    == "expected call parentheses"@
                &&& forall|o: int|
                    #[trigger] first_open(t@, lo as int, hi as int, o) ==> if !is_identifier_text(
                        trim(t@.subrange(lo as int, o)),
                    ) {
                        error.message@ == "invalid identifier `"@ + trim(t@.subrange(lo as int, o)) + "`"@
                    } else if forall|k: int| o + 1 <= k < hi ==> !#[trigger] closes_at(t@, o + 1, k) {
                        error.message@ == "missing closing `)`"@
                    } else {
                        error.message@ == "unexpected text after call"@
                    }
            },
        },
        well_formed_call(t@, lo as int, hi as int) ==> result is Ok,
{
    proof {
        reveal(well_formed_call);
    }
    let open = match find_open_parenthesis(t, lo, hi) {
        Some(open) => open,
        None => {
            return Err(err(line, "expected call parentheses"));
        },
    };
    proof {
        lemma_first_open_unique(t@, lo as int, hi as int, open as int);
    }
    let (ns, ne) = trim_span(t, lo, open);
    validate_identifier(t, ns, ne, line)?;
    let close = match find_closing_parenthesis(t, open + 1, hi) {
        Some(close) => close,
        None => {
            return Err(err(line, "missing closing `)`"));
        },
    };
    let (rs, re) = trim_span(t, close + 1, hi);
    if rs < re {
        proof {
            assert forall|o: int, c: int|
                #[trigger] first_open(t@, lo as int, hi as int, o) && #[trigger] first_close(t@, o + 1, hi as int, c)
                    implies trim(t@.subrange(c + 1, hi as int)).len() > 0 by {
                lemma_first_open_unique(t@, lo as int, hi as int, open as int);
                assert(o == open);
                if c < close {
                    assert(!closes_at(t@, open + 1, c));
                } else if c > close {
                    assert(!closes_at(t@, open + 1, close as int));
                }
            }
        }
        return Err(err(line, "unexpected text after call"));
    }
    Ok((span_string(t, ns, ne), open + 1, close))
}

/// Splits `prefix( argument ) remainder`: the spans of the argument and of the trimmed
/// remainder.
fn parse_call(t: &Vec<char>, lo: usize, hi: usize, prefix: &str, line: usize) -> (result: Result<
    (usize, usize, usize, usize),
    ParseError,
>)
    requires
        lo <= hi <= t@.len(),
    ensures
        result matches Ok((a, b, c, d)) ==> lo <= a <= b < c <= d <= hi,
        match result {
            Ok((a, b, c, d)) => {
                &&& starts_with_ci_spec(t@.subrange(lo as int, hi as int), prefix@)
                &&& a == lo + prefix@.len()
                &&& first_close(t@, a as int, hi as int, b as int)
                &&& t@.subrange(c as int, d as int) == trim(t@.subrange(b + 1, hi as int))
            },
            Err(error) => error.line == line && if !starts_with_ci_spec(t@.subrange(lo as int, hi as int), prefix@) {
                error.message@ == "expected `"@ + prefix@ + "...`"@
            } else {
                &&& forall|k: int|
                    lo + prefix@.len() <= k < hi ==> !#[trigger] closes_at(t@, lo + prefix@.len(), k)
                &&& error.message@ == "missing closing `)`"@
            },
        },
{
    let start = match strip_prefix_ci(t, lo, hi, prefix) {
        Some(start) => start,
        None => {
            let mut message = String::from_str("expected `");
            message.append(prefix);
            message.append("...`");
            return Err(ParseError { line, message });
        },
    };
    let close = match find_closing_parenthesis(t, start, hi) {
        Some(close) => close,
        None => {
            return Err(err(line, "missing closing `)`"));
        },
    };
    let (rs, re) = trim_span(t, close + 1, hi);
    Ok((start, close, rs, re))
}

/// The digits of a count written as `text`: without its leading `+`, if it has one.
pub open spec fn count_digits(text: Seq<char>) -> Seq<char> {
    if text.len() > 0 && text[0] == '+' {
        text.drop_first()
    } else {
        text
    }
}

/// The count written as `text`, as `usize::from_str` reads it: an optional `+`, then at
/// least one digit, and a value that fits.
pub open spec fn count_value(text: Seq<char>) -> Option<usize> {
    let digits = count_digits(text);
    if digits.len() > 0 && all_digits(digits) && digits_value(digits) <= usize::MAX {
        Some(digits_value(digits) as usize)
    } else {
        None
    }
}

/// Reads a decimal count, as `usize::from_str` does: an optional `+` and digits.
fn parse_count(t: &Vec<char>, lo: usize, hi: usize) -> (value: Option<usize>)
    requires
        lo <= hi <= t@.len(),
    ensures
        value == count_value(t@.subrange(lo as int, hi as int)),
{
    let ghost text = t@.subrange(lo as int, hi as int);
    let mut i = lo;
    if i < hi && t[i] == '+' {
        i += 1;
    }
    let ghost start = i;
    assert(count_digits(text) =~= t@.subrange(start as int, hi as int));
    if i == hi {
        return None;
    }
    let mut value: usize = 0;
    while i < hi
        invariant
            lo <= start <= i <= hi <= t@.len(),
            text == t@.subrange(lo as int, hi as int),
            count_digits(text) == t@.subrange(start as int, hi as int),
            all_digits(t@.subrange(start as int, i as int)),
            value as int == digits_value(t@.subrange(start as int, i as int)),
        decreases hi - i,
    {
        let ghost digits = t@.subrange(start as int, hi as int);
        assert(t@.subrange(start as int, i + 1).drop_last() =~= t@.subrange(start as int, i as int));
        assert(digits.take(i + 1 - start) =~= t@.subrange(start as int, i + 1));
        let c = t[i];
        assert(digits[i - start] == c);
        if !('0' <= c && c <= '9') {
            assert(!is_ascii_digit(digits[i - start]));
            assert(!all_digits(count_digits(text)));
            return None;
        }
        let digit = (c as u32 - '0' as u32) as usize;
        proof {
            let next = t@.subrange(start as int, i + 1);
            assert(next.last() == c);
            assert(digits_value(next) == digits_value(next.drop_last()) * 10 + (c as int - '0' as int));
            assert(digits_value(next) == value * 10 + digit);
            if all_digits(digits) {
                lemma_digits_value_monotone(digits, i + 1 - start);
            }
        }
        match value.checked_mul(10) {
            Some(v) => match v.checked_add(digit) {
                Some(w) => {
                    value = w;
                },
                None => {
                    assert(digits_value(t@.subrange(start as int, i + 1)) > usize::MAX);
                    assert(count_value(text) is None);
                    return None;
                },
            },
            None => {
                assert(value * 10 > usize::MAX);
                assert(count_value(text) is None);
                return None;
            },
        }
        i += 1;
    }
    assert(t@.subrange(start as int, i as int) =~= count_digits(text));
    Some(value)
}

fn parse_column_selector(t: &Vec<char>, lo: usize, hi: usize, line: usize) -> (result: Result<
    ColumnSelector,
    ParseError,
>)
    requires
        lo <= hi <= t@.len(),
    ensures
        ({
            let text = trim(t@.subrange(lo as int, hi as int));
            let quoted = text.len() > 0 && text[0] == '"';
            match result {
                Ok(ColumnSelector::Header(header)) => quoted && scalar_value(text) == Some(header@),
                Ok(ColumnSelector::Index(column)) => !quoted && count_value(text) == Some((column + 1) as usize),
                Err(error) => error.line == line && if quoted {
                    scalar_value(text) is None && error.message@ == "invalid quoted string"@
                } else if count_value(text) == Some(0usize) {
                    error.message@ == "column numbers start at 1"@
                } else {
                    count_value(text) is None && error.message@
                        == "Column(...) expects a 1-based column number or quoted header"@
                },
            }
        }),
{
    let (s, e) = trim_span(t, lo, hi);
    if s < e && t[s] == '"' {
        return Ok(ColumnSelector::Header(parse_scalar(t, s, e, line)?));
    }
    match parse_count(t, s, e) {
        Some(one_based) => {
            if one_based == 0 {
                return Err(err(line, "column numbers start at 1"));
            }
            Ok(ColumnSelector::Index(one_based - 1))
        },
        None => Err(err(line, "Column(...) expects a 1-based column number or quoted header")),
    }
}

/// `selector` is what a trimmed `Column(...)` argument `text` names: a quoted header, or a
/// column counted from one.
pub open spec fn selector_of(text: Seq<char>, selector: ColumnSelector) -> bool {
    let quoted = text.len() > 0 && text[0] == '"';
    match selector {
        ColumnSelector::Header(header) => quoted && scalar_value(text) == Some(header@),
        ColumnSelector::Index(column) => !quoted && count_value(text) == Some((column + 1) as usize),
    }
}

fn parse_column_target(t: &Vec<char>, lo: usize, hi: usize, line: usize) -> (result: Result<
    (ColumnSelector, usize, usize),
    ParseError,
>)
    requires
        lo <= hi <= t@.len(),
    ensures
        result matches Ok((_, a, b)) ==> lo <= a <= b <= hi,
        match result {
            Ok((selector, c, d)) => {
                let prefix = "this.worksheet.column("@;
                &&& starts_with_ci_spec(t@.subrange(lo as int, hi as int), prefix)
                &&& exists|close: int|
                    #[trigger] first_close(t@, lo + prefix.len(), hi as int, close) && selector_of(
                        trim(t@.subrange(lo + prefix.len(), close)),
                        selector,
                    ) && t@.subrange(c as int, d as int) == trim(t@.subrange(close + 1, hi as int))
            },
            Err(error) => error.line == line,
        },
{
    let (a, b, rs, re) = parse_call(t, lo, hi, "this.worksheet.column(", line)?;
    let selector = parse_column_selector(t, a, b, line)?;
    Ok((selector, rs, re))
}

/// The A1 text of a `Cell(...)` argument: a quoted string, `A2 To B3`, or the text itself.
/// `u` holds ` To ` (any ASCII case) at position `i`.
pub open spec fn to_at(u: Seq<char>, i: int) -> bool {
    0 <= i && i + 4 <= u.len() && eq_ci(u.subrange(i, i + 4), seq![' ', 't', 'o', ' '])
}

fn parse_range_argument(t: &Vec<char>, lo: usize, hi: usize, line: usize) -> (result: Result<
    String,
    ParseError,
>)
    requires
        lo <= hi <= t@.len(),
    ensures
        ({
            let u = trim(t@.subrange(lo as int, hi as int));
            if u.len() > 0 && u[0] == '"' {
                match result {
                    Ok(value) => scalar_value(u) == Some(value@),
                    Err(error) => scalar_value(u) is None && error.line == line && error.message@
                        == "invalid quoted string"@,
                }
            } else if exists|i: int| #[trigger] to_at(u, i) {
                exists|i: int|
                    #[trigger] to_at(u, i) && (forall|j: int| 0 <= j < i ==> !to_at(u, j)) && (result matches Ok(
                        value,
                    ) && value@ == trim(u.subrange(0, i)) + ":"@ + trim(u.subrange(i + 4, u.len() as int)))
            } else if u.len() == 0 {
                (result matches Err(error) && error.line == line && error.message@
                    == "Cell(...) requires an A1 cell or range"@)
            } else {
                (result matches Ok(value) && value@ == u)
            }
        }),
{
    let (s, e) = trim_span(t, lo, hi);
    let ghost u = t@.subrange(s as int, e as int);
    if s < e && t[s] == '"' {
        return parse_scalar(t, s, e, line);
    }
    let pattern: Vec<char> = vec![' ', 't', 'o', ' '];
    assert(pattern@ =~= seq![' ', 't', 'o', ' ']);
    match find_ci(t, s, e, &pattern) {
        Some(k) => {
            proof {
                let i = k - s;
                assert(u.subrange(i, i + 4) =~= t@.subrange(k as int, k + 4));
                assert(to_at(u, i));
                assert forall|j: int| 0 <= j < i implies !to_at(u, j) by {
                    assert(u.subrange(j, j + 4) =~= t@.subrange(s + j, s + j + 4));
                }
                assert(u.subrange(0, i) =~= t@.subrange(s as int, k as int));
                assert(u.subrange(i + 4, u.len() as int) =~= t@.subrange(k + 4, e as int));
            }
            let (a, b) = trim_span(t, s, k);
            let (c, d) = trim_span(t, k + pattern.len(), e);
            let mut text = span_string(t, a, b);
            text.append(":");
            let second = span_string(t, c, d);
            text.append(second.as_str());
            return Ok(text);
        },
        None => {
            proof {
                assert forall|i: int| !#[trigger] to_at(u, i) by {
                    if 0 <= i && i + 4 <= u.len() {
                        assert(u.subrange(i, i + 4) =~= t@.subrange(s + i, s + i + 4));
                    }
                }
            }
        },
    }
    if s == e {
        return Err(err(line, "Cell(...) requires an A1 cell or range"));
    }
    Ok(span_string(t, s, e))
}

/// The column type named by `value` (any ASCII case).
fn parse_column_type(value: &str) -> (column_type: Option<ColumnType>)
    ensures
        column_type == if eq_ci(value@, "string"@) {
            Some(ColumnType::String)
        } else if eq_ci(value@, "integer"@) {
            Some(ColumnType::Integer)
        } else if eq_ci(value@, "decimal"@) {
            Some(ColumnType::Decimal)
        } else if eq_ci(value@, "boolean"@) {
            Some(ColumnType::Boolean)
        } else {
            None
        },
{
    if names_match(value, "string") {
        Some(ColumnType::String)
    } else if names_match(value, "integer") {
        Some(ColumnType::Integer)
    } else if names_match(value, "decimal") {
        Some(ColumnType::Decimal)
    } else if names_match(value, "boolean") {
        Some(ColumnType::Boolean)
    } else {
        None
    }
}

/// Every name in a parsed expression (variable, function, class, field, method, object) is
/// an identifier.
pub open spec fn names_valid(e: Expression) -> bool
    decreases e,
{
    match e {
        Expression::Literal(_) => true,
        Expression::Unary { operand, .. } => names_valid(*operand),
        Expression::Arithmetic { left, right, .. } => names_valid(*left) && names_valid(*right),
        Expression::Variable(name) => is_identifier_text(name@),
        Expression::Call { name, arguments } => is_identifier_text(name@) && forall|k: int|
            0 <= k < arguments@.len() ==> names_valid(#[trigger] arguments@[k]),
        Expression::StandardCall { name, arguments, .. } => is_identifier_text(name@) && forall|k: int|
            0 <= k < arguments@.len() ==> names_valid(#[trigger] arguments@[k]),
        Expression::New { class_name, arguments } => is_identifier_text(class_name@) && forall|k: int|
            0 <= k < arguments@.len() ==> names_valid(#[trigger] arguments@[k]),
        Expression::Field { target, field } => is_identifier_text(target@) && is_identifier_text(field@),
        Expression::MethodCall { target, name, arguments } => is_identifier_text(target@) && is_identifier_text(
            name@,
        ) && forall|k: int| 0 <= k < arguments@.len() ==> names_valid(#[trigger] arguments@[k]),
    }
}

/// Every expression in a parsed condition has only identifiers for names.
pub open spec fn condition_names_valid(c: Condition) -> bool
    decreases c,
{
    match c {
        Condition::ColumnExists { .. } => true,
        Condition::ColumnTitleEquals { expected, .. } => names_valid(expected),
        Condition::Compare { left, right, .. } => names_valid(left) && names_valid(right),
        Condition::Expression(e) => names_valid(e),
        Condition::Not(inner) => condition_names_valid(*inner),
        Condition::And(left, right) => condition_names_valid(*left) && condition_names_valid(*right),
        Condition::Or(left, right) => condition_names_valid(*left) && condition_names_valid(*right),
    }
}

proof fn lemma_trim_empty()
    ensures
        trim(Seq::<char>::empty()) == Seq::<char>::empty(),
{
    assert(trim(Seq::<char>::empty()) =~= Seq::<char>::empty());
}

/// A character that keeps a text from being read as one word: white space, an arithmetic
/// operator, a parenthesis, a quote, a backslash, a dot, a comma or a comparison character.
pub open spec fn word_breaking(c: char) -> bool {
    is_white_space(c) || c == '+' || c == '-' || c == '*' || c == '/' || c == '(' || c == ')' || c == '"'
        || c == '\\' || c == '.' || c == ',' || c == '=' || c == '<' || c == '>' || c == '!'
}

/// `text` is a word: one or more characters, none of them breaking a word.
pub open spec fn is_word(text: Seq<char>) -> bool {
    text.len() > 0 && forall|i: int| 0 <= i < text.len() ==> !word_breaking(#[trigger] text[i])
}

/// `t[lo..hi]` is a word, with only white space around it.
#[verifier::opaque]
pub open spec fn word_span(t: Seq<char>, lo: int, hi: int) -> bool {
    &&& lo <= hi <= t.len()
    &&& is_word(trim(t.subrange(lo, hi)))
    &&& forall|k: int| lo <= k < hi ==> is_white_space(#[trigger] t[k]) || !word_breaking(t[k])
}

/// `e` is what the word `word` reads as: `True` and `False` (any case) as that text, an
/// identifier as that variable, anything else (a number, say) as literal text.
#[verifier::opaque]
pub open spec fn word_expression(word: Seq<char>, e: Expression) -> bool {
    if eq_ci(word, "true"@) {
        e matches Expression::Literal(s) && s@ == "true"@
    } else if eq_ci(word, "false"@) {
        e matches Expression::Literal(s) && s@ == "false"@
    } else if is_identifier_text(word) {
        e matches Expression::Variable(n) && n@ == word
    } else {
        e matches Expression::Literal(s) && s@ == word
    }
}

/// A word is its own trimmed text, and `new ` does not start it.
proof fn lemma_word_facts(w: Seq<char>)
    requires
        is_word(w),
    ensures
        trim(w) == w,
        !starts_with_ci_spec(w, "new "@),
        w[0] != '(' && w[0] != '"' && w[0] != '-',
{
    assert(!word_breaking(w[0]));
    assert(!word_breaking(w.last()));
    lemma_trim_unchanged(w);
    if starts_with_ci_spec(w, "new "@) {
        reveal_strlit("new ");
        assert(lower_seq(w.take(4))[3] == lower_seq("new "@)[3]);
        assert(!word_breaking(w[3]));
        assert(ascii_lower(w[3]) == ' ');
    }
}

fn parse_argument_expressions(t: &Vec<char>, lo: usize, hi: usize, line: usize) -> (result: Result<
    Vec<Expression>,
    ParseError,
>)
    requires
        lo <= hi <= t@.len(),
    ensures
        match result {
            Ok(arguments) => {
                &&& forall|k: int| 0 <= k < arguments@.len() ==> names_valid(#[trigger] arguments@[k])
                &&& argument_texts(t@.subrange(lo as int, hi as int)) matches Ok(texts)
                &&& arguments@.len() == texts.len()
            },
            Err(error) => error.line == line,
        },
        argument_texts(t@.subrange(lo as int, hi as int)) matches Err(message) ==> (result matches Err(error)
            && error.message@ == message),
    decreases hi - lo, 6nat,
{
    let parts = split_arguments(t, lo, hi, line)?;
    let mut arguments: Vec<Expression> = Vec::new();
    let mut k: usize = 0;
    while k < parts.len()
        invariant
            lo <= hi <= t@.len(),
            forall|j: int| 0 <= j < parts@.len() ==> lo <= (#[trigger] parts@[j]).0 <= parts@[j].1 <= hi,
            k <= parts@.len(),
            argument_texts(t@.subrange(lo as int, hi as int)) == Ok::<Seq<Seq<char>>, Seq<char>>(
                span_texts(t@, parts@),
            ),
            arguments@.len() == k,
            forall|j: int| 0 <= j < arguments@.len() ==> names_valid(#[trigger] arguments@[j]),
        decreases parts@.len() - k,
    {
        let (a, b) = parts[k];
        let argument = parse_expression(t, a, b, line)?;
        arguments.push(argument);
        k += 1;
    }
    proof {
        assert(span_texts(t@, parts@).len() == parts@.len());
    }
    Ok(arguments)
}

fn parse_expression(t: &Vec<char>, lo: usize, hi: usize, line: usize) -> (result: Result<Expression, ParseError>)
    requires
        lo <= hi <= t@.len(),
    ensures
        match result {
            Ok(e) => names_valid(e),
            Err(error) => error.line == line,
        },
        trim(t@.subrange(lo as int, hi as int)).len() == 0 ==> (result matches Err(error) && error.message@
            == "expected a value"@),
        word_span(t@, lo as int, hi as int) ==> (result matches Ok(e) && word_expression(
            trim(t@.subrange(lo as int, hi as int)),
            e,
        )),
    decreases hi - lo, 5nat,
{
    proof {
        reveal(word_span);
    }
    let (s, e) = trim_span(t, lo, hi);
    parse_additive_expression(t, s, e, line)
}

fn parse_additive_expression(t: &Vec<char>, lo: usize, hi: usize, line: usize) -> (result: Result<
    Expression,
    ParseError,
>)
    requires
        lo <= hi <= t@.len(),
    ensures
        match result {
            Ok(e) => names_valid(e),
            Err(error) => error.line == line,
        },
        lo == hi ==> (result matches Err(error) && error.message@ == "expected a value"@),
        word_span(t@, lo as int, hi as int) ==> (result matches Ok(e) && word_expression(
            trim(t@.subrange(lo as int, hi as int)),
            e,
        )),
    decreases hi - lo, 4nat,
{
    proof {
        reveal(word_span);
    }
    match split_top_level_arithmetic(t, lo, hi, '+', '-') {
        Some((k, c)) => {
            let operator = if c == '+' {
                ArithmeticOperator::Add
            } else {
                ArithmeticOperator::Subtract
            };
            let (ls, le) = trim_span(t, lo, k);
            let (rs, re) = trim_span(t, k + 1, hi);
            let left = parse_additive_expression(t, ls, le, line)?;
            let right = parse_multiplicative_expression(t, rs, re, line)?;
            Ok(Expression::Arithmetic { left: Box::new(left), operator, right: Box::new(right) })
        },
        None => parse_multiplicative_expression(t, lo, hi, line),
    }
}

fn parse_multiplicative_expression(t: &Vec<char>, lo: usize, hi: usize, line: usize) -> (result: Result<
    Expression,
    ParseError,
>)
    requires
        lo <= hi <= t@.len(),
    ensures
        match result {
            Ok(e) => names_valid(e),
            Err(error) => error.line == line,
        },
        lo == hi ==> (result matches Err(error) && error.message@ == "expected a value"@),
        word_span(t@, lo as int, hi as int) ==> (result matches Ok(e) && word_expression(
            trim(t@.subrange(lo as int, hi as int)),
            e,
        )),
    decreases hi - lo, 3nat,
{
    proof {
        reveal(word_span);
    }
    match split_top_level_arithmetic(t, lo, hi, '*', '/') {
        Some((k, c)) => {
            let operator = if c == '*' {
                ArithmeticOperator::Multiply
            } else {
                ArithmeticOperator::Divide
            };
            let (ls, le) = trim_span(t, lo, k);
            let (rs, re) = trim_span(t, k + 1, hi);
            let left = parse_multiplicative_expression(t, ls, le, line)?;
            let right = parse_unary_expression(t, rs, re, line)?;
            Ok(Expression::Arithmetic { left: Box::new(left), operator, right: Box::new(right) })
        },
        None => {
            proof {
                if lo == hi {
                    assert(t@.subrange(lo as int, hi as int) =~= Seq::<char>::empty());
                    lemma_trim_empty();
                }
            }
            parse_unary_expression(t, lo, hi, line)
        },
    }
}

fn parse_unary_expression(t: &Vec<char>, lo: usize, hi: usize, line: usize) -> (result: Result<
    Expression,
    ParseError,
>)
    requires
        lo <= hi <= t@.len(),
    ensures
        match result {
            Ok(e) => names_valid(e),
            Err(error) => error.line == line,
        },
        trim(t@.subrange(lo as int, hi as int)).len() == 0 ==> (result matches Err(error) && error.message@
            == "expected a value"@),
        word_span(t@, lo as int, hi as int) ==> (result matches Ok(e) && word_expression(
            trim(t@.subrange(lo as int, hi as int)),
            e,
        )),
    decreases hi - lo, 2nat,
{
    proof {
        reveal(word_span);
    }
    let (s, e) = trim_span(t, lo, hi);
    if s < e && t[s] == '-' {
        let (rs, re) = trim_span(t, s + 1, e);
        if rs == re {
            return Err(err(line, "expected a value after unary '-'"));
        }
        let operand = parse_unary_expression(t, rs, re, line)?;
        return Ok(Expression::Unary { operator: UnaryOperator::Negate, operand: Box::new(operand) });
    }
    parse_primary_expression(t, s, e, line)
}

/// The standard namespace named by `t[lo..hi]`, if any.
fn standard_namespace(t: &Vec<char>, lo: usize, hi: usize) -> (namespace: Option<StandardNamespace>)
    requires
        lo <= hi <= t@.len(),
    ensures
        ({
            let name = t@.subrange(lo as int, hi as int);
            namespace == if eq_ci(name, "text"@) {
                Some(StandardNamespace::Text)
            } else if eq_ci(name, "number"@) {
                Some(StandardNamespace::Number)
            } else if eq_ci(name, "boolean"@) {
                Some(StandardNamespace::Boolean)
            } else {
                None
            }
        }),
{
    if eq_ci_span(t, lo, hi, "text") {
        Some(StandardNamespace::Text)
    } else if eq_ci_span(t, lo, hi, "number") {
        Some(StandardNamespace::Number)
    } else if eq_ci_span(t, lo, hi, "boolean") {
        Some(StandardNamespace::Boolean)
    } else {
        None
    }
}

fn parse_primary_expression(t: &Vec<char>, lo: usize, hi: usize, line: usize) -> (result: Result<
    Expression,
    ParseError,
>)
    requires
        lo <= hi <= t@.len(),
    ensures
        match result {
            Ok(e) => names_valid(e),
            Err(error) => error.line == line,
        },
        trim(t@.subrange(lo as int, hi as int)).len() == 0 ==> (result matches Err(error) && error.message@
            == "expected a value"@),
        word_span(t@, lo as int, hi as int) ==> (result matches Ok(e) && word_expression(
            trim(t@.subrange(lo as int, hi as int)),
            e,
        )),
    decreases hi - lo, 1nat,
{
    proof {
        reveal(word_expression);
        reveal(word_span);
    }
    let (s, e) = trim_span(t, lo, hi);
    proof {
        if word_span(t@, lo as int, hi as int) {
            let w = t@.subrange(s as int, e as int);
            lemma_word_facts(w);
            assert(w[0] == t@[s as int]);
            assert forall|k: int| s <= k < e implies !word_breaking(#[trigger] t@[k]) by {
                assert(t@[k] == w[k - s]);
            }
        }
    }
    if s == e {
        return Err(err(line, "expected a value"));
    }
    let (ps, pe) = strip_outer_parentheses(t, s, e);
    if pe - ps != e - s {
        return parse_expression(t, ps, pe, line);
    }
    if t[s] == '"' {
        return Ok(Expression::Literal(parse_scalar(t, s, e, line)?));
    }
    let after_new = strip_prefix_ci(t, s, e, "new ");
    if let Some(rest) = after_new {
        let (ns, ne) = trim_span(t, rest, e);
        let (class_name, a, b) = parse_named_call(t, ns, ne, line)?;
        let arguments = parse_argument_expressions(t, a, b, line)?;
        return Ok(Expression::New { class_name, arguments });
    }
    let dot: Vec<char> = vec!['.'];
    match split_top_level_token(t, s, e, &dot) {
        Some(k) => {
            validate_identifier(t, s, k, line)?;
            if looks_like_named_call(t, k + 1, e) {
                let (name, a, b) = parse_named_call(t, k + 1, e, line)?;
                let arguments = parse_argument_expressions(t, a, b, line)?;
                return match standard_namespace(t, s, k) {
                    Some(namespace) => Ok(Expression::StandardCall { namespace, name, arguments }),
                    None => Ok(Expression::MethodCall { target: span_string(t, s, k), name, arguments }),
                };
            }
            validate_identifier(t, k + 1, e, line)?;
            return Ok(Expression::Field { target: span_string(t, s, k), field: span_string(t, k + 1, e) });
        },
        None => {},
    }
    if looks_like_named_call(t, s, e) {
        let (name, a, b) = parse_named_call(t, s, e, line)?;
        let arguments = parse_argument_expressions(t, a, b, line)?;
        return Ok(Expression::Call { name, arguments });
    }
    if eq_ci_span(t, s, e, "true") {
        return Ok(Expression::Literal(String::from_str("true")));
    }
    if eq_ci_span(t, s, e, "false") {
        return Ok(Expression::Literal(String::from_str("false")));
    }
    if is_identifier(t, s, e) {
        return Ok(Expression::Variable(span_string(t, s, e)));
    }
    Ok(Expression::Literal(span_string(t, s, e)))
}

/// The first comparison operator outside parentheses and strings, tried in the order
/// `!=`, `<=`, `>=`, `=`, `<`, `>`: where it starts and ends, and which it is.
/// The text of a comparison operator.
pub open spec fn comparison_token(operator: ComparisonOperator) -> Seq<char> {
    match operator {
        ComparisonOperator::NotEqual => seq!['!', '='],
        ComparisonOperator::LessOrEqual => seq!['<', '='],
        ComparisonOperator::GreaterOrEqual => seq!['>', '='],
        ComparisonOperator::Equal => seq!['='],
        ComparisonOperator::Less => seq!['<'],
        ComparisonOperator::Greater => seq!['>'],
    }
}

/// The order in which the comparison operators are looked for: two-character ones first.
pub open spec fn comparison_rank(operator: ComparisonOperator) -> int {
    match operator {
        ComparisonOperator::NotEqual => 0,
        ComparisonOperator::LessOrEqual => 1,
        ComparisonOperator::GreaterOrEqual => 2,
        ComparisonOperator::Equal => 3,
        ComparisonOperator::Less => 4,
        ComparisonOperator::Greater => 5,
    }
}

/// `token` starts nowhere in `t[lo..hi]` outside every parenthesis and string.
pub open spec fn no_token(t: Seq<char>, lo: int, hi: int, token: Seq<char>) -> bool {
    forall|k: int| lo <= k < hi ==> !#[trigger] token_at(t, lo, hi, k, token)
}

fn split_comparison(t: &Vec<char>, lo: usize, hi: usize) -> (found: Option<(usize, usize, ComparisonOperator)>)
    requires
        lo <= hi <= t@.len(),
    ensures
        match found {
            Some((a, b, operator)) => {
                &&& lo <= a < b <= hi
                &&& b - a == comparison_token(operator).len()
                &&& token_at(t@, lo as int, hi as int, a as int, comparison_token(operator))
                &&& forall|k: int|
                    lo <= k < a ==> !#[trigger] token_at(t@, lo as int, hi as int, k, comparison_token(operator))
                &&& forall|other: ComparisonOperator|
                    comparison_rank(other) < comparison_rank(operator) ==> no_token(
                        t@,
                        lo as int,
                        hi as int,
                        #[trigger] comparison_token(other),
                    )
            },
            None => forall|other: ComparisonOperator|
                no_token(t@, lo as int, hi as int, #[trigger] comparison_token(other)),
        },
{
    let not_equal: Vec<char> = vec!['!', '='];
    assert(not_equal@ =~= seq!['!', '=']);
    if let Some(i) = split_top_level_token(t, lo, hi, &not_equal) {
        return Some((i, i + 2, ComparisonOperator::NotEqual));
    }
    let less_equal: Vec<char> = vec!['<', '='];
    assert(less_equal@ =~= seq!['<', '=']);
    if let Some(i) = split_top_level_token(t, lo, hi, &less_equal) {
        return Some((i, i + 2, ComparisonOperator::LessOrEqual));
    }
    let greater_equal: Vec<char> = vec!['>', '='];
    assert(greater_equal@ =~= seq!['>', '=']);
    if let Some(i) = split_top_level_token(t, lo, hi, &greater_equal) {
        return Some((i, i + 2, ComparisonOperator::GreaterOrEqual));
    }
    let equal: Vec<char> = vec!['='];
    assert(equal@ =~= seq!['=']);
    if let Some(i) = split_top_level_token(t, lo, hi, &equal) {
        return Some((i, i + 1, ComparisonOperator::Equal));
    }
    let less: Vec<char> = vec!['<'];
    assert(less@ =~= seq!['<']);
    if let Some(i) = split_top_level_token(t, lo, hi, &less) {
        return Some((i, i + 1, ComparisonOperator::Less));
    }
    let greater: Vec<char> = vec!['>'];
    assert(greater@ =~= seq!['>']);
    if let Some(i) = split_top_level_token(t, lo, hi, &greater) {
        return Some((i, i + 1, ComparisonOperator::Greater));
    }
    None
}

fn parse_condition(t: &Vec<char>, lo: usize, hi: usize, line: usize) -> (result: Result<Condition, ParseError>)
    requires
        lo <= hi <= t@.len(),
    ensures
        match result {
            Ok(condition) => condition_names_valid(condition),
            Err(error) => error.line == line,
        },
    decreases hi - lo,
{
    let (s, e) = strip_outer_parentheses(t, lo, hi);
    proof {
        reveal_strlit(" or ");
        reveal_strlit(" and ");
        reveal_strlit("not ");
    }
    match split_keyword_top_level(t, s, e, " or ") {
        Some((k, m)) => {
            let left = parse_condition(t, s, k, line)?;
            let right = parse_condition(t, m, e, line)?;
            return Ok(Condition::Or(Box::new(left), Box::new(right)));
        },
        None => {},
    }
    match split_keyword_top_level(t, s, e, " and ") {
        Some((k, m)) => {
            let left = parse_condition(t, s, k, line)?;
            let right = parse_condition(t, m, e, line)?;
            return Ok(Condition::And(Box::new(left), Box::new(right)));
        },
        None => {},
    }
    if let Some(rest) = strip_prefix_ci(t, s, e, "not ") {
        let (rs, re) = trim_span(t, rest, e);
        let inner = parse_condition(t, rs, re, line)?;
        return Ok(Condition::Not(Box::new(inner)));
    }
    if starts_with_ci(t, s, e, "this.worksheet.column(") {
        let (selector, rs, re) = parse_column_target(t, s, e, line)?;
        if eq_ci_span(t, rs, re, ".exists") {
            return Ok(Condition::ColumnExists { selector });
        }
        if let Some(rest) = strip_prefix_ci(t, rs, re, ".title") {
            let (vs, ve) = trim_span(t, rest, re);
            if vs < ve && t[vs] == '=' {
                let (xs, xe) = trim_span(t, vs + 1, ve);
                let expected = parse_expression(t, xs, xe, line)?;
                return Ok(Condition::ColumnTitleEquals { selector, expected });
            }
        }
    }
    match split_comparison(t, s, e) {
        Some((a, b, operator)) => {
            let (ls, le) = trim_span(t, s, a);
            let (rs, re) = trim_span(t, b, e);
            let left = parse_expression(t, ls, le, line)?;
            let right = parse_expression(t, rs, re, line)?;
            return Ok(Condition::Compare { left, operator, right });
        },
        None => {},
    }
    Ok(Condition::Expression(parse_expression(t, s, e, line)?))
}

/// Where the text after a keyword of `keyword_len` characters, and the white space after
/// it, starts on the line `t`.
pub open spec fn after_keyword(t: Seq<char>, keyword_len: int) -> int {
    keyword_len + trim_start_index(t.subrange(keyword_len, t.len() as int))
}

/// `t[r..]` is `name = word` with the `=` at `k`: before it only the name, a word that may
/// name a binding, and white space; after it a word (see `word_span`).
pub open spec fn binding_at(t: Seq<char>, r: int, k: int) -> bool {
    &&& 0 <= r <= k < t.len()
    &&& t[k] == '='
    &&& forall|i: int| r <= i < k ==> is_white_space(#[trigger] t[i]) || !word_breaking(t[i])
    &&& is_word(trim(t.subrange(r, k)))
    &&& is_identifier_text(trim(t.subrange(r, k)))
    &&& !reserved_name(trim(t.subrange(r, k)))
    &&& word_span(t, k + 1, t.len() as int)
}

/// The place of the `=` of a `name = word` text at `r` of `t` (see `binding_at`).
pub open spec fn binding_split(t: Seq<char>, r: int) -> int {
    choose|k: int| #[trigger] binding_at(t, r, k)
}

/// `statement` is the declaration `name = word` at `r` of `t` makes, of `kind`.
pub open spec fn binding_declares(t: Seq<char>, r: int, kind: DeclarationKind, statement: Statement) -> bool {
    let k = binding_split(t, r);
    statement matches Statement::Declare { kind: d, name, value } && d == kind && name@ == trim(t.subrange(r, k))
        && word_expression(trim(t.subrange(k + 1, t.len() as int)), value)
}

/// `t` is `Var name = word` or `Const name = word` (see `binding_at`).
#[verifier::opaque]
pub open spec fn simple_declaration_line(t: Seq<char>) -> bool {
    ||| keyword_follows(t, "var"@) && exists|k: int| #[trigger] binding_at(t, after_keyword(t, 3), k)
    ||| keyword_follows(t, "const"@) && exists|k: int| #[trigger] binding_at(t, after_keyword(t, 5), k)
}

/// What the declaration line `t` (see `simple_declaration_line`) reads as.
pub open spec fn declaration_of(t: Seq<char>, statement: Statement) -> bool {
    if keyword_follows(t, "var"@) {
        binding_declares(t, after_keyword(t, 3), DeclarationKind::Var, statement)
    } else {
        binding_declares(t, after_keyword(t, 5), DeclarationKind::Const, statement)
    }
}

/// A scan of `t[r..k + 1]` ending in the `=` of a binding finds it at top level.
proof fn lemma_binding_token(t: Seq<char>, r: int, k: int, hi: int)
    requires
        binding_at(t, r, k),
        hi == t.len(),
    ensures
        token_at(t, r, hi, k, seq!['=']),
        forall|i: int| r <= i < k ==> !#[trigger] token_at(t, r, hi, i, seq!['=']),
{
    let prefix = t.subrange(r, k);
    assert forall|i: int| 0 <= i < prefix.len() implies #[trigger] prefix[i] != '(' && prefix[i] != ')' && prefix[i]
        != '"' && prefix[i] != '\\' by {
        assert(prefix[i] == t[r + i]);
    }
    lemma_scan_plain(prefix);
    assert(t.subrange(r, k + 1).drop_last() =~= prefix);
    assert(t.subrange(k, k + 1) =~= seq!['=']);
    assert forall|i: int| r <= i < k implies !#[trigger] token_at(t, r, hi, i, seq!['=']) by {
        if token_at(t, r, hi, i, seq!['=']) {
            assert(t.subrange(i, i + 1)[0] == t[i]);
        }
    }
}

/// The text after `keyword` when the line starts with it as a whole word (any ASCII case).
fn strip_keyword(t: &Vec<char>, keyword: &str) -> (rest: Option<usize>)
    ensures
        ({
            let k = keyword@.len() as int;
            let follows = starts_with_ci_spec(t@, keyword@) && (k == t@.len() || is_white_space(t@[k]));
            match rest {
                Some(r) => {
                    &&& follows
                    &&& k <= r <= t@.len()
                    &&& forall|i: int| k <= i < r ==> is_white_space(#[trigger] t@[i])
                    &&& r < t@.len() ==> !is_white_space(t@[r as int])
                },
                None => !follows,
            }
        }),
{
    let n = t.len();
    assert(t@.subrange(0, n as int) =~= t@);
    let k = match strip_prefix_ci(t, 0, n, keyword) {
        Some(k) => k,
        None => {
            return None;
        },
    };
    if k == n || crate::text::white_space(t[k]) {
        let (s, _) = trim_span(t, k, n);
        Some(s)
    } else {
        None
    }
}

fn parse_binding_value(t: &Vec<char>, lo: usize, hi: usize, line: usize) -> (result: Result<
    Expression,
    ParseError,
>)
    requires
        lo <= hi <= t@.len(),
    ensures
        result matches Err(error) ==> error.line == line,
        ({
            let text = trim(t@.subrange(lo as int, hi as int));
            text.len() > 0 && text[0] == '=' ==> (result matches Err(error) && error.line == line
                && error.message@ == "expected a value after a single `=`"@)
        }),
        word_span(t@, lo as int, hi as int) ==> (result matches Ok(e) && word_expression(
            trim(t@.subrange(lo as int, hi as int)),
            e,
        )),
{
    let (s, e) = trim_span(t, lo, hi);
    proof {
        reveal(word_span);
        if word_span(t@, lo as int, hi as int) {
            let w = t@.subrange(s as int, e as int);
            lemma_word_facts(w);
            assert(w[0] == t@[s as int]);
            assert(!word_breaking(w[0]));
            assert forall|k: int| s <= k < e implies is_white_space(#[trigger] t@[k]) || !word_breaking(t@[k]) by {}
            assert(word_span(t@, s as int, e as int));
        }
    }
    if s < e && t[s] == '=' {
        return Err(err(line, "expected a value after a single `=`"));
    }
    parse_expression(t, s, e, line)
}

fn parse_declaration(t: &Vec<char>, rest: usize, kind: DeclarationKind, line: usize) -> (result: Result<
    Statement,
    ParseError,
>)
    requires
        rest <= t@.len(),
    ensures
        result matches Err(error) ==> error.line == line,
        match result {
            Ok(Statement::Declare { kind: k, name, .. }) => {
                &&& k == kind
                &&& exists|at: int|
                    #[trigger] token_at(t@, rest as int, t@.len() as int, at, seq!['='])
                        && name@ == trim(t@.subrange(rest as int, at))
                &&& is_identifier_text(name@)
                &&& !reserved_name(name@)
            },
            Ok(_) => false,
            Err(error) => (forall|at: int|
                rest <= at < t@.len() ==> !#[trigger] token_at(t@, rest as int, t@.len() as int, at, seq!['=']))
                ==> error.line == line && error.message@ == "expected `VAR name = value` or `CONST name = value`"@,
        },
        (exists|k: int| #[trigger] binding_at(t@, rest as int, k)) ==> (result matches Ok(statement) && binding_declares(
            t@,
            rest as int,
            kind,
            statement,
        )),
{
    let n = t.len();
    let equals: Vec<char> = vec!['='];
    assert(equals@ =~= seq!['=']);
    let ghost split = binding_split(t@, rest as int);
    proof {
        if exists|k: int| #[trigger] binding_at(t@, rest as int, k) {
            lemma_binding_token(t@, rest as int, split, n as int);
        }
    }
    let k = match split_top_level_token(t, rest, n, &equals) {
        Some(k) => k,
        None => {
            return Err(err(line, "expected `VAR name = value` or `CONST name = value`"));
        },
    };
    proof {
        if exists|k: int| #[trigger] binding_at(t@, rest as int, k) {
            if k < split {
                assert(!token_at(t@, rest as int, n as int, k as int, seq!['=']));
            }
            if k > split {
                assert(!token_at(t@, rest as int, n as int, split, seq!['=']));
            }
            assert(k == split);
        }
    }
    let (ns, ne) = trim_span(t, rest, k);
    validate_binding_name(t, ns, ne, line)?;
    let value = parse_binding_value(t, k + 1, n, line)?;
    assert(token_at(t@, rest as int, n as int, k as int, seq!['=']));
    Ok(Statement::Declare { kind, name: span_string(t, ns, ne), value })
}

/// `t` is a `Return` line with nothing or a word after it.
#[verifier::opaque]
pub open spec fn simple_return_line(t: Seq<char>) -> bool {
    ||| eq_ci(t, "return"@)
    ||| starts_with_ci_spec(t, "return "@) && word_span(t, "return "@.len() as int, t.len() as int)
}

/// `statement` is what the `Return` line `t` (see `simple_return_line`) reads as.
#[verifier::opaque]
pub open spec fn return_statement_of(t: Seq<char>, statement: Statement) -> bool {
    if eq_ci(t, "return"@) {
        statement matches Statement::Return { value: None }
    } else {
        statement matches Statement::Return { value: Some(e) } && word_expression(
            trim(t.subrange("return "@.len() as int, t.len() as int)),
            e,
        )
    }
}

/// Text whose first letter differs, up to ASCII case, from that of `w` neither starts with
/// `w` nor equals it.
proof fn lemma_first_letter(t: Seq<char>, w: Seq<char>)
    requires
        t.len() > 0,
        w.len() > 0,
        ascii_lower(t[0]) != ascii_lower(w[0]),
    ensures
        !starts_with_ci_spec(t, w),
        !eq_ci(t, w),
        !keyword_follows(t, w),
{
    if starts_with_ci_spec(t, w) {
        assert(lower_seq(t.take(w.len() as int))[0] == lower_seq(w)[0]);
    }
    if eq_ci(t, w) {
        assert(lower_seq(t)[0] == lower_seq(w)[0]);
    }
}

/// A `Return` line is none of the other kinds of line.
proof fn lemma_return_line(t: Seq<char>)
    requires
        simple_return_line(t),
    ensures
        !keyword_follows(t, "var"@),
        !keyword_follows(t, "const"@),
        !keyword_follows(t, "let"@),
        !keyword_follows(t, "dim"@),
        !starts_with_ci_spec(t, "this.worksheet.column("@),
        !starts_with_ci_spec(t, "this.worksheet.editor.cell("@),
        !starts_with_ci_spec(t, "if "@),
        !starts_with_ci_spec(t, "for "@),
        !starts_with_ci_spec(t, "def "@),
        !starts_with_ci_spec(t, "class "@),
        !eq_ci(t, "end if"@) && !eq_ci(t, "endif"@) && !eq_ci(t, "end def"@) && !eq_ci(t, "enddef"@),
        !eq_ci(t, "end class"@) && !eq_ci(t, "endclass"@) && !eq_ci(t, "else"@),
        !eq_ci(trim(t), "next"@) && !starts_with_ci_spec(trim(t), "next "@),
{
    reveal(simple_return_line);
    reveal_strlit("return");
    reveal_strlit("return ");
    reveal_strlit("var");
    reveal_strlit("const");
    reveal_strlit("let");
    reveal_strlit("dim");
    reveal_strlit("this.worksheet.column(");
    reveal_strlit("this.worksheet.editor.cell(");
    reveal_strlit("if ");
    reveal_strlit("for ");
    reveal_strlit("def ");
    reveal_strlit("class ");
    reveal_strlit("end if");
    reveal_strlit("endif");
    reveal_strlit("end def");
    reveal_strlit("enddef");
    reveal_strlit("end class");
    reveal_strlit("endclass");
    reveal_strlit("else");
    reveal_strlit("next");
    reveal_strlit("next ");
    assert("return"@[0] == 'r');
    assert(ascii_lower('r') == 'r');
    if eq_ci(t, "return"@) {
        assert(lower_seq(t).len() == 6);
        assert(lower_seq(t)[0] == lower_seq("return"@)[0]);
        assert(lower_seq(t)[0] == ascii_lower(t[0]));
    } else {
        assert(t.take(7).len() == 7);
        assert(lower_seq(t.take(7))[0] == lower_seq("return "@)[0]);
        assert(lower_seq(t.take(7))[0] == ascii_lower(t.take(7)[0]));
        assert(t.take(7)[0] == t[0]);
    }
    assert(ascii_lower(t[0]) == 'r');
    lemma_first_letter(t, "var"@);
    lemma_first_letter(t, "const"@);
    lemma_first_letter(t, "let"@);
    lemma_first_letter(t, "dim"@);
    lemma_first_letter(t, "this.worksheet.column("@);
    lemma_first_letter(t, "this.worksheet.editor.cell("@);
    lemma_first_letter(t, "if "@);
    lemma_first_letter(t, "for "@);
    lemma_first_letter(t, "def "@);
    lemma_first_letter(t, "class "@);
    lemma_first_letter(t, "end if"@);
    lemma_first_letter(t, "endif"@);
    lemma_first_letter(t, "end def"@);
    lemma_first_letter(t, "enddef"@);
    lemma_first_letter(t, "end class"@);
    lemma_first_letter(t, "endclass"@);
    lemma_first_letter(t, "else"@);
    assert(!is_white_space(t[0]));
    lemma_trim_start_index_char(t, 0);
    lemma_trim_end_index_bounds(t);
    assert(trim_start(t) =~= t);
    assert(trim(t)[0] == t[0]);
    lemma_first_letter(trim(t), "next"@);
    lemma_first_letter(trim(t), "next "@);
}

/// Text that differs, up to ASCII case, from `w` at position `i` neither starts with `w` nor
/// equals it.
proof fn lemma_differs_at(t: Seq<char>, w: Seq<char>, i: int)
    requires
        0 <= i < t.len(),
        i < w.len(),
        ascii_lower(t[i]) != ascii_lower(w[i]),
    ensures
        !starts_with_ci_spec(t, w),
        !eq_ci(t, w),
        !keyword_follows(t, w),
{
    if starts_with_ci_spec(t, w) {
        assert(lower_seq(t.take(w.len() as int))[i] == lower_seq(w)[i]);
    }
    if eq_ci(t, w) {
        assert(lower_seq(t)[i] == lower_seq(w)[i]);
    }
}

/// A declaration line is none of the other kinds of line.
proof fn lemma_declaration_line(t: Seq<char>)
    requires
        simple_declaration_line(t),
    ensures
        keyword_follows(t, "var"@) ==> !keyword_follows(t, "const"@),
        keyword_follows(t, "var"@) || keyword_follows(t, "const"@),
        !starts_with_ci_spec(t, "if "@),
        !starts_with_ci_spec(t, "for "@),
        !starts_with_ci_spec(t, "def "@),
        !starts_with_ci_spec(t, "class "@),
        !eq_ci(t, "end if"@) && !eq_ci(t, "endif"@) && !eq_ci(t, "end def"@) && !eq_ci(t, "enddef"@),
        !eq_ci(t, "end class"@) && !eq_ci(t, "endclass"@) && !eq_ci(t, "else"@),
        !eq_ci(trim(t), "next"@) && !starts_with_ci_spec(trim(t), "next "@),
        !simple_return_line(t),
{
    reveal(simple_declaration_line);
    reveal(simple_return_line);
    reveal_strlit("var");
    reveal_strlit("const");
    reveal_strlit("return");
    reveal_strlit("return ");
    reveal_strlit("if ");
    reveal_strlit("for ");
    reveal_strlit("def ");
    reveal_strlit("class ");
    reveal_strlit("end if");
    reveal_strlit("endif");
    reveal_strlit("end def");
    reveal_strlit("enddef");
    reveal_strlit("end class");
    reveal_strlit("endclass");
    reveal_strlit("else");
    reveal_strlit("next");
    reveal_strlit("next ");
    assert(ascii_lower('v') == 'v' && ascii_lower('c') == 'c' && ascii_lower('o') == 'o');
    if keyword_follows(t, "var"@) {
        assert(lower_seq(t.take(3))[0] == lower_seq("var"@)[0]);
        assert(lower_seq(t.take(3))[0] == ascii_lower(t.take(3)[0]));
        assert(t.take(3)[0] == t[0]);
        assert(ascii_lower(t[0]) == 'v');
        lemma_first_letter(t, "const"@);
        lemma_first_letter(t, "if "@);
        lemma_first_letter(t, "for "@);
        lemma_first_letter(t, "def "@);
        lemma_first_letter(t, "class "@);
        lemma_first_letter(t, "end if"@);
        lemma_first_letter(t, "endif"@);
        lemma_first_letter(t, "end def"@);
        lemma_first_letter(t, "enddef"@);
        lemma_first_letter(t, "end class"@);
        lemma_first_letter(t, "endclass"@);
        lemma_first_letter(t, "else"@);
        lemma_first_letter(t, "return"@);
        lemma_first_letter(t, "return "@);
    } else {
        assert(lower_seq(t.take(5))[0] == lower_seq("const"@)[0]);
        assert(lower_seq(t.take(5))[0] == ascii_lower(t.take(5)[0]));
        assert(t.take(5)[0] == t[0]);
        assert(lower_seq(t.take(5))[1] == lower_seq("const"@)[1]);
        assert(lower_seq(t.take(5))[1] == ascii_lower(t.take(5)[1]));
        assert(t.take(5)[1] == t[1]);
        assert(ascii_lower(t[0]) == 'c');
        assert(ascii_lower(t[1]) == 'o');
        lemma_first_letter(t, "if "@);
        lemma_first_letter(t, "for "@);
        lemma_first_letter(t, "def "@);
        lemma_differs_at(t, "class "@, 1);
        lemma_first_letter(t, "end if"@);
        lemma_first_letter(t, "endif"@);
        lemma_first_letter(t, "end def"@);
        lemma_first_letter(t, "enddef"@);
        lemma_first_letter(t, "end class"@);
        lemma_first_letter(t, "endclass"@);
        lemma_first_letter(t, "else"@);
        lemma_first_letter(t, "return"@);
        lemma_first_letter(t, "return "@);
    }
    assert(!is_white_space(t[0]));
    lemma_trim_start_index_char(t, 0);
    lemma_trim_end_index_bounds(t);
    assert(trim_start(t) =~= t);
    assert(trim(t)[0] == t[0]);
    lemma_first_letter(trim(t), "next"@);
    lemma_first_letter(trim(t), "next "@);
}

/// `t` is a `Return` line, a declaration line or an assignment line that reads on its own
/// (see `simple_return_line`, `simple_declaration_line`, `simple_assignment_line`).
pub open spec fn simple_line(t: Seq<char>) -> bool {
    simple_return_line(t) || simple_declaration_line(t) || simple_assignment_line(t)
}

/// What the simple line `t` (see `simple_line`) reads as.
pub open spec fn simple_statement_of(t: Seq<char>, statement: Statement) -> bool {
    if simple_return_line(t) {
        return_statement_of(t, statement)
    } else if simple_declaration_line(t) {
        declaration_of(t, statement)
    } else {
        assignment_of(t, statement)
    }
}

/// The text after a keyword and the white space after it starts where `after_keyword`
/// says.
proof fn lemma_keyword_rest(t: Seq<char>, k: int, r: int)
    requires
        0 <= k <= r <= t.len(),
        forall|i: int| k <= i < r ==> is_white_space(#[trigger] t[i]),
        r < t.len() ==> !is_white_space(t[r]),
    ensures
        after_keyword(t, k) == r,
{
    let u = t.subrange(k, t.len() as int);
    assert forall|i: int| 0 <= i < r - k implies is_white_space(#[trigger] u[i]) by {
        assert(u[i] == t[k + i]);
    }
    if r < t.len() {
        assert(u[r - k] == t[r]);
    }
    lemma_trim_start_index_char(u, r - k);
}

/// `t` is `name = word` (see `binding_at`) and starts with no keyword that gives a line
/// another meaning.
#[verifier::opaque]
pub open spec fn simple_assignment_line(t: Seq<char>) -> bool {
    &&& exists|k: int| #[trigger] binding_at(t, 0, k)
    &&& !keyword_follows(t, "var"@) && !keyword_follows(t, "const"@)
    &&& !keyword_follows(t, "let"@) && !keyword_follows(t, "dim"@)
    &&& !eq_ci(t, "return"@) && !starts_with_ci_spec(t, "return "@)
    &&& !starts_with_ci_spec(t, "this.worksheet.column("@)
    &&& !starts_with_ci_spec(t, "this.worksheet.editor.cell("@)
    &&& !starts_with_ci_spec(t, "if "@) && !starts_with_ci_spec(t, "for "@)
    &&& !starts_with_ci_spec(t, "def "@) && !starts_with_ci_spec(t, "class "@)
    &&& !eq_ci(t, "end if"@) && !eq_ci(t, "endif"@) && !eq_ci(t, "end def"@) && !eq_ci(t, "enddef"@)
    &&& !eq_ci(t, "end class"@) && !eq_ci(t, "endclass"@) && !eq_ci(t, "else"@)
    &&& !eq_ci(trim(t), "next"@) && !starts_with_ci_spec(trim(t), "next "@)
}

/// What the assignment line `t` (see `simple_assignment_line`) reads as.
pub open spec fn assignment_of(t: Seq<char>, statement: Statement) -> bool {
    let k = binding_split(t, 0);
    statement matches Statement::Assign { name, value } && name@ == trim(t.subrange(0, k)) && word_expression(
        trim(t.subrange(k + 1, t.len() as int)),
        value,
    )
}

/// A simple line is none of the other kinds of line.
proof fn lemma_simple_line(t: Seq<char>)
    ensures
        simple_line(t) ==> {
            &&& !starts_with_ci_spec(t, "if "@)
            &&& !starts_with_ci_spec(t, "for "@)
            &&& !starts_with_ci_spec(t, "def "@)
            &&& !starts_with_ci_spec(t, "class "@)
            &&& !eq_ci(t, "end if"@) && !eq_ci(t, "endif"@) && !eq_ci(t, "end def"@) && !eq_ci(t, "enddef"@)
            &&& !eq_ci(t, "end class"@) && !eq_ci(t, "endclass"@) && !eq_ci(t, "else"@)
            &&& !eq_ci(trim(t), "next"@) && !starts_with_ci_spec(trim(t), "next "@)
        },
{
    if simple_return_line(t) {
        lemma_return_line(t);
    } else if simple_declaration_line(t) {
        lemma_declaration_line(t);
    } else if simple_assignment_line(t) {
        reveal(simple_assignment_line);
    }
}

fn parse_return_statement(t: &Vec<char>, line: usize) -> (result: Result<Statement, ParseError>)
    ensures
        result matches Err(error) ==> error.line == line,
        match result {
            Ok(Statement::Return { value }) => value is None <==> (eq_ci(t@, "return"@) || !starts_with_ci_spec(
                t@,
                "return "@,
            )),
            Ok(_) => false,
            Err(_) => !eq_ci(t@, "return"@) && starts_with_ci_spec(t@, "return "@),
        },
        simple_return_line(t@) ==> (result matches Ok(statement) && return_statement_of(t@, statement)),
{
    proof {
        reveal(simple_return_line);
        reveal(return_statement_of);
    }
    let n = t.len();
    assert(t@.subrange(0, n as int) =~= t@);
    if eq_ci_span(t, 0, n, "return") {
        return Ok(Statement::Return { value: None });
    }
    let rest = match strip_prefix_ci(t, 0, n, "return ") {
        Some(rest) => rest,
        None => {
            return Ok(Statement::Return { value: None });
        },
    };
    let (s, e) = trim_span(t, rest, n);
    proof {
        reveal(simple_return_line);
        reveal(word_span);
        reveal(return_statement_of);
        reveal_strlit("return ");
        if simple_return_line(t@) && !eq_ci(t@, "return"@) {
            let w = t@.subrange(s as int, e as int);
            lemma_word_facts(w);
            assert forall|k: int| s <= k < e implies is_white_space(#[trigger] t@[k]) || !word_breaking(t@[k]) by {}
            assert(word_span(t@, s as int, e as int));
        }
    }
    Ok(Statement::Return { value: Some(parse_expression(t, s, e, line)?) })
}

/// Whether `ls..le` is the part of `s[lo..hi]` left once surrounding whitespace is trimmed.
pub open spec fn trimmed_bounds(s: Seq<char>, lo: int, hi: int, ls: int, le: int) -> bool {
    &&& lo <= ls <= le <= hi
    &&& s.subrange(ls, le) == trim(s.subrange(lo, hi))
    &&& forall|i: int| lo <= i < ls ==> is_white_space(#[trigger] s[i])
    &&& ls < hi ==> !is_white_space(s[ls])
}

/// Whether `at` is the first `=` of `s` outside quotes and parentheses.
pub open spec fn first_equals(s: Seq<char>, at: int) -> bool {
    &&& 0 <= at < s.len()
    &&& token_at(s, 0, s.len() as int, at, seq!['='])
    &&& forall|j: int| 0 <= j < at ==> !#[trigger] token_at(s, 0, s.len() as int, j, seq!['='])
}

/// Two first `=` positions of one line are the same position.
proof fn lemma_first_equals_unique(s: Seq<char>, a: int, b: int)
    requires
        first_equals(s, a),
        first_equals(s, b),
    ensures
        a == b,
{
    if a < b {
        assert(token_at(s, 0, s.len() as int, a, seq!['=']));
    } else if b < a {
        assert(token_at(s, 0, s.len() as int, b, seq!['=']));
    }
}

/// The trimmed part of a span has one pair of bounds.
proof fn lemma_trimmed_bounds_unique(s: Seq<char>, lo: int, hi: int, a1: int, b1: int, a2: int, b2: int)
    requires
        0 <= lo,
        hi <= s.len(),
        trimmed_bounds(s, lo, hi, a1, b1),
        trimmed_bounds(s, lo, hi, a2, b2),
    ensures
        a1 == a2,
        b1 == b2,
{
    if a1 < a2 {
        assert(is_white_space(s[a1]));
    } else if a2 < a1 {
        assert(is_white_space(s[a2]));
    }
    assert(s.subrange(a1, b1).len() == s.subrange(a2, b2).len());
}

/// `target.field = value`: `None` where the line holds no `=` outside quotes and parentheses,
/// or where the text before the first such `=` holds no `.` outside them.
fn parse_field_assignment(t: &Vec<char>, line: usize) -> (result: Result<Option<Statement>, ParseError>)
    ensures
        result matches Err(error) ==> error.line == line,
        (forall|j: int| 0 <= j < t@.len() ==> !#[trigger] token_at(t@, 0, t@.len() as int, j, seq!['=']))
            ==> result == Ok::<Option<Statement>, ParseError>(None),
        match result {
            Ok(Some(statement)) => match statement {
                Statement::SetField { target, field, .. } => {
                    &&& is_identifier_text(target@)
                    &&& is_identifier_text(field@)
                    &&& exists|at: int| #[trigger]
                        first_equals(t@, at) && target@ + seq!['.'] + field@ == trim(t@.subrange(0, at))
                },
                _ => false,
            },
            Ok(None) => forall|at: int, ls: int, le: int|
                #![trigger first_equals(t@, at), trimmed_bounds(t@, 0, at, ls, le)]
                first_equals(t@, at) && trimmed_bounds(t@, 0, at, ls, le) ==> forall|j: int|
                    ls <= j < le ==> !#[trigger] token_at(t@, ls, le, j, seq!['.']),
            Err(_) => exists|at: int| #[trigger] first_equals(t@, at),
        },
{
    let n = t.len();
    let equals: Vec<char> = vec!['='];
    assert(equals@ =~= seq!['=']);
    let k = match split_top_level_token(t, 0, n, &equals) {
        Some(k) => k,
        None => {
            return Ok(None);
        },
    };
    assert(first_equals(t@, k as int));
    let (ls, le) = trim_span(t, 0, k);
    assert(trimmed_bounds(t@, 0, k as int, ls as int, le as int));
    let dot: Vec<char> = vec!['.'];
    assert(dot@ =~= seq!['.']);
    let m = match split_top_level_token(t, ls, le, &dot) {
        Some(m) => m,
        None => {
            proof {
                assert forall|at: int, a: int, b: int|
                    first_equals(t@, at) && trimmed_bounds(t@, 0, at, a, b) implies forall|j: int|
                    a <= j < b ==> !#[trigger] token_at(t@, a, b, j, seq!['.']) by {
                    lemma_first_equals_unique(t@, at, k as int);
                    lemma_trimmed_bounds_unique(t@, 0, k as int, a, b, ls as int, le as int);
                }
            }
            return Ok(None);
        },
    };
    validate_identifier(t, ls, m, line)?;
    validate_identifier(t, m + 1, le, line)?;
    let (vs, ve) = trim_span(t, k + 1, n);
    let value = parse_expression(t, vs, ve, line)?;
    let target = span_string(t, ls, m);
    let field = span_string(t, m + 1, le);
    proof {
        assert(t@.subrange(m as int, m + 1) == seq!['.']);
        assert(t@[m as int] == '.');
        assert(target@ + seq!['.'] + field@ =~= t@.subrange(ls as int, le as int));
    }
    Ok(Some(Statement::SetField { target, field, value }))
}

/// The column type that the text after `.Type` in `rest` declares, where it is
/// `= <scalar>` naming one of the four types.
pub open spec fn declared_column_type(rest: Seq<char>) -> Option<ColumnType> {
    let after = trim(rest);
    if after.len() > 0 && after[0] == '=' {
        match scalar_value(trim(after.drop_first())) {
            Some(name) => if eq_ci(name, "string"@) {
                Some(ColumnType::String)
            } else if eq_ci(name, "integer"@) {
                Some(ColumnType::Integer)
            } else if eq_ci(name, "decimal"@) {
                Some(ColumnType::Decimal)
            } else if eq_ci(name, "boolean"@) {
                Some(ColumnType::Boolean)
            } else {
                None
            },
            None => None,
        }
    } else {
        None
    }
}

fn parse_column_statement(t: &Vec<char>, line: usize) -> (result: Result<Statement, ParseError>)
    ensures
        match result {
            Ok(statement) => {
                let prefix = "this.worksheet.column("@;
                &&& starts_with_ci_spec(t@, prefix)
                &&& exists|close: int|
                    #[trigger] first_close(t@, prefix.len() as int, t@.len() as int, close) && {
                        let remainder = trim(t@.subrange(close + 1, t@.len() as int));
                        match statement {
                            Statement::ValidateColumnType { selector, column_type } => {
                                &&& selector_of(trim(t@.subrange(prefix.len() as int, close)), selector)
                                &&& starts_with_ci_spec(remainder, ".type"@)
                                &&& declared_column_type(remainder.subrange(5, remainder.len() as int)) == Some(
                                    column_type,
                                )
                            },
                            Statement::CheckJapanese { selector } => {
                                &&& selector_of(trim(t@.subrange(prefix.len() as int, close)), selector)
                                &&& !starts_with_ci_spec(remainder, ".type"@)
                                &&& eq_ci(remainder, ".check.japanese"@)
                            },
                            _ => false,
                        }
                    }
            },
            Err(error) => error.line == line,
        },
{
    let n = t.len();
    assert(t@.subrange(0, n as int) =~= t@);
    let (selector, rs, re) = parse_column_target(t, 0, n, line)?;
    if let Some(rest) = strip_prefix_ci(t, rs, re, ".type") {
        let (vs, ve) = trim_span(t, rest, re);
        if !(vs < ve && t[vs] == '=') {
            return Err(err(line, "expected `=`"));
        }
        proof {
            assert(".type"@.len() == 5) by {
                reveal_strlit(".type");
            }
            assert(t@.subrange(rest as int, re as int) =~= t@.subrange(rs as int, re as int).subrange(
                5,
                re - rs,
            ));
            assert(trim(t@.subrange(rest as int, re as int)).drop_first() =~= t@.subrange(vs + 1, ve as int));
        }
        let value = parse_scalar(t, vs + 1, ve, line)?;
        return match parse_column_type(value.as_str()) {
            Some(column_type) => Ok(Statement::ValidateColumnType { selector, column_type }),
            None => Err(err(line, "column type must be String, Integer, Decimal, or Boolean")),
        };
    }
    if eq_ci_span(t, rs, re, ".check.japanese") {
        return Ok(Statement::CheckJapanese { selector });
    }
    Err(err(line, "supported column statements are `.Type = ...` and `.Check.Japanese`"))
}

#[verifier::rlimit(60)]
fn parse_cell_statement(t: &Vec<char>, line: usize) -> (result: Result<Statement, ParseError>)
    ensures
        result matches Err(error) ==> error.line == line,
        ({
            let prefix = "this.worksheet.editor.cell("@;
            match result {
                Ok(statement) => statement is SetRangeValue && starts_with_ci_spec(t@, prefix),
                Err(error) => !starts_with_ci_spec(t@, prefix) ==> error.line == line && error.message@
                    == "expected `"@ + prefix + "...`"@,
            }
        }),
{
    let n = t.len();
    assert(t@.subrange(0, n as int) =~= t@);
    let (a, b, rs, re) = parse_call(t, 0, n, "this.worksheet.editor.cell(", line)?;
    let rest = match strip_prefix_ci(t, rs, re, ".value.set") {
        Some(rest) => rest,
        None => {
            return Err(err(line, "expected `.Value.Set = <value>` after Cell(...) "));
        },
    };
    let (vs, ve) = trim_span(t, rest, re);
    if !(vs < ve && t[vs] == '=') {
        return Err(err(line, "expected `=`"));
    }
    let (xs, xe) = trim_span(t, vs + 1, ve);
    let value = parse_expression(t, xs, xe, line)?;
    let range_text = parse_range_argument(t, a, b, line)?;
    match CellRange::parse_a1(range_text.as_str()) {
        Ok(range) => Ok(Statement::SetRangeValue { range, value }),
        Err(error) => Err(ParseError { line, message: error.to_string() }),
    }
}

/// Whether `t` starts with `word` (any ASCII case) as a whole word.
pub open spec fn keyword_follows(t: Seq<char>, word: Seq<char>) -> bool {
    starts_with_ci_spec(t, word) && (word.len() == t.len() || is_white_space(t[word.len() as int]))
}

/// One statement line (not a block). The first words decide its kind, in this order:
/// `Var`, `Const`, `Let` or `Dim` (refused), `Return`, `this.Worksheet.Column(`,
/// `this.Worksheet.Editor.Cell(`; any other line is an assignment or a call.
fn parse_statement(line: &SourceLine) -> (result: Result<Statement, ParseError>)
    ensures
        result matches Err(error) ==> error.line == line.number,
        ({
            let t = line.text@;
            let var = keyword_follows(t, "var"@);
            let cons = !var && keyword_follows(t, "const"@);
            let refused = !var && !cons && (keyword_follows(t, "let"@) || keyword_follows(t, "dim"@));
            let ret = !var && !cons && !refused && (eq_ci(t, "return"@) || starts_with_ci_spec(t, "return "@));
            let column = !var && !cons && !refused && !ret && starts_with_ci_spec(t, "this.worksheet.column("@);
            let cell = !var && !cons && !refused && !ret && !column && starts_with_ci_spec(
                t,
                "this.worksheet.editor.cell("@,
            );
            match result {
                Ok(Statement::Declare { kind, .. }) => (var && kind == DeclarationKind::Var) || (cons && kind
                    == DeclarationKind::Const),
                Ok(Statement::Return { .. }) => ret,
                Ok(Statement::ValidateColumnType { .. }) => column,
                Ok(Statement::CheckJapanese { .. }) => column,
                Ok(Statement::SetRangeValue { .. }) => cell,
                Ok(Statement::If { .. }) => false,
                Ok(Statement::For { .. }) => false,
                Ok(_) => !var && !cons && !refused && !ret && !column && !cell,
                Err(error) => refused ==> error.line == line.number && error.message@
                    == "LET / DIM are not supported; use VAR or CONST"@,
            }
        }),
        simple_line(line.text@) ==> (result matches Ok(statement) && simple_statement_of(line.text@, statement)),
{
    let t = &line.text;
    let n = t.len();
    assert(t@.subrange(0, n as int) =~= t@);
    let number = line.number;
    proof {
        reveal(simple_return_line);
        reveal(simple_assignment_line);
        if simple_return_line(t@) {
            lemma_return_line(t@);
        }
        if simple_declaration_line(t@) {
            lemma_declaration_line(t@);
        }
    }
    match strip_keyword(t, "var") {
        Some(rest) => {
            proof {
                reveal_strlit("var");
                if simple_declaration_line(t@) {
                    lemma_keyword_rest(t@, 3, rest as int);
                    reveal(simple_declaration_line);
                }
            }
            return parse_declaration(t, rest, DeclarationKind::Var, number);
        },
        None => {},
    }
    match strip_keyword(t, "const") {
        Some(rest) => {
            proof {
                reveal_strlit("const");
                if simple_declaration_line(t@) {
                    lemma_keyword_rest(t@, 5, rest as int);
                    reveal(simple_declaration_line);
                }
            }
            return parse_declaration(t, rest, DeclarationKind::Const, number);
        },
        None => {},
    }
    if strip_keyword(t, "let").is_some() || strip_keyword(t, "dim").is_some() {
        return Err(err(number, "LET / DIM are not supported; use VAR or CONST"));
    }
    if eq_ci_span(t, 0, n, "return") || starts_with_ci(t, 0, n, "return ") {
        return parse_return_statement(t, number);
    }
    if starts_with_ci(t, 0, n, "this.worksheet.column(") {
        return parse_column_statement(t, number);
    }
    if starts_with_ci(t, 0, n, "this.worksheet.editor.cell(") {
        return parse_cell_statement(t, number);
    }
    let equals: Vec<char> = vec!['='];
    let ghost split = binding_split(t@, 0);
    proof {
        assert(equals@ =~= seq!['=']);
        if simple_assignment_line(t@) {
            lemma_binding_token(t@, 0, split, n as int);
        }
    }
    match split_top_level_token(t, 0, n, &equals) {
        Some(k) => {
            proof {
                if simple_assignment_line(t@) {
                    if k < split {
                        assert(!token_at(t@, 0, n as int, k as int, seq!['=']));
                    }
                    if k > split {
                        assert(!token_at(t@, 0, n as int, split, seq!['=']));
                    }
                    assert(k == split);
                }
            }
            let (ns, ne) = trim_span(t, 0, k);
            if is_identifier(t, ns, ne) {
                validate_binding_name(t, ns, ne, number)?;
                let value = parse_binding_value(t, k + 1, n, number)?;
                return Ok(Statement::Assign { name: span_string(t, ns, ne), value });
            }
        },
        None => {},
    }
    match parse_field_assignment(t, number)? {
        Some(statement) => {
            return Ok(statement);
        },
        None => {},
    }
    match parse_expression(t, 0, n, number)? {
        Expression::Call { name, arguments } => Ok(Statement::Call { name, arguments }),
        Expression::MethodCall { target, name, arguments } => Ok(Statement::MethodCall { target, name, arguments }),
        _ => Err(err(number, "unsupported statement")),
    }
}

/// `text` is the line `Field name = value` that declares `field`: the name is the trimmed
/// text before the first `=` outside quotes and parentheses, and an identifier.
pub open spec fn field_declared(text: Seq<char>, field: FieldDefinition) -> bool {
    let k = "field "@.len() as int;
    &&& starts_with_ci_spec(text, "field "@)
    &&& exists|at: int|
        #[trigger] token_at(text, k, text.len() as int, at, seq!['=']) && k <= at && (forall|j: int|
            k <= j < at ==> !#[trigger] token_at(text, k, text.len() as int, j, seq!['='])) && field.name@ == trim(
            text.subrange(k, at),
        )
    &&& is_identifier_text(field.name@)
}

/// `t` is `Field name = word` (see `binding_at`).
#[verifier::opaque]
pub open spec fn simple_field_line(t: Seq<char>) -> bool {
    starts_with_ci_spec(t, "field "@) && exists|k: int| #[trigger] binding_at(t, "field "@.len() as int, k)
}

/// `field` is what the field line `t` (see `simple_field_line`) declares: its name, and
/// the word after the `=` as its default.
pub open spec fn field_of(t: Seq<char>, field: FieldDefinition) -> bool {
    let k = binding_split(t, "field "@.len() as int);
    &&& field.name@ == trim(t.subrange("field "@.len() as int, k))
    &&& word_expression(trim(t.subrange(k + 1, t.len() as int)), field.default)
}

/// A field line is no `End Class` line and no `Def` line.
proof fn lemma_field_line(t: Seq<char>)
    requires
        simple_field_line(t),
    ensures
        !eq_ci(t, "end class"@) && !eq_ci(t, "endclass"@),
        !starts_with_ci_spec(t, "def "@),
        starts_with_ci_spec(t, "field "@),
{
    reveal(simple_field_line);
    reveal_strlit("field ");
    reveal_strlit("def ");
    reveal_strlit("end class");
    reveal_strlit("endclass");
    assert(ascii_lower('f') == 'f');
    assert(t.take(6).len() == 6);
    assert(lower_seq(t.take(6))[0] == lower_seq("field "@)[0]);
    assert(lower_seq(t.take(6))[0] == ascii_lower(t.take(6)[0]));
    assert(t.take(6)[0] == t[0]);
    assert(ascii_lower(t[0]) == 'f');
    lemma_first_letter(t, "def "@);
    lemma_first_letter(t, "end class"@);
    lemma_first_letter(t, "endclass"@);
}

#[verifier::rlimit(60)]
fn parse_field_definition(line: &SourceLine) -> (result: Result<FieldDefinition, ParseError>)
    ensures
        result matches Ok(definition) ==> field_declared(line.text@, definition),
        result matches Err(error) ==> error.line == line.number,
        ({
            let text = line.text@;
            let k = "field "@.len() as int;
            let found = starts_with_ci_spec(text, "field "@) && exists|at: int|
                k <= at < text.len() && #[trigger] token_at(text, k, text.len() as int, at, seq!['=']);
            match result {
                Ok(definition) => {
                    &&& starts_with_ci_spec(text, "field "@)
                    &&& exists|at: int|
                        #[trigger] token_at(text, k, text.len() as int, at, seq!['=']) && k <= at
                            && (forall|j: int|
                            k <= j < at ==> !#[trigger] token_at(text, k, text.len() as int, j, seq!['=']))
                            && definition.name@ == trim(text.subrange(k, at))
                    &&& is_identifier_text(definition.name@)
                },
                Err(error) => !found ==> error.line == line.number && error.message@
                    == "expected `Field name = value`"@,
            }
        }),
        simple_field_line(line.text@) ==> (result matches Ok(field) && field_of(line.text@, field)),
{
    let t = &line.text;
    let n = t.len();
    let ghost split = binding_split(t@, 6);
    proof {
        assert(t@.subrange(0, n as int) =~= t@);
        reveal(simple_field_line);
        reveal_strlit("field ");
        if simple_field_line(t@) {
            lemma_binding_token(t@, 6, split, n as int);
        }
    }
    let rest = match strip_prefix_ci(t, 0, n, "field ") {
        Some(rest) => rest,
        None => {
            return Err(err(line.number, "expected `Field name = value`"));
        },
    };
    let equals: Vec<char> = vec!['='];
    assert(equals@ =~= seq!['=']);
    assert(t@.subrange(0, n as int) =~= t@);
    let k = match split_top_level_token(t, rest, n, &equals) {
        Some(k) => k,
        None => {
            return Err(err(line.number, "expected `Field name = value`"));
        },
    };
    proof {
        if simple_field_line(t@) {
            if k < split {
                assert(!token_at(t@, rest as int, n as int, k as int, seq!['=']));
            }
            if k > split {
                assert(!token_at(t@, rest as int, n as int, split, seq!['=']));
            }
            assert(k == split);
        }
    }
    let (ns, ne) = trim_span(t, rest, k);
    validate_identifier(t, ns, ne, line.number)?;
    let (vs, ve) = trim_span(t, k + 1, n);
    proof {
        reveal(word_span);
        if simple_field_line(t@) {
            let w = t@.subrange(vs as int, ve as int);
            lemma_word_facts(w);
            assert(w[0] == t@[vs as int]);
            assert forall|i: int| vs <= i < ve implies is_white_space(#[trigger] t@[i]) || !word_breaking(t@[i]) by {}
            assert(word_span(t@, vs as int, ve as int));
        }
    }
    let default = parse_expression(t, vs, ve, line.number)?;
    assert(token_at(t@, rest as int, n as int, k as int, seq!['=']));
    Ok(FieldDefinition { name: span_string(t, ns, ne), default })
}

/// `Def name(parameters)`: the name and the parameter names, which must differ up to ASCII
/// case.
/// A scan through text with no parenthesis, quote or backslash stays outside every
/// string and parenthesis.
proof fn lemma_scan_plain(s: Seq<char>)
    requires
        forall|i: int| 0 <= i < s.len() ==> #[trigger] s[i] != '(' && s[i] != ')' && s[i] != '"' && s[i] != '\\',
    ensures
        scan_state(s) == (0int, false, false),
    decreases s.len(),
{
    if s.len() > 0 {
        lemma_scan_plain(s.drop_last());
    }
}

/// An argument list with no parenthesis, quote, backslash or comma reads as one argument.
proof fn lemma_argument_scan_plain(u: Seq<char>)
    requires
        forall|i: int|
            0 <= i < u.len() ==> #[trigger] u[i] != '(' && u[i] != ')' && u[i] != '"' && u[i] != '\\' && u[i] != ',',
    ensures
        argument_scan(u) == (0int, false, false, 0int, Seq::<Seq<char>>::empty(), None::<Seq<char>>),
    decreases u.len(),
{
    if u.len() > 0 {
        lemma_argument_scan_plain(u.drop_last());
    }
}

/// The parameter text of a simple `Def` line: blank, or one word that may name a binding.
pub open spec fn parameter_text_ok(p: Seq<char>) -> bool {
    &&& forall|i: int| 0 <= i < p.len() ==> is_white_space(#[trigger] p[i]) || !word_breaking(p[i])
    &&& trim(p).len() == 0 || (is_word(trim(p)) && is_identifier_text(trim(p)) && !reserved_name(trim(p)))
}

/// `u` is `name(parameter)` with the `(` at `o`: the name a word and an identifier, the
/// parameter text as `parameter_text_ok` allows.
pub open spec fn def_open(u: Seq<char>, o: int) -> bool {
    &&& 0 < o
    &&& o + 2 <= u.len()
    &&& is_word(u.take(o))
    &&& is_identifier_text(u.take(o))
    &&& u[o] == '('
    &&& u.last() == ')'
    &&& parameter_text_ok(u.subrange(o + 1, u.len() - 1))
}

/// The text after `Def ` on the line `t`, trimmed.
pub open spec fn def_rest(t: Seq<char>) -> Seq<char> {
    trim(t.subrange("def "@.len() as int, t.len() as int))
}

/// `t` is a simple `Def` line: `Def name()` or `Def name(parameter)`, the name and the
/// parameter each one word (see `def_open`).
#[verifier::opaque]
pub open spec fn simple_def_line(t: Seq<char>) -> bool {
    &&& starts_with_ci_spec(t, "def "@)
    &&& exists|o: int| #[trigger] def_open(def_rest(t), o)
}

/// The name that the simple `Def` line `t` declares.
pub open spec fn def_name(t: Seq<char>) -> Seq<char> {
    let o = choose|o: int| #[trigger] def_open(def_rest(t), o);
    def_rest(t).take(o)
}

/// The parameters that the simple `Def` line `t` declares.
pub open spec fn def_parameters(t: Seq<char>) -> Seq<Seq<char>> {
    let o = choose|o: int| #[trigger] def_open(def_rest(t), o);
    let p = trim(def_rest(t).subrange(o + 1, def_rest(t).len() - 1));
    if p.len() == 0 {
        Seq::empty()
    } else {
        seq![p]
    }
}

/// The parameters of a simple `Def` line: at most one, each an identifier that may name a
/// binding.
pub open spec fn def_parameters_ok(parameters: Seq<Seq<char>>) -> bool {
    &&& parameters.len() <= 1
    &&& forall|j: int|
        0 <= j < parameters.len() ==> is_identifier_text(#[trigger] parameters[j]) && !reserved_name(parameters[j])
}

/// The parameter names at `parts` of `t`: each must be an identifier that may name a
/// binding, and no two may be equal up to ASCII case.
fn parameter_names(t: &Vec<char>, parts: &Vec<(usize, usize)>, line: usize) -> (result: Result<Vec<String>, ParseError>)
    requires
        forall|j: int| 0 <= j < parts@.len() ==> (#[trigger] parts@[j]).0 <= parts@[j].1 <= t@.len(),
    ensures
        match result {
            Ok(parameters) => {
                &&& string_texts(parameters@) == span_texts(t@, parts@)
                &&& forall|i: int|
                    0 <= i < parameters@.len() ==> is_identifier_text((#[trigger] parameters@[i])@)
                        && !reserved_name(parameters@[i]@)
                &&& distinct_names(string_texts(parameters@))
            },
            Err(error) => error.line == line,
        },
        def_parameters_ok(span_texts(t@, parts@)) ==> result is Ok,
{
    let mut parameters: Vec<String> = Vec::new();
    let mut k: usize = 0;
    while k < parts.len()
        invariant
            forall|j: int| 0 <= j < parts@.len() ==> (#[trigger] parts@[j]).0 <= parts@[j].1 <= t@.len(),
            k <= parts@.len(),
            parameters@.len() == k,
            forall|j: int|
                0 <= j < k ==> (#[trigger] parameters@[j])@ == t@.subrange(parts@[j].0 as int, parts@[j].1 as int),
            forall|j: int|
                0 <= j < k ==> is_identifier_text((#[trigger] parameters@[j])@) && !reserved_name(parameters@[j]@),
        decreases parts@.len() - k,
    {
        let (ps, pe) = parts[k];
        proof {
            if def_parameters_ok(span_texts(t@, parts@)) {
                assert(span_texts(t@, parts@)[k as int] == t@.subrange(ps as int, pe as int));
            }
        }
        validate_binding_name(t, ps, pe, line)?;
        parameters.push(span_string(t, ps, pe));
        k += 1;
    }
    assert(string_texts(parameters@) =~= span_texts(t@, parts@));
    let mut i: usize = 0;
    while i < parameters.len()
        invariant
            forall|x: int, y: int|
                0 <= x < y < i ==> !eq_ci(#[trigger] parameters@[x]@, #[trigger] parameters@[y]@),
            forall|j: int|
                0 <= j < parameters@.len() ==> is_identifier_text((#[trigger] parameters@[j])@) && !reserved_name(
                    parameters@[j]@,
                ),
            string_texts(parameters@) == span_texts(t@, parts@),
            def_parameters_ok(span_texts(t@, parts@)) ==> parameters@.len() <= 1,
        decreases parameters@.len() - i,
    {
        let mut j: usize = 0;
        while j < i
            invariant
                i < parameters@.len(),
                j <= i,
                def_parameters_ok(span_texts(t@, parts@)) ==> i == 0,
                forall|x: int| 0 <= x < j ==> !eq_ci(#[trigger] parameters@[x]@, parameters@[i as int]@),
            decreases i - j,
        {
            if names_match(parameters[j].as_str(), parameters[i].as_str()) {
                let mut message = String::from_str("duplicate parameter `");
                message.append(parameters[i].as_str());
                message.append("`");
                return Err(ParseError { line, message });
            }
            j += 1;
        }
        i += 1;
    }
    assert forall|x: int, y: int|
        0 <= x < y < string_texts(parameters@).len() implies !eq_ci(
        #[trigger] string_texts(parameters@)[x],
        #[trigger] string_texts(parameters@)[y],
    ) by {
        assert(string_texts(parameters@)[x] == parameters@[x]@);
        assert(string_texts(parameters@)[y] == parameters@[y]@);
    }
    Ok(parameters)
}

/// What the text after `Def ` on a simple `Def` line, at `ss..se` of `t`, holds: a call
/// whose name and arguments are those the line declares.
proof fn lemma_def_line_call(t: Seq<char>, ss: int, se: int)
    requires
        simple_def_line(t),
        "def "@.len() <= ss <= se <= t.len(),
        t.subrange(ss, se) == def_rest(t),
    ensures
        ({
            let o = choose|o: int| #[trigger] def_open(def_rest(t), o);
            &&& well_formed_call(t, ss, se)
            &&& first_open(t, ss, se, ss + o)
            &&& first_close(t, ss + o + 1, se, se - 1)
            &&& t.subrange(ss, ss + o) == def_name(t)
            &&& trim(t.subrange(ss, ss + o)) == def_name(t)
            &&& argument_texts(t.subrange(ss + o + 1, se - 1)) == Ok::<Seq<Seq<char>>, Seq<char>>(def_parameters(t))
        }),
{
    reveal(simple_def_line);
    let o = choose|o: int| #[trigger] def_open(def_rest(t), o);
    let u = t.subrange(ss, se);
    assert(def_open(u, o));
    let p = u.subrange(o + 1, u.len() - 1);
    let name_text = u.take(o);
    assert forall|k: int| ss <= k < ss + o implies t[k] != '(' by {
        assert(t[k] == name_text[k - ss]);
        assert(!word_breaking(name_text[k - ss]));
    }
    assert(t[ss + o] == u[o]);
    assert(first_open(t, ss, se, ss + o));
    lemma_word_facts(name_text);
    assert(t.subrange(ss, ss + o) =~= name_text);
    let inner = t.subrange(ss + o + 1, se - 1);
    assert(inner =~= p);
    assert forall|i: int| 0 <= i < inner.len() implies #[trigger] inner[i] != '(' && inner[i] != ')' && inner[i]
        != '"' && inner[i] != '\\' by {
        assert(is_white_space(p[i]) || !word_breaking(p[i]));
    }
    lemma_scan_plain(inner);
    assert(t[se - 1] == u.last());
    assert(closes_at(t, ss + o + 1, se - 1));
    assert forall|k: int| ss + o + 1 <= k < se - 1 implies !#[trigger] closes_at(t, ss + o + 1, k) by {
        assert(t[k] == p[k - (ss + o + 1)]);
        assert(is_white_space(p[k - (ss + o + 1)]) || !word_breaking(p[k - (ss + o + 1)]));
    }
    assert(first_close(t, ss + o + 1, se, se - 1));
    assert(t.subrange(se, se) =~= Seq::<char>::empty());
    lemma_trim_empty();
    reveal(well_formed_call);
    assert(well_formed_call(t, ss, se));
    if trim(p).len() != 0 {
        assert forall|i: int| 0 <= i < p.len() implies #[trigger] p[i] != '(' && p[i] != ')' && p[i] != '"' && p[i]
            != '\\' && p[i] != ',' by {
            assert(is_white_space(p[i]) || !word_breaking(p[i]));
        }
        lemma_argument_scan_plain(p);
        assert(p.subrange(0, p.len() as int) =~= p);
    }
}

proof fn lemma_def_parameters(t: Seq<char>)
    requires
        simple_def_line(t),
    ensures
        def_parameters_ok(def_parameters(t)),
{
    reveal(simple_def_line);
    let o = choose|o: int| #[trigger] def_open(def_rest(t), o);
    assert(def_open(def_rest(t), o));
}

#[verifier::rlimit(100)]
#[verifier::spinoff_prover]
fn parse_function_signature(line: &SourceLine) -> (result: Result<(String, Vec<String>), ParseError>)
    ensures
        match result {
            Ok((name, parameters)) => {
                &&& starts_with_ci_spec(line.text@, "def "@)
                &&& is_identifier_text(name@)
                &&& exists|a: int, b: int|
                    #![trigger line.text@.subrange(a, b)]
                    0 <= a <= b <= line.text@.len() && argument_texts(line.text@.subrange(a, b)) == Ok::<
                        Seq<Seq<char>>,
                        Seq<char>,
                    >(string_texts(parameters@))
                &&& forall|i: int|
                    0 <= i < parameters@.len() ==> is_identifier_text((#[trigger] parameters@[i])@)
                        && !reserved_name(parameters@[i]@)
                &&& distinct_names(string_texts(parameters@))
            },
            Err(error) => error.line == line.number,
        },
        simple_def_line(line.text@) ==> (result matches Ok((name, parameters)) && name@ == def_name(line.text@)
            && string_texts(parameters@) == def_parameters(line.text@)),
{
    let t = &line.text;
    let n = t.len();
    assert(t@.subrange(0, n as int) =~= t@);
    proof {
        reveal(simple_def_line);
    }
    let rest = match strip_prefix_ci(t, 0, n, "def ") {
        Some(rest) => rest,
        None => {
            return Err(err(line.number, "expected `Def name(...)`"));
        },
    };
    let (ss, se) = trim_span(t, rest, n);
    let ghost o: int = choose|o: int| #[trigger] def_open(def_rest(t@), o);
    proof {
        if simple_def_line(t@) {
            lemma_def_line_call(t@, ss as int, se as int);
        }
    }
    let (name, a, b) = parse_named_call(t, ss, se, line.number)?;
    proof {
        if simple_def_line(t@) {
            lemma_first_open_unique(t@, ss as int, se as int, a - 1);
            assert(a == ss + o + 1);
            if b < se - 1 {
                assert(!closes_at(t@, ss + o + 1, b as int));
            }
            if b > se - 1 {
                assert(!closes_at(t@, ss + o + 1, se - 1));
            }
            assert(b == se - 1);
        }
    }
    let parts = split_arguments(t, a, b, line.number)?;
    proof {
        if simple_def_line(t@) {
            lemma_def_parameters(t@);
            assert(t@.subrange(a as int, b as int) == t@.subrange(ss + o + 1, se - 1));
            assert(span_texts(t@, parts@) == def_parameters(t@));
        }
    }
    let parameters = parameter_names(t, &parts, line.number)?;
    proof {
        if simple_def_line(t@) {
            assert(def_parameters_ok(span_texts(t@, parts@)));
        }
    }
    Ok((name, parameters))
}

/// The condition of `If <condition> Then`.
fn parse_if_condition(line: &SourceLine) -> (result: Result<Condition, ParseError>)
    ensures
        result matches Err(error) ==> error.line == line.number,
        ({
            let text = line.text@;
            let shaped = starts_with_ci_spec(text, "if "@) && text.len() >= 5 && eq_ci(
                text.subrange(text.len() - 5, text.len() as int),
                " then"@,
            );
            match result {
                Ok(_) => shaped,
                Err(error) => !shaped ==> error.line == line.number && error.message@
                    == "expected `If <condition> Then`"@,
            }
        }),
{
    let t = &line.text;
    let n = t.len();
    assert(t@.subrange(0, n as int) =~= t@);
    let rest = match strip_prefix_ci(t, 0, n, "if ") {
        Some(rest) => rest,
        None => {
            return Err(err(line.number, "expected `If <condition> Then`"));
        },
    };
    if n < 5 || !eq_ci_span(t, n - 5, n, " then") {
        return Err(err(line.number, "expected `If <condition> Then`"));
    }
    let hi = if n - 5 >= rest { n - 5 } else { rest };
    let (s, e) = trim_span(t, rest, hi);
    parse_condition(t, s, e, line.number)
}

/// A name followed by a message such as "duplicate class `name`".
fn duplicate_error(line: usize, kind: &str, name: &str) -> (error: ParseError)
    ensures
        error.line == line,
        error.message@ == "duplicate "@ + kind@ + " `"@ + name@ + "`"@,
{
    let mut message = String::from_str("duplicate ");
    message.append(kind);
    message.append(" `");
    message.append(name);
    message.append("`");
    ParseError { line, message }
}

/// Whether two names are the same up to ASCII case (see `eq_ci`), over a list of names.
pub open spec fn distinct_names(names: Seq<Seq<char>>) -> bool {
    forall|i: int, j: int| 0 <= i < j < names.len() ==> !eq_ci(#[trigger] names[i], #[trigger] names[j])
}

pub open spec fn class_names(classes: Seq<ClassDefinition>) -> Seq<Seq<char>> {
    classes.map_values(|c: ClassDefinition| c.name@)
}

pub open spec fn function_names(functions: Seq<FunctionDefinition>) -> Seq<Seq<char>> {
    functions.map_values(|f: FunctionDefinition| f.name@)
}

pub open spec fn field_names(fields: Seq<FieldDefinition>) -> Seq<Seq<char>> {
    fields.map_values(|f: FieldDefinition| f.name@)
}

/// Index of an entry whose name matches `name` up to ASCII case.
fn find_function(functions: &Vec<FunctionDefinition>, name: &str) -> (found: Option<usize>)
    ensures
        match found {
            Some(i) => i < functions@.len() && eq_ci(functions@[i as int].name@, name@),
            None => forall|i: int| 0 <= i < functions@.len() ==> !eq_ci(#[trigger] functions@[i].name@, name@),
        },
{
    let mut i: usize = 0;
    while i < functions.len()
        invariant
            i <= functions@.len(),
            forall|k: int| 0 <= k < i ==> !eq_ci(#[trigger] functions@[k].name@, name@),
        decreases functions@.len() - i,
    {
        if names_match(functions[i].name.as_str(), name) {
            return Some(i);
        }
        i += 1;
    }
    None
}

fn find_class(classes: &Vec<ClassDefinition>, name: &str) -> (found: Option<usize>)
    ensures
        match found {
            Some(i) => i < classes@.len() && eq_ci(classes@[i as int].name@, name@),
            None => forall|i: int| 0 <= i < classes@.len() ==> !eq_ci(#[trigger] classes@[i].name@, name@),
        },
{
    let mut i: usize = 0;
    while i < classes.len()
        invariant
            i <= classes@.len(),
            forall|k: int| 0 <= k < i ==> !eq_ci(#[trigger] classes@[k].name@, name@),
        decreases classes@.len() - i,
    {
        if names_match(classes[i].name.as_str(), name) {
            return Some(i);
        }
        i += 1;
    }
    None
}

fn find_field(fields: &Vec<FieldDefinition>, name: &str) -> (found: Option<usize>)
    ensures
        match found {
            Some(i) => i < fields@.len() && eq_ci(fields@[i as int].name@, name@),
            None => forall|i: int| 0 <= i < fields@.len() ==> !eq_ci(#[trigger] fields@[i].name@, name@),
        },
{
    let mut i: usize = 0;
    while i < fields.len()
        invariant
            i <= fields@.len(),
            forall|k: int| 0 <= k < i ==> !eq_ci(#[trigger] fields@[k].name@, name@),
        decreases fields@.len() - i,
    {
        if names_match(fields[i].name.as_str(), name) {
            return Some(i);
        }
        i += 1;
    }
    None
}

proof fn lemma_eq_ci_symmetric(a: Seq<char>, b: Seq<char>)
    ensures
        eq_ci(a, b) == eq_ci(b, a),
{
}

/// `text` is the header `Class name [Extends parent]` of a class named `name` with
/// `parent`: after `Class `, trimmed, the text before the first ` Extends ` outside quotes
/// and parentheses is the name and the text after it the parent; without one, the whole
/// trimmed text is the name.
pub open spec fn class_header(text: Seq<char>, name: Seq<char>, parent: Option<Seq<char>>) -> bool {
    let k = "class "@.len() as int;
    let keyword = " extends "@;
    exists|a: int, b: int|
        #[trigger] trimmed_bounds(text, k, text.len() as int, a, b) && match parent {
            Some(p) => exists|i: int|
                #[trigger] crate::rowly_dsl::scan::keyword_at(text, a, b, i, keyword) && a <= i && i + keyword.len()
                    <= b && (forall|j: int|
                    a <= j < i ==> !#[trigger] crate::rowly_dsl::scan::keyword_at(text, a, b, j, keyword)) && name
                    == trim(text.subrange(a, i)) && p == trim(text.subrange(i + keyword.len(), b)),
            None => (forall|j: int| a <= j <= b ==> !#[trigger] crate::rowly_dsl::scan::keyword_at(text, a, b, j, keyword))
                && name == text.subrange(a, b),
        }
}

/// Line `k` is one of `field_lines` or lies in one of `method_spans`.
pub open spec fn line_covered(k: int, field_lines: Seq<int>, method_spans: Seq<(int, int)>) -> bool {
    ||| exists|j: int| 0 <= j < field_lines.len() && #[trigger] field_lines[j] == k
    ||| exists|j: int| 0 <= j < method_spans.len() && (#[trigger] method_spans[j]).0 <= k < method_spans[j].1
}

/// Line `k` declares `field`: `Field name = value`, the name being the trimmed text
/// before the first `=` outside quotes and parentheses.
pub open spec fn declares_field(lines: Seq<SourceLine>, k: int, field: FieldDefinition) -> bool {
    0 <= k < lines.len() && field_declared(lines[k].text@, field)
}

/// Lines `k` up to `next` hold the `Def` block of `method`, closed by `End Def`.
pub open spec fn method_block(lines: Seq<SourceLine>, k: int, method: FunctionDefinition, next: int) -> bool {
    &&& 0 <= k < next <= lines.len()
    &&& starts_with_ci_spec(lines[k].text@, "def "@)
    &&& is_identifier_text(method.name@)
    &&& {
        let last = lines[next - 1].text@;
        eq_ci(last, "end def"@) || eq_ci(last, "enddef"@)
    }
}

/// The lines strictly between `pos` and `end` are, in order, the field lines
/// `field_lines` declaring `fields` and the method blocks `method_spans` holding
/// `methods`, and nothing else.
pub open spec fn class_body(
    lines: Seq<SourceLine>,
    pos: int,
    end: int,
    fields: Seq<FieldDefinition>,
    methods: Seq<FunctionDefinition>,
    field_lines: Seq<int>,
    method_spans: Seq<(int, int)>,
) -> bool {
    &&& field_lines.len() == fields.len()
    &&& method_spans.len() == methods.len()
    &&& forall|j: int|
        0 <= j < field_lines.len() ==> pos < #[trigger] field_lines[j] < end && declares_field(lines, 
            field_lines[j],
            fields[j],
        ) && (j > 0 ==> field_lines[j - 1] < field_lines[j])
    &&& forall|j: int|
        0 <= j < method_spans.len() ==> pos < (#[trigger] method_spans[j]).0 && method_spans[j].1 <= end
            && method_block(lines, method_spans[j].0, methods[j], method_spans[j].1) && (j > 0
            ==> method_spans[j - 1].1 <= method_spans[j].0)
    &&& forall|k: int| pos < k < end ==> #[trigger] line_covered(k, field_lines, method_spans)
}

/// The lines strictly between `pos` and `end` are the declarations of `fields` and
/// `methods`, in order, and nothing else (see `class_body`).
pub open spec fn has_class_body(lines: Seq<SourceLine>, pos: int, end: int, fields: Seq<FieldDefinition>, methods: Seq<FunctionDefinition>) -> bool {
    exists|field_lines: Seq<int>, method_spans: Seq<(int, int)>|
        #[trigger] class_body(lines, pos, end, fields, methods, field_lines, method_spans)
}

proof fn lemma_body_field(
    lines: Seq<SourceLine>,
    pos: int,
    cur: int,
    fields: Seq<FieldDefinition>,
    methods: Seq<FunctionDefinition>,
    field_lines: Seq<int>,
    method_spans: Seq<(int, int)>,
    field: FieldDefinition,
)
    requires
        pos < cur,
        class_body(lines, pos, cur, fields, methods, field_lines, method_spans),
        declares_field(lines, cur, field),
    ensures
        class_body(lines, pos, cur + 1, fields.push(field), methods, field_lines.push(cur), method_spans),
{
    let fl = field_lines.push(cur);
    assert forall|j: int| 0 <= j < fl.len() implies pos < #[trigger] fl[j] < cur + 1 && declares_field(lines, 
        fl[j],
        fields.push(field)[j],
    ) && (j > 0 ==> fl[j - 1] < fl[j]) by {
        if j < field_lines.len() {
            assert(fl[j] == field_lines[j]);
            if j > 0 {
                assert(fl[j - 1] == field_lines[j - 1]);
            }
        } else if j > 0 {
            assert(fl[j - 1] == field_lines[j - 1]);
        }
    }
    assert forall|k: int| pos < k < cur + 1 implies #[trigger] line_covered(k, fl, method_spans) by {
        if k == cur {
            assert(fl[field_lines.len() as int] == k);
        } else {
            assert(line_covered(k, field_lines, method_spans));
            if exists|j: int| 0 <= j < field_lines.len() && #[trigger] field_lines[j] == k {
                let j = choose|j: int| 0 <= j < field_lines.len() && #[trigger] field_lines[j] == k;
                assert(fl[j] == k);
            }
        }
    }
}

proof fn lemma_body_method(
    lines: Seq<SourceLine>,
    pos: int,
    cur: int,
    fields: Seq<FieldDefinition>,
    methods: Seq<FunctionDefinition>,
    field_lines: Seq<int>,
    method_spans: Seq<(int, int)>,
    method: FunctionDefinition,
    next: int,
)
    requires
        pos < cur < next,
        class_body(lines, pos, cur, fields, methods, field_lines, method_spans),
        method_block(lines, cur, method, next),
    ensures
        class_body(lines, pos, next, fields, methods.push(method), field_lines, method_spans.push((cur, next))),
{
    let ms = method_spans.push((cur, next));
    assert forall|j: int| 0 <= j < ms.len() implies pos < (#[trigger] ms[j]).0 && ms[j].1 <= next
        && method_block(lines, ms[j].0, methods.push(method)[j], ms[j].1) && (j > 0 ==> ms[j - 1].1 <= ms[j].0) by {
        if j < method_spans.len() {
            assert(ms[j] == method_spans[j]);
            if j > 0 {
                assert(ms[j - 1] == method_spans[j - 1]);
            }
        } else if j > 0 {
            assert(ms[j - 1] == method_spans[j - 1]);
        }
    }
    assert forall|j: int| 0 <= j < field_lines.len() implies pos < #[trigger] field_lines[j] < next && declares_field(lines, 
        field_lines[j],
        fields[j],
    ) && (j > 0 ==> field_lines[j - 1] < field_lines[j]) by {}
    assert forall|k: int| pos < k < next implies #[trigger] line_covered(k, field_lines, ms) by {
        if k >= cur {
            assert(ms[method_spans.len() as int] == (cur, next));
        } else {
            assert(line_covered(k, field_lines, method_spans));
            if exists|j: int| 0 <= j < method_spans.len() && (#[trigger] method_spans[j]).0 <= k < method_spans[j].1 {
                let j = choose|j: int| 0 <= j < method_spans.len() && (#[trigger] method_spans[j]).0 <= k < method_spans[j].1;
                assert(ms[j] == method_spans[j]);
            }
        }
    }
}

/// Line `pos` is `Class name` with no `Extends`, and the next line closes the class.
pub open spec fn empty_class_at(lines: Seq<SourceLine>, pos: usize) -> bool {
    let text = lines[pos as int].text@;
    let k = "class "@.len() as int;
    &&& starts_with_ci_spec(text, "class "@)
    &&& forall|a: int, b: int|
        #[trigger] trimmed_bounds(text, k, text.len() as int, a, b) ==> is_identifier_text(
            text.subrange(a, b),
        ) && forall|j: int| a <= j <= b ==> !#[trigger] crate::rowly_dsl::scan::keyword_at(text, a, b, j, " extends "@)
    &&& pos + 1 < lines.len()
    &&& {
        let last = lines[pos + 1].text@;
        eq_ci(last, "end class"@) || eq_ci(last, "endclass"@)
    }
}


/// The parent's name of a class as text.
pub open spec fn parent_view(parent: Option<String>) -> Option<Seq<char>> {
    match parent {
        Some(p) => Some(p@),
        None => None,
    }
}

/// Lines `k` up to `next` hold the block of `class`: its header, its fields and methods
/// (see `has_class_body`) and its `End Class`.
pub open spec fn class_block(lines: Seq<SourceLine>, k: int, class: ClassDefinition, next: int) -> bool {
    &&& 0 <= k < next <= lines.len()
    &&& starts_with_ci_spec(lines[k].text@, "class "@)
    &&& class_header(lines[k].text@, class.name@, parent_view(class.parent))
    &&& has_class_body(lines, k, next - 1, class.fields@, class.methods@)
    &&& {
        let last = lines[next - 1].text@;
        eq_ci(last, "end class"@) || eq_ci(last, "endclass"@)
    }
}

/// Lines `k` up to `next` hold `statement`: an `If` block from an `If ` line, a `For`
/// block from a `For ` line, or else the one line `k`, which opens no definition.
pub open spec fn statement_block(lines: Seq<SourceLine>, k: int, statement: Statement, next: int) -> bool {
    let t = lines[k].text@;
    let opens_if = starts_with_ci_spec(t, "if "@);
    let opens_for = !opens_if && starts_with_ci_spec(t, "for "@);
    &&& 0 <= k < next <= lines.len()
    &&& match statement {
        Statement::If { .. } => opens_if,
        Statement::For { .. } => opens_for,
        _ => !opens_if && !opens_for && next == k + 1 && !starts_with_ci_spec(t, "def "@) && !starts_with_ci_spec(
            t,
            "class "@,
        ),
    }
}

/// Line `k` lies in one of the spans.
pub open spec fn in_spans(k: int, spans: Seq<(int, int)>) -> bool {
    exists|j: int| 0 <= j < spans.len() && (#[trigger] spans[j]).0 <= k < spans[j].1
}

/// The spans follow one another in order.
pub open spec fn spans_ordered(spans: Seq<(int, int)>) -> bool {
    forall|j: int| 0 < j < spans.len() ==> (#[trigger] spans[j]).0 >= spans[j - 1].1
}

/// The lines before `end` are, in order, the class blocks `class_spans` of `classes`, the
/// `Def` blocks `function_spans` of `functions` and the statement blocks
/// `statement_spans` of `statements`, and nothing else.
pub open spec fn program_spans(
    lines: Seq<SourceLine>,
    classes: Seq<ClassDefinition>,
    functions: Seq<FunctionDefinition>,
    statements: Seq<Statement>,
    class_spans: Seq<(int, int)>,
    function_spans: Seq<(int, int)>,
    statement_spans: Seq<(int, int)>,
    end: int,
) -> bool {
    &&& class_spans.len() == classes.len()
    &&& function_spans.len() == functions.len()
    &&& statement_spans.len() == statements.len()
    &&& spans_ordered(class_spans)
    &&& spans_ordered(function_spans)
    &&& spans_ordered(statement_spans)
    &&& forall|j: int|
        0 <= j < class_spans.len() ==> (#[trigger] class_spans[j]).1 <= end && class_block(
            lines,
            class_spans[j].0,
            classes[j],
            class_spans[j].1,
        )
    &&& forall|j: int|
        0 <= j < function_spans.len() ==> (#[trigger] function_spans[j]).1 <= end && method_block(
            lines,
            function_spans[j].0,
            functions[j],
            function_spans[j].1,
        )
    &&& forall|j: int|
        0 <= j < statement_spans.len() ==> (#[trigger] statement_spans[j]).1 <= end && statement_block(
            lines,
            statement_spans[j].0,
            statements[j],
            statement_spans[j].1,
        )
    &&& forall|k: int|
        0 <= k < end ==> #[trigger] in_spans(k, class_spans) || in_spans(k, function_spans) || in_spans(
            k,
            statement_spans,
        )
}

/// The program's classes, functions and top-level statements are those declared, in
/// order, by the blocks that make up `lines` (see `program_spans`).
pub open spec fn program_layout(lines: Seq<SourceLine>, program: Program) -> bool {
    exists|class_spans: Seq<(int, int)>, function_spans: Seq<(int, int)>, statement_spans: Seq<(int, int)>|
        #[trigger] program_spans(
            lines,
            program.classes@,
            program.functions@,
            program.statements@,
            class_spans,
            function_spans,
            statement_spans,
            lines.len() as int,
        )
}

/// A block at `cur` up to `next` extends the layout of the lines before `cur`.
proof fn lemma_spans_push(spans: Seq<(int, int)>, cur: int, next: int, end: int)
    requires
        spans_ordered(spans),
        forall|j: int| 0 <= j < spans.len() ==> (#[trigger] spans[j]).1 <= end,
        end <= cur < next,
    ensures
        spans_ordered(spans.push((cur, next))),
        forall|j: int| 0 <= j < spans.len() + 1 ==> (#[trigger] spans.push((cur, next))[j]).1 <= next,
        forall|k: int| in_spans(k, spans) ==> in_spans(k, spans.push((cur, next))),
        forall|k: int| cur <= k < next ==> in_spans(k, spans.push((cur, next))),
{
    let pushed = spans.push((cur, next));
    assert forall|j: int| 0 < j < pushed.len() implies (#[trigger] pushed[j]).0 >= pushed[j - 1].1 by {
        if j < spans.len() {
            assert(pushed[j] == spans[j]);
        }
        assert(pushed[j - 1] == spans[j - 1]);
    }
    assert forall|j: int| 0 <= j < spans.len() + 1 implies (#[trigger] pushed[j]).1 <= next by {
        if j < spans.len() {
            assert(pushed[j] == spans[j]);
        }
    }
    assert forall|k: int| in_spans(k, spans) implies in_spans(k, pushed) by {
        let j = choose|j: int| 0 <= j < spans.len() && (#[trigger] spans[j]).0 <= k < spans[j].1;
        assert(pushed[j] == spans[j]);
    }
    assert forall|k: int| cur <= k < next implies in_spans(k, pushed) by {
        assert(pushed[spans.len() as int] == (cur, next));
    }
}

/// One more class block at `cur` extends the layout of the lines before `cur`.
proof fn lemma_program_push_class(
    lines: Seq<SourceLine>,
    classes: Seq<ClassDefinition>,
    functions: Seq<FunctionDefinition>,
    statements: Seq<Statement>,
    class_spans: Seq<(int, int)>,
    function_spans: Seq<(int, int)>,
    statement_spans: Seq<(int, int)>,
    cur: int,
    item: ClassDefinition,
    next: int,
)
    requires
        program_spans(lines, classes, functions, statements, class_spans, function_spans, statement_spans, cur),
        class_block(lines, cur, item, next),
        cur < next,
    ensures
        program_spans(lines, classes.push(item), functions, statements, class_spans.push((cur, next)), function_spans, statement_spans, next),
{
    lemma_spans_push(class_spans, cur, next, cur);
    let items = classes.push(item);
    let spans = class_spans.push((cur, next));
    assert forall|j: int| 0 <= j < spans.len() implies (#[trigger] spans[j]).1 <= next && class_block(
        lines,
        spans[j].0,
        items[j],
        spans[j].1,
    ) by {
        if j < class_spans.len() {
            assert(spans[j] == class_spans[j]);
            assert(items[j] == classes[j]);
        } else {
            assert(spans[j] == (cur, next));
            assert(items[j] == item);
        }
    }
    assert forall|j: int| 0 <= j < function_spans.len() implies (#[trigger] function_spans[j]).1 <= next by {}
    assert forall|j: int| 0 <= j < statement_spans.len() implies (#[trigger] statement_spans[j]).1 <= next by {}
    assert forall|k: int| 0 <= k < next implies #[trigger] in_spans(k, spans) || in_spans(
        k,
        function_spans,
    ) || in_spans(k, statement_spans) by {
        if k < cur {
            assert(in_spans(k, class_spans) || in_spans(k, function_spans) || in_spans(k, statement_spans));
        }
    }
}

/// One more function block at `cur` extends the layout of the lines before `cur`.
proof fn lemma_program_push_function(
    lines: Seq<SourceLine>,
    classes: Seq<ClassDefinition>,
    functions: Seq<FunctionDefinition>,
    statements: Seq<Statement>,
    class_spans: Seq<(int, int)>,
    function_spans: Seq<(int, int)>,
    statement_spans: Seq<(int, int)>,
    cur: int,
    item: FunctionDefinition,
    next: int,
)
    requires
        program_spans(lines, classes, functions, statements, class_spans, function_spans, statement_spans, cur),
        method_block(lines, cur, item, next),
        cur < next,
    ensures
        program_spans(lines, classes, functions.push(item), statements, class_spans, function_spans.push((cur, next)), statement_spans, next),
{
    lemma_spans_push(function_spans, cur, next, cur);
    let items = functions.push(item);
    let spans = function_spans.push((cur, next));
    assert forall|j: int| 0 <= j < spans.len() implies (#[trigger] spans[j]).1 <= next && method_block(
        lines,
        spans[j].0,
        items[j],
        spans[j].1,
    ) by {
        if j < function_spans.len() {
            assert(spans[j] == function_spans[j]);
            assert(items[j] == functions[j]);
        } else {
            assert(spans[j] == (cur, next));
            assert(items[j] == item);
        }
    }
    assert forall|j: int| 0 <= j < class_spans.len() implies (#[trigger] class_spans[j]).1 <= next by {}
    assert forall|j: int| 0 <= j < statement_spans.len() implies (#[trigger] statement_spans[j]).1 <= next by {}
    assert forall|k: int| 0 <= k < next implies #[trigger] in_spans(k, class_spans) || in_spans(
        k,
        spans,
    ) || in_spans(k, statement_spans) by {
        if k < cur {
            assert(in_spans(k, class_spans) || in_spans(k, function_spans) || in_spans(k, statement_spans));
        }
    }
}

/// One more statement block at `cur` extends the layout of the lines before `cur`.
proof fn lemma_program_push_statement(
    lines: Seq<SourceLine>,
    classes: Seq<ClassDefinition>,
    functions: Seq<FunctionDefinition>,
    statements: Seq<Statement>,
    class_spans: Seq<(int, int)>,
    function_spans: Seq<(int, int)>,
    statement_spans: Seq<(int, int)>,
    cur: int,
    item: Statement,
    next: int,
)
    requires
        program_spans(lines, classes, functions, statements, class_spans, function_spans, statement_spans, cur),
        statement_block(lines, cur, item, next),
        cur < next,
    ensures
        program_spans(lines, classes, functions, statements.push(item), class_spans, function_spans, statement_spans.push((cur, next)), next),
{
    lemma_spans_push(statement_spans, cur, next, cur);
    let items = statements.push(item);
    let spans = statement_spans.push((cur, next));
    assert forall|j: int| 0 <= j < spans.len() implies (#[trigger] spans[j]).1 <= next && statement_block(
        lines,
        spans[j].0,
        items[j],
        spans[j].1,
    ) by {
        if j < statement_spans.len() {
            assert(spans[j] == statement_spans[j]);
            assert(items[j] == statements[j]);
        } else {
            assert(spans[j] == (cur, next));
            assert(items[j] == item);
        }
    }
    assert forall|j: int| 0 <= j < class_spans.len() implies (#[trigger] class_spans[j]).1 <= next by {}
    assert forall|j: int| 0 <= j < function_spans.len() implies (#[trigger] function_spans[j]).1 <= next by {}
    assert forall|k: int| 0 <= k < next implies #[trigger] in_spans(k, class_spans) || in_spans(
        k,
        function_spans,
    ) || in_spans(k, spans) by {
        if k < cur {
            assert(in_spans(k, class_spans) || in_spans(k, function_spans) || in_spans(k, statement_spans));
        }
    }
}

/// A line that closes a `Def` block.
pub open spec fn closes_def(text: Seq<char>) -> bool {
    eq_ci(text, "end def"@) || eq_ci(text, "enddef"@)
}

/// Lines `from` up to `to` are all simple lines (see `simple_line`).
pub open spec fn simple_lines(lines: Seq<SourceLine>, from: int, to: int) -> bool {
    forall|k: int| from <= k < to ==> simple_line(#[trigger] lines[k].text@)
}

/// `statements` are what the lines from `from` on read as, one statement each (see
/// `simple_statement_of`).
pub open spec fn simple_statements_read(lines: Seq<SourceLine>, from: int, statements: Seq<Statement>) -> bool {
    forall|j: int|
        0 <= j < statements.len() ==> simple_statement_of(lines[from + j].text@, #[trigger] statements[j])
}

/// The first line at or after `from` that closes a `Def` block; the number of lines when
/// none does.
pub open spec fn first_def_close(lines: Seq<(int, Seq<char>)>, from: int) -> int
    decreases lines.len() - from,
{
    if from < 0 || from >= lines.len() {
        lines.len() as int
    } else if closes_def(lines[from].1) {
        from
    } else {
        first_def_close(lines, from + 1)
    }
}

pub proof fn lemma_first_def_close(lines: Seq<(int, Seq<char>)>, from: int)
    requires
        0 <= from <= lines.len(),
    ensures
        from <= first_def_close(lines, from) <= lines.len(),
        first_def_close(lines, from) < lines.len() ==> closes_def(lines[first_def_close(lines, from)].1),
        forall|k: int| from <= k < first_def_close(lines, from) ==> !closes_def(#[trigger] lines[k].1),
    decreases lines.len() - from,
{
    if from < lines.len() && !closes_def(lines[from].1) {
        lemma_first_def_close(lines, from + 1);
    }
}

/// Lines `from` up to `to` of the numbered lines are all simple lines (see `simple_line`).
pub open spec fn simple_between(lines: Seq<(int, Seq<char>)>, from: int, to: int) -> bool {
    forall|k: int| from <= k < to ==> simple_line(#[trigger] lines[k].1)
}

/// From `pos` on, the numbered lines are simple lines (see `simple_line`), simple `Def`
/// blocks (a simple `Def` line, see `simple_def_line`, simple lines, and the `End Def` that
/// closes it) and simple class blocks (a `Class name` line, see `simple_class_header`, then
/// field lines and simple `Def` blocks up to `End Class`, see `class_body_close`, no two
/// fields and no two methods of the same name).
pub open spec fn simple_blocks(lines: Seq<(int, Seq<char>)>, pos: int) -> bool
    decreases lines.len() - pos,
{
    if pos < 0 || pos >= lines.len() {
        true
    } else if simple_line(lines[pos].1) {
        simple_blocks(lines, pos + 1)
    } else if simple_def_line(lines[pos].1) {
        proof {
            lemma_first_def_close(lines, pos + 1);
        }
        let e = first_def_close(lines, pos + 1);
        e < lines.len() && simple_between(lines, pos + 1, e) && simple_blocks(lines, e + 1)
    } else if simple_class_header(lines[pos].1) {
        proof {
            lemma_class_body_close(lines, pos + 1);
        }
        match class_body_close(lines, pos + 1) {
            Some(end) => distinct_names(class_field_names(lines, pos + 1)) && distinct_names(class_method_names(lines, pos + 1)) && simple_blocks(lines, end + 1),
            None => false,
        }
    } else {
        false
    }
}

/// The names of the simple `Def` blocks from `pos` on, in order (see `simple_blocks`).
pub open spec fn simple_def_names(lines: Seq<(int, Seq<char>)>, pos: int) -> Seq<Seq<char>>
    decreases lines.len() - pos,
{
    if pos < 0 || pos >= lines.len() {
        Seq::empty()
    } else if simple_line(lines[pos].1) {
        simple_def_names(lines, pos + 1)
    } else if simple_def_line(lines[pos].1) {
        proof {
            lemma_first_def_close(lines, pos + 1);
        }
        let e = first_def_close(lines, pos + 1);
        if e < lines.len() {
            seq![def_name(lines[pos].1)] + simple_def_names(lines, e + 1)
        } else {
            Seq::empty()
        }
    } else if simple_class_header(lines[pos].1) {
        proof {
            lemma_class_body_close(lines, pos + 1);
        }
        match class_body_close(lines, pos + 1) {
            Some(end) => simple_def_names(lines, end + 1),
            None => Seq::empty(),
        }
    } else {
        Seq::empty()
    }
}

/// The places of the `Def` lines of the simple `Def` blocks from `pos` on (see
/// `simple_blocks`).
pub open spec fn simple_def_lines(lines: Seq<(int, Seq<char>)>, pos: int) -> Seq<int>
    decreases lines.len() - pos,
{
    if pos < 0 || pos >= lines.len() {
        Seq::empty()
    } else if simple_line(lines[pos].1) {
        simple_def_lines(lines, pos + 1)
    } else if simple_def_line(lines[pos].1) {
        proof {
            lemma_first_def_close(lines, pos + 1);
        }
        let e = first_def_close(lines, pos + 1);
        if e < lines.len() {
            seq![pos] + simple_def_lines(lines, e + 1)
        } else {
            Seq::empty()
        }
    } else if simple_class_header(lines[pos].1) {
        proof {
            lemma_class_body_close(lines, pos + 1);
        }
        match class_body_close(lines, pos + 1) {
            Some(end) => simple_def_lines(lines, end + 1),
            None => Seq::empty(),
        }
    } else {
        Seq::empty()
    }
}

/// The places of the simple lines from `pos` on that stand outside every `Def` block (see
/// `simple_blocks`).
pub open spec fn simple_top_lines(lines: Seq<(int, Seq<char>)>, pos: int) -> Seq<int>
    decreases lines.len() - pos,
{
    if pos < 0 || pos >= lines.len() {
        Seq::empty()
    } else if simple_line(lines[pos].1) {
        seq![pos] + simple_top_lines(lines, pos + 1)
    } else if simple_def_line(lines[pos].1) {
        proof {
            lemma_first_def_close(lines, pos + 1);
        }
        let e = first_def_close(lines, pos + 1);
        if e < lines.len() {
            simple_top_lines(lines, e + 1)
        } else {
            Seq::empty()
        }
    } else if simple_class_header(lines[pos].1) {
        proof {
            lemma_class_body_close(lines, pos + 1);
        }
        match class_body_close(lines, pos + 1) {
            Some(end) => simple_top_lines(lines, end + 1),
            None => Seq::empty(),
        }
    } else {
        Seq::empty()
    }
}

/// `statements` are what the numbered lines from `from` on read as, one each (see
/// `simple_statement_of`).
pub open spec fn statements_from(lines: Seq<(int, Seq<char>)>, from: int, statements: Seq<Statement>) -> bool {
    forall|j: int| 0 <= j < statements.len() ==> simple_statement_of(lines[from + j].1, #[trigger] statements[j])
}

/// `function` is the function the simple `Def` block at `d` declares: its name and
/// parameters those of the `Def` line, its body the simple lines up to the `End Def`.
pub open spec fn declared_function(lines: Seq<(int, Seq<char>)>, d: int, function: FunctionDefinition) -> bool {
    &&& function.name@ == def_name(lines[d].1)
    &&& string_texts(function.parameters@) == def_parameters(lines[d].1)
    &&& function.body@.len() == first_def_close(lines, d + 1) - d - 1
    &&& statements_from(lines, d + 1, function.body@)
}

/// The program that the numbered lines make when they are simple blocks (see
/// `simple_blocks`): a class for each simple class block, a function for each simple `Def`
/// block and a statement for each simple line outside them, each in order.
pub open spec fn simple_program(lines: Seq<(int, Seq<char>)>, program: Program) -> bool {
    let defs = simple_def_lines(lines, 0);
    let tops = simple_top_lines(lines, 0);
    let classes = simple_class_lines(lines, 0);
    &&& program.classes@.len() == classes.len()
    &&& forall|j: int| 0 <= j < classes.len() ==> declared_class(lines, classes[j], #[trigger] program.classes@[j])
    &&& program.functions@.len() == defs.len()
    &&& forall|j: int| 0 <= j < defs.len() ==> declared_function(lines, defs[j], #[trigger] program.functions@[j])
    &&& program.statements@.len() == tops.len()
    &&& forall|j: int|
        0 <= j < tops.len() ==> simple_statement_of(lines[tops[j]].1, #[trigger] program.statements@[j])
}

/// Where the numbered lines from `pos` on are simple lines and simple `Def` blocks (see
/// `simple_blocks`) followed by a simple `Def` line that no `End Def` closes, with only
/// simple lines after it: the place of that `Def` line.
pub open spec fn unclosed_def(lines: Seq<(int, Seq<char>)>, pos: int) -> Option<int>
    decreases lines.len() - pos,
{
    if pos < 0 || pos >= lines.len() {
        None
    } else if simple_line(lines[pos].1) {
        unclosed_def(lines, pos + 1)
    } else if simple_def_line(lines[pos].1) {
        proof {
            lemma_first_def_close(lines, pos + 1);
        }
        let e = first_def_close(lines, pos + 1);
        if e < lines.len() {
            if simple_between(lines, pos + 1, e) {
                unclosed_def(lines, e + 1)
            } else {
                None
            }
        } else if simple_between(lines, pos + 1, lines.len() as int) {
            Some(pos)
        } else {
            None
        }
    } else if simple_class_header(lines[pos].1) {
        proof {
            lemma_class_body_close(lines, pos + 1);
        }
        match class_body_close(lines, pos + 1) {
            Some(end) => if distinct_names(class_field_names(lines, pos + 1)) && distinct_names(class_method_names(lines, pos + 1)) { unclosed_def(lines, end + 1) } else { None },
            None => None,
        }
    } else {
        None
    }
}

/// Where `unclosed_def` finds a `Def` line, it lies at or after `pos`.
pub proof fn lemma_unclosed_def(lines: Seq<(int, Seq<char>)>, pos: int)
    requires
        0 <= pos,
    ensures
        unclosed_def(lines, pos) matches Some(k) ==> pos <= k < lines.len(),
    decreases lines.len() - pos,
{
    if pos < lines.len() {
        if simple_line(lines[pos].1) {
            lemma_unclosed_def(lines, pos + 1);
        } else if simple_def_line(lines[pos].1) {
            lemma_first_def_close(lines, pos + 1);
            let e = first_def_close(lines, pos + 1);
            if e < lines.len() {
                lemma_unclosed_def(lines, e + 1);
            }
        } else if simple_class_header(lines[pos].1) {
            lemma_class_body_close(lines, pos + 1);
            if class_body_close(lines, pos + 1) is Some {
                lemma_unclosed_def(lines, class_body_close(lines, pos + 1)->Some_0 + 1);
            }
        }
    }
}

/// A simple `Def` line is no `Class` line.
proof fn lemma_def_line(t: Seq<char>)
    requires
        simple_def_line(t),
    ensures
        !starts_with_ci_spec(t, "class "@),
        starts_with_ci_spec(t, "def "@),
        !eq_ci(t, "end if"@) && !eq_ci(t, "endif"@) && !eq_ci(t, "end def"@) && !eq_ci(t, "enddef"@),
        !eq_ci(t, "end class"@) && !eq_ci(t, "endclass"@) && !eq_ci(t, "else"@),
        !starts_with_ci_spec(t, "field "@),
{
    reveal(simple_def_line);
    reveal_strlit("field ");
    reveal_strlit("def ");
    reveal_strlit("class ");
    reveal_strlit("end if");
    reveal_strlit("endif");
    reveal_strlit("end def");
    reveal_strlit("enddef");
    reveal_strlit("end class");
    reveal_strlit("endclass");
    reveal_strlit("else");
    assert("def "@[0] == 'd');
    assert(ascii_lower('d') == 'd');
    assert(t.take(4).len() == 4);
    assert(lower_seq(t.take(4))[0] == lower_seq("def "@)[0]);
    assert(lower_seq(t.take(4))[0] == ascii_lower(t.take(4)[0]));
    assert(t.take(4)[0] == t[0]);
    assert(ascii_lower(t[0]) == 'd');
    lemma_first_letter(t, "class "@);
    lemma_first_letter(t, "end if"@);
    lemma_first_letter(t, "endif"@);
    lemma_first_letter(t, "end def"@);
    lemma_first_letter(t, "enddef"@);
    lemma_first_letter(t, "end class"@);
    lemma_first_letter(t, "endclass"@);
    lemma_first_letter(t, "else"@);
    lemma_first_letter(t, "field "@);
}

/// A line that closes a `Class` block.
pub open spec fn closes_class(text: Seq<char>) -> bool {
    eq_ci(text, "end class"@) || eq_ci(text, "endclass"@)
}

/// `t` is `Class name`, the name an identifier, with no `Extends`.
pub open spec fn simple_class_header(t: Seq<char>) -> bool {
    let k = "class "@.len() as int;
    &&& starts_with_ci_spec(t, "class "@)
    &&& forall|a: int, b: int|
        #[trigger] trimmed_bounds(t, k, t.len() as int, a, b) ==> is_identifier_text(t.subrange(a, b)) && forall|j: int|
            a <= j <= b ==> !#[trigger] crate::rowly_dsl::scan::keyword_at(t, a, b, j, " extends "@)
}

/// The name a field line declares (see `simple_field_line`).
pub open spec fn field_line_name(t: Seq<char>) -> Seq<char> {
    trim(t.subrange("field "@.len() as int, binding_split(t, "field "@.len() as int)))
}

/// From `pos` on, field lines (see `simple_field_line`) and simple `Def` blocks up to an
/// `End Class` line: the place of that line.
pub open spec fn class_body_close(lines: Seq<(int, Seq<char>)>, pos: int) -> Option<int>
    decreases lines.len() - pos,
{
    if pos < 0 || pos >= lines.len() {
        None
    } else if closes_class(lines[pos].1) {
        Some(pos)
    } else if simple_field_line(lines[pos].1) {
        class_body_close(lines, pos + 1)
    } else if simple_def_line(lines[pos].1) {
        proof {
            lemma_first_def_close(lines, pos + 1);
        }
        let e = first_def_close(lines, pos + 1);
        if e < lines.len() && simple_between(lines, pos + 1, e) {
            class_body_close(lines, e + 1)
        } else {
            None
        }
    } else {
        None
    }
}

/// The names of the fields, in order, of a class body from `pos` on (see
/// `class_body_close`).
pub open spec fn class_field_names(lines: Seq<(int, Seq<char>)>, pos: int) -> Seq<Seq<char>>
    decreases lines.len() - pos,
{
    if pos < 0 || pos >= lines.len() || closes_class(lines[pos].1) {
        Seq::empty()
    } else if simple_field_line(lines[pos].1) {
        seq![field_line_name(lines[pos].1)] + class_field_names(lines, pos + 1)
    } else if simple_def_line(lines[pos].1) {
        proof {
            lemma_first_def_close(lines, pos + 1);
        }
        let e = first_def_close(lines, pos + 1);
        if e < lines.len() {
            class_field_names(lines, e + 1)
        } else {
            Seq::empty()
        }
    } else {
        Seq::empty()
    }
}

/// The names of the methods, in order, of a class body from `pos` on (see
/// `class_body_close`).
pub open spec fn class_method_names(lines: Seq<(int, Seq<char>)>, pos: int) -> Seq<Seq<char>>
    decreases lines.len() - pos,
{
    if pos < 0 || pos >= lines.len() || closes_class(lines[pos].1) {
        Seq::empty()
    } else if simple_field_line(lines[pos].1) {
        class_method_names(lines, pos + 1)
    } else if simple_def_line(lines[pos].1) {
        proof {
            lemma_first_def_close(lines, pos + 1);
        }
        let e = first_def_close(lines, pos + 1);
        if e < lines.len() {
            seq![def_name(lines[pos].1)] + class_method_names(lines, e + 1)
        } else {
            Seq::empty()
        }
    } else {
        Seq::empty()
    }
}

/// Where `class_body_close` finds the `End Class`, it lies at or after `pos`.
/// The places of the field lines of the simple class body from `pos` on (see
/// `class_field_names`).
pub open spec fn class_field_lines(lines: Seq<(int, Seq<char>)>, pos: int) -> Seq<int>
    decreases lines.len() - pos,
{
    if pos < 0 || pos >= lines.len() || closes_class(lines[pos].1) {
        Seq::empty()
    } else if simple_field_line(lines[pos].1) {
        seq![pos] + class_field_lines(lines, pos + 1)
    } else if simple_def_line(lines[pos].1) {
        proof {
            lemma_first_def_close(lines, pos + 1);
        }
        let e = first_def_close(lines, pos + 1);
        if e < lines.len() {
            class_field_lines(lines, e + 1)
        } else {
            Seq::empty()
        }
    } else {
        Seq::empty()
    }
}

/// The places of the `Def` lines of the methods of the simple class body from `pos` on
/// (see `class_method_names`).
pub open spec fn class_method_lines(lines: Seq<(int, Seq<char>)>, pos: int) -> Seq<int>
    decreases lines.len() - pos,
{
    if pos < 0 || pos >= lines.len() || closes_class(lines[pos].1) {
        Seq::empty()
    } else if simple_field_line(lines[pos].1) {
        class_method_lines(lines, pos + 1)
    } else if simple_def_line(lines[pos].1) {
        proof {
            lemma_first_def_close(lines, pos + 1);
        }
        let e = first_def_close(lines, pos + 1);
        if e < lines.len() {
            seq![pos] + class_method_lines(lines, e + 1)
        } else {
            Seq::empty()
        }
    } else {
        Seq::empty()
    }
}

pub proof fn lemma_class_body_close(lines: Seq<(int, Seq<char>)>, pos: int)
    requires
        0 <= pos,
    ensures
        class_body_close(lines, pos) matches Some(end) ==> pos <= end < lines.len(),
    decreases lines.len() - pos,
{
    if pos < lines.len() && !closes_class(lines[pos].1) {
        if simple_field_line(lines[pos].1) {
            lemma_class_body_close(lines, pos + 1);
        } else if simple_def_line(lines[pos].1) {
            lemma_first_def_close(lines, pos + 1);
            let e = first_def_close(lines, pos + 1);
            if e < lines.len() {
                lemma_class_body_close(lines, e + 1);
            }
        }
    }
}

/// The places of the `Class` lines of the simple class blocks from `pos` on (see
/// `simple_blocks`).
pub open spec fn simple_class_lines(lines: Seq<(int, Seq<char>)>, pos: int) -> Seq<int>
    decreases lines.len() - pos,
{
    if pos < 0 || pos >= lines.len() {
        Seq::empty()
    } else if simple_line(lines[pos].1) {
        simple_class_lines(lines, pos + 1)
    } else if simple_def_line(lines[pos].1) {
        proof {
            lemma_first_def_close(lines, pos + 1);
        }
        let e = first_def_close(lines, pos + 1);
        if e < lines.len() {
            simple_class_lines(lines, e + 1)
        } else {
            Seq::empty()
        }
    } else if simple_class_header(lines[pos].1) {
        proof {
            lemma_class_body_close(lines, pos + 1);
        }
        match class_body_close(lines, pos + 1) {
            Some(end) => seq![pos] + simple_class_lines(lines, end + 1),
            None => Seq::empty(),
        }
    } else {
        Seq::empty()
    }
}

/// The names of the simple class blocks, in order (see `simple_class_lines`).
pub open spec fn simple_class_names(lines: Seq<(int, Seq<char>)>) -> Seq<Seq<char>> {
    simple_class_lines(lines, 0).map_values(|c: int| class_line_name(lines[c].1))
}

/// The name a simple `Class` line declares.
pub open spec fn class_line_name(t: Seq<char>) -> Seq<char> {
    trim(t.subrange("class "@.len() as int, t.len() as int))
}

/// `class` is the class the simple class block at `c` declares (see `class_body_close`):
/// its name, no parent, a field for each field line (see `field_of`) and a method for each
/// simple `Def` block (see `declared_function`), in order.
pub open spec fn declared_class(lines: Seq<(int, Seq<char>)>, c: int, class: ClassDefinition) -> bool {
    &&& class.name@ == class_line_name(lines[c].1)
    &&& class.parent is None
    &&& field_names(class.fields@) == class_field_names(lines, c + 1)
    &&& function_names(class.methods@) == class_method_names(lines, c + 1)
    &&& class_members(lines, c + 1, class.fields@, class.methods@)
}

/// `fields` and `methods` are what the field lines and simple `Def` blocks of the simple
/// class body from `pos` on declare, in order.
pub open spec fn class_members(
    lines: Seq<(int, Seq<char>)>,
    pos: int,
    fields: Seq<FieldDefinition>,
    methods: Seq<FunctionDefinition>,
) -> bool {
    &&& fields.len() == class_field_lines(lines, pos).len()
    &&& forall|j: int|
        0 <= j < fields.len() ==> field_of(lines[class_field_lines(lines, pos)[j]].1, #[trigger] fields[j])
    &&& methods.len() == class_method_lines(lines, pos).len()
    &&& forall|j: int|
        0 <= j < methods.len() ==> declared_function(lines, class_method_lines(lines, pos)[j], #[trigger] methods[j])
}

/// A simple `Class` line is no other kind of simple line.
proof fn lemma_class_line(t: Seq<char>)
    requires
        simple_class_header(t),
    ensures
        !simple_line(t),
        !simple_def_line(t),
        !starts_with_ci_spec(t, "def "@),
{
    reveal(simple_return_line);
    reveal(simple_declaration_line);
    reveal(simple_assignment_line);
    reveal(simple_def_line);
    reveal_strlit("class ");
    reveal_strlit("return");
    reveal_strlit("return ");
    reveal_strlit("var");
    reveal_strlit("const");
    reveal_strlit("def ");
    assert(ascii_lower('c') == 'c' && ascii_lower('l') == 'l');
    assert(t.take(6).len() == 6);
    assert(lower_seq(t.take(6))[0] == lower_seq("class "@)[0]);
    assert(lower_seq(t.take(6))[0] == ascii_lower(t.take(6)[0]));
    assert(t.take(6)[0] == t[0]);
    assert(lower_seq(t.take(6))[1] == lower_seq("class "@)[1]);
    assert(lower_seq(t.take(6))[1] == ascii_lower(t.take(6)[1]));
    assert(t.take(6)[1] == t[1]);
    assert(ascii_lower(t[0]) == 'c');
    assert(ascii_lower(t[1]) == 'l');
    lemma_first_letter(t, "return"@);
    lemma_first_letter(t, "return "@);
    lemma_first_letter(t, "var"@);
    lemma_differs_at(t, "const"@, 1);
    lemma_first_letter(t, "def "@);
}

/// The program's lines, read from a given position on.
struct Parser {
    lines: Vec<SourceLine>,
}

impl Parser {
    /// Some line at or after `pos` has the number `n`.
    spec fn has_number_from(&self, pos: int, n: usize) -> bool {
        exists|k: int| pos <= k < self.lines@.len() && #[trigger] self.lines@[k].number == n
    }

    /// A `Class name [Extends parent]` block of `Field` and `Def` declarations, up to its
    /// `End Class`.
    #[verifier::rlimit(100)]
    #[verifier::spinoff_prover]
    fn parse_class(&self, pos: usize) -> (result: Result<(ClassDefinition, usize), ParseError>)
        requires
            pos < self.lines@.len(),
        ensures
            result matches Ok((class, next)) ==> class_block(self.lines@, pos as int, class, next as int),
            result matches Ok((class, next)) ==> has_class_body(self.lines@, pos as int, next - 1, class.fields@, class.methods@),
            result matches Ok((class, next)) ==> class_header(
                self.lines@[pos as int].text@,
                class.name@,
                match class.parent {
                    Some(p) => Some(p@),
                    None => None,
                },
            ),
            result matches Err(error) ==> self.has_number_from(pos as int, error.line),
            result matches Ok((class, next)) ==> pos < next <= self.lines@.len() && distinct_names(
                field_names(class.fields@),
            ) && distinct_names(function_names(class.methods@)),
            match result {
                Ok((class, next)) => {
                    &&& starts_with_ci_spec(self.lines@[pos as int].text@, "class "@)
                    &&& is_identifier_text(class.name@)
                    &&& (class.parent matches Some(parent) ==> is_identifier_text(parent@))
                    &&& {
                        let last = self.lines@[next - 1].text@;
                        eq_ci(last, "end class"@) || eq_ci(last, "endclass"@)
                    }
                },
                Err(error) => !starts_with_ci_spec(self.lines@[pos as int].text@, "class "@) ==> error.line
                    == self.lines@[pos as int].number && error.message@ == "expected `Class name`"@,
            },
            empty_class_at(self.lines@, pos) ==> {
                let text = self.lines@[pos as int].text@;
                &&& result matches Ok((class, next))
                &&& next == pos + 2
                &&& class.name@ == trim(text.subrange("class "@.len() as int, text.len() as int))
                &&& class.parent is None
                &&& class.fields@.len() == 0
                &&& class.methods@.len() == 0
            },
            class_body_close(numbered_view(self.lines@), pos + 1) matches Some(end) ==> (simple_class_header(
                self.lines@[pos as int].text@,
            ) && distinct_names(class_field_names(numbered_view(self.lines@), pos + 1)) && distinct_names(
                class_method_names(numbered_view(self.lines@), pos + 1),
            ) ==> (result matches Ok((class, next)) && next == end + 1 && class.name@ == trim(
                self.lines@[pos as int].text@.subrange("class "@.len() as int, self.lines@[pos as int].text@.len() as int),
            ) && class.parent is None && field_names(class.fields@) == class_field_names(
                numbered_view(self.lines@),
                pos + 1,
            ) && function_names(class.methods@) == class_method_names(numbered_view(self.lines@), pos + 1)
                && class_members(numbered_view(self.lines@), pos + 1, class.fields@, class.methods@))),
    {
        let line_count = self.lines.len();
        assert(pos < line_count);
        let line = &self.lines[pos];
        let t = &line.text;
        let n = t.len();
        assert(t@.subrange(0, n as int) =~= t@);
        let rest = match strip_prefix_ci(t, 0, n, "class ") {
            Some(rest) => rest,
            None => {
                return Err(err(line.number, "expected `Class name`"));
            },
        };
        let (hs, he) = trim_span(t, rest, n);
        assert(trimmed_bounds(t@, rest as int, n as int, hs as int, he as int));
        let (name, parent) = match split_keyword_top_level(t, hs, he, " extends ") {
            Some((k, m)) => {
                let (ns, ne) = trim_span(t, hs, k);
                let (ps, pe) = trim_span(t, m, he);
                validate_identifier(t, ns, ne, line.number)?;
                validate_identifier(t, ps, pe, line.number)?;
                let name = span_string(t, ns, ne);
                let parent_name = span_string(t, ps, pe);
                proof {
                    assert(crate::rowly_dsl::scan::keyword_at(t@, hs as int, he as int, k as int, " extends "@));
                    assert(class_header(t@, name@, Some(parent_name@)));
                }
                (name, Some(parent_name))
            },
            None => {
                validate_identifier(t, hs, he, line.number)?;
                let name = span_string(t, hs, he);
                proof {
                    assert(class_header(t@, name@, None));
                }
                (name, None)
            },
        };
        let mut fields: Vec<FieldDefinition> = Vec::new();
        let mut methods: Vec<FunctionDefinition> = Vec::new();
        let mut cur = pos + 1;
        let ghost nl = numbered_view(self.lines@);
        proof {
            assert(field_names(fields@) + class_field_names(nl, pos + 1) =~= class_field_names(nl, pos + 1));
            assert(function_names(methods@) + class_method_names(nl, pos + 1) =~= class_method_names(nl, pos + 1));
        }
        let ghost mut field_lines: Seq<int> = Seq::empty();
        let ghost mut method_spans: Seq<(int, int)> = Seq::empty();
        let ghost mut fpos: Seq<int> = Seq::empty();
        let ghost mut mpos: Seq<int> = Seq::empty();
        proof {
            assert(fpos + class_field_lines(nl, pos + 1) =~= class_field_lines(nl, pos + 1));
            assert(mpos + class_method_lines(nl, pos + 1) =~= class_method_lines(nl, pos + 1));
        }
        while cur < self.lines.len()
            invariant
                pos < cur <= self.lines@.len(),
                starts_with_ci_spec(self.lines@[pos as int].text@, "class "@),
                is_identifier_text(name@),
                empty_class_at(self.lines@, pos) ==> {
                    &&& cur == pos + 1
                    &&& name@ == trim(t@.subrange("class "@.len() as int, t@.len() as int))
                    &&& parent is None
                    &&& fields@.len() == 0
                    &&& methods@.len() == 0
                },
                t == self.lines@[pos as int].text,
                parent matches Some(p) ==> is_identifier_text(p@),
                class_header(t@, name@, match parent {
                    Some(p) => Some(p@),
                    None => None,
                }),
                class_body(self.lines@, pos as int, cur as int, fields@, methods@, field_lines, method_spans),
                distinct_names(field_names(fields@)),
                distinct_names(function_names(methods@)),
                nl == numbered_view(self.lines@),
                simple_class_header(t@) ==> name@ == trim(t@.subrange("class "@.len() as int, t@.len() as int))
                    && parent is None,
                class_body_close(nl, pos + 1) matches Some(end) ==> (simple_class_header(t@) && distinct_names(
                    class_field_names(nl, pos + 1),
                ) && distinct_names(class_method_names(nl, pos + 1)) ==> class_body_close(nl, cur as int) == Some(end)
                    && class_field_names(nl, pos + 1) == field_names(fields@) + class_field_names(nl, cur as int)
                    && class_method_names(nl, pos + 1) == function_names(methods@) + class_method_names(nl, cur as int)),
                class_body_close(nl, pos + 1) is Some && simple_class_header(t@) && distinct_names(
                    class_field_names(nl, pos + 1),
                ) && distinct_names(class_method_names(nl, pos + 1)) ==> {
                    &&& class_field_lines(nl, pos + 1) == fpos + class_field_lines(nl, cur as int)
                    &&& fpos.len() == fields@.len()
                    &&& forall|j: int| 0 <= j < fields@.len() ==> field_of(nl[fpos[j]].1, #[trigger] fields@[j])
                    &&& class_method_lines(nl, pos + 1) == mpos + class_method_lines(nl, cur as int)
                    &&& mpos.len() == methods@.len()
                    &&& forall|j: int| 0 <= j < methods@.len() ==> declared_function(nl, mpos[j], #[trigger] methods@[j])
                },
            decreases self.lines@.len() - cur,
        {
            let current = &self.lines[cur];
            let ct = &current.text;
            let cn = ct.len();
            let ghost members = class_body_close(nl, pos + 1) is Some && simple_class_header(t@) && distinct_names(
                class_field_names(nl, pos + 1),
            ) && distinct_names(class_method_names(nl, pos + 1));
            proof {
                assert(ct@.subrange(0, cn as int) =~= ct@);
                assert(nl[cur as int] == (current.number as int, ct@));
                if members {
                    lemma_class_body_close(nl, cur as int);
                    if simple_field_line(ct@) {
                        lemma_field_line(ct@);
                    }
                    if simple_def_line(ct@) {
                        lemma_def_line(ct@);
                    }
                }
            }
            if is_end_class(ct) {
                proof {
                    if members {
                        assert(closes_class(nl[cur as int].1));
                        assert(fpos + class_field_lines(nl, cur as int) =~= fpos);
                        assert(mpos + class_method_lines(nl, cur as int) =~= mpos);
                    }
                }
                let class = ClassDefinition { name, parent, fields, methods };
                let next = cur + 1;
                assert(class_body(self.lines@, pos as int, cur as int, class.fields@, class.methods@, field_lines, method_spans));
                assert(class_body(self.lines@, pos as int, next - 1, class.fields@, class.methods@, field_lines, method_spans));
                assert(has_class_body(self.lines@, pos as int, next - 1, class.fields@, class.methods@));
                return Ok((class, next));
            }
            if starts_with_ci(ct, 0, cn, "field ") {
                let field = parse_field_definition(current)?;
                let ghost known = field_names(fields@);
                proof {
                    if members {
                        let all = class_field_names(nl, pos + 1);
                        assert(class_field_names(nl, cur as int) == seq![field_line_name(ct@)] + class_field_names(
                            nl,
                            cur + 1,
                        ));
                        assert(all[known.len() as int] == field.name@);
                        assert forall|i: int| 0 <= i < fields@.len() implies !eq_ci(
                            #[trigger] fields@[i].name@,
                            field.name@,
                        ) by {
                            assert(all[i] == known[i]);
                            assert(known[i] == fields@[i].name@);
                        }
                        assert(field_names(fields@.push(field)) =~= known.push(field.name@));
                        assert(all =~= field_names(fields@.push(field)) + class_field_names(nl, cur + 1));
                    }
                }
                if find_field(&fields, field.name.as_str()).is_some() {
                    return Err(duplicate_error(current.number, "field", field.name.as_str()));
                }
                proof {
                    assert forall|i: int, j: int|
                        0 <= i < j < fields@.len() + 1 implies !eq_ci(
                        #[trigger] field_names(fields@.push(field))[i],
                        #[trigger] field_names(fields@.push(field))[j],
                    ) by {
                        if j == fields@.len() {
                            lemma_eq_ci_symmetric(fields@[i].name@, field.name@);
                        } else {
                            assert(field_names(fields@)[i] == fields@[i].name@);
                            assert(field_names(fields@)[j] == fields@[j].name@);
                        }
                    }
                }
                proof {
                    lemma_body_field(self.lines@, pos as int, cur as int, fields@, methods@, field_lines, method_spans, field);
                    field_lines = field_lines.push(cur as int);
                    if members {
                        assert(class_field_lines(nl, cur as int) == seq![cur as int] + class_field_lines(nl, cur + 1));
                        assert(class_method_lines(nl, cur as int) == class_method_lines(nl, cur + 1));
                        assert(field_of(nl[cur as int].1, field));
                        assert(class_field_lines(nl, pos + 1) =~= fpos.push(cur as int) + class_field_lines(nl, cur + 1));
                        assert forall|j: int| 0 <= j < fields@.len() + 1 implies field_of(
                            nl[fpos.push(cur as int)[j]].1,
                            #[trigger] fields@.push(field)[j],
                        ) by {
                            if j < fields@.len() {
                                assert(fields@.push(field)[j] == fields@[j]);
                            }
                        }
                    }
                    fpos = fpos.push(cur as int);
                }
                fields.push(field);
                cur += 1;
                continue;
            }
            if starts_with_ci(ct, 0, cn, "def ") {
                proof {
                    if members {
                        lemma_first_def_close(nl, cur + 1);
                        let e = first_def_close(nl, cur + 1);
                        assert forall|j: int| cur + 1 <= j < e implies #[trigger] simple_line(self.lines@[j].text@)
                            == simple_line(nl[j].1) by {
                            assert(nl[j] == (self.lines@[j].number as int, self.lines@[j].text@));
                        }
                        if e < nl.len() {
                            assert(nl[e] == (self.lines@[e].number as int, self.lines@[e].text@));
                            assert(closes_def(self.lines@[e].text@));
                        }
                        if simple_between(nl, cur + 1, e) {
                            assert(simple_lines(self.lines@, cur + 1, e));
                        }
                    }
                }
                let (method, next) = self.parse_function(cur)?;
                let ghost known = function_names(methods@);
                proof {
                    if members {
                        let all = class_method_names(nl, pos + 1);
                        assert(class_method_names(nl, cur as int) == seq![def_name(ct@)] + class_method_names(
                            nl,
                            next as int,
                        ));
                        assert(class_field_names(nl, cur as int) == class_field_names(nl, next as int));
                        assert(all[known.len() as int] == method.name@);
                        assert forall|i: int| 0 <= i < methods@.len() implies !eq_ci(
                            #[trigger] methods@[i].name@,
                            method.name@,
                        ) by {
                            assert(all[i] == known[i]);
                            assert(known[i] == methods@[i].name@);
                        }
                        assert(function_names(methods@.push(method)) =~= known.push(method.name@));
                        assert(all =~= function_names(methods@.push(method)) + class_method_names(nl, next as int));
                    }
                }
                if find_function(&methods, method.name.as_str()).is_some() {
                    return Err(duplicate_error(current.number, "method", method.name.as_str()));
                }
                proof {
                    assert forall|i: int, j: int|
                        0 <= i < j < methods@.len() + 1 implies !eq_ci(
                        #[trigger] function_names(methods@.push(method))[i],
                        #[trigger] function_names(methods@.push(method))[j],
                    ) by {
                        if j == methods@.len() {
                            lemma_eq_ci_symmetric(methods@[i].name@, method.name@);
                        } else {
                            assert(function_names(methods@)[i] == methods@[i].name@);
                            assert(function_names(methods@)[j] == methods@[j].name@);
                        }
                    }
                }
                proof {
                    lemma_body_method(self.lines@, pos as int, cur as int, fields@, methods@, field_lines, method_spans, method, next as int);
                    method_spans = method_spans.push((cur as int, next as int));
                    if members {
                        lemma_first_def_close(nl, cur + 1);
                        assert(class_method_lines(nl, cur as int) == seq![cur as int] + class_method_lines(
                            nl,
                            next as int,
                        ));
                        assert(class_field_lines(nl, cur as int) == class_field_lines(nl, next as int));
                        assert forall|j: int| 0 <= j < method.body@.len() implies simple_statement_of(
                            nl[cur + 1 + j].1,
                            #[trigger] method.body@[j],
                        ) by {
                            assert(nl[cur + 1 + j] == (
                                self.lines@[cur + 1 + j].number as int,
                                self.lines@[cur + 1 + j].text@,
                            ));
                        }
                        assert(declared_function(nl, cur as int, method));
                        assert(class_method_lines(nl, pos + 1) =~= mpos.push(cur as int) + class_method_lines(
                            nl,
                            next as int,
                        ));
                        assert forall|j: int| 0 <= j < methods@.len() + 1 implies declared_function(
                            nl,
                            mpos.push(cur as int)[j],
                            #[trigger] methods@.push(method)[j],
                        ) by {
                            if j < methods@.len() {
                                assert(methods@.push(method)[j] == methods@[j]);
                            }
                        }
                    }
                    mpos = mpos.push(cur as int);
                }
                methods.push(method);
                cur = next;
                continue;
            }
            return Err(err(current.number, "class bodies only support `Field` and `Def` declarations"));
        }
        Err(err(line.number, "missing `End Class`"))
    }

    /// A `Def name(parameters)` block, up to its `End Def`.
    fn parse_function(&self, pos: usize) -> (result: Result<(FunctionDefinition, usize), ParseError>)
        requires
            pos < self.lines@.len(),
        ensures
            result matches Ok((function, next)) ==> method_block(self.lines@, pos as int, function, next as int),
            result matches Err(error) ==> self.has_number_from(pos as int, error.line),
            result matches Ok((_, next)) ==> pos < next <= self.lines@.len(),
            result matches Ok((function, next)) ==> {
                &&& starts_with_ci_spec(self.lines@[pos as int].text@, "def "@)
                &&& is_identifier_text(function.name@)
                &&& {
                    let last = self.lines@[next - 1].text@;
                    eq_ci(last, "end def"@) || eq_ci(last, "enddef"@)
                }
            },
            forall|e: int|
                simple_def_line(self.lines@[pos as int].text@) && pos < e < self.lines@.len() && #[trigger] closes_def(
                    self.lines@[e].text@,
                ) && simple_lines(self.lines@, pos + 1, e) ==> (result matches Ok((function, next)) && next == e + 1
                    && function.name@ == def_name(self.lines@[pos as int].text@) && string_texts(function.parameters@)
                    == def_parameters(self.lines@[pos as int].text@) && function.body@.len() == e - pos - 1
                    && simple_statements_read(self.lines@, pos + 1, function.body@)),
            simple_def_line(self.lines@[pos as int].text@) && simple_lines(self.lines@, pos + 1, self.lines@.len() as int)
                ==> (result matches Err(error) && error.line == self.lines@[pos as int].number && error.message@
                == "missing `End Def`"@),
    {
        let line_count = self.lines.len();
        assert(pos < line_count);
        let line = &self.lines[pos];
        let (name, parameters) = parse_function_signature(line)?;
        let mut body: Vec<Statement> = Vec::new();
        let mut cur = pos + 1;
        while cur < self.lines.len()
            invariant
                pos < cur <= self.lines@.len(),
                starts_with_ci_spec(self.lines@[pos as int].text@, "def "@),
                is_identifier_text(name@),
                simple_def_line(self.lines@[pos as int].text@) ==> name@ == def_name(self.lines@[pos as int].text@)
                    && string_texts(parameters@) == def_parameters(self.lines@[pos as int].text@),
                simple_lines(self.lines@, pos + 1, cur as int) ==> simple_statements_read(self.lines@, pos + 1, body@) && body@.len()
                    == cur - pos - 1,
                forall|e: int|
                    pos < e < cur && #[trigger] closes_def(self.lines@[e].text@) ==> !simple_lines(self.lines@, pos + 1, e),
            decreases self.lines@.len() - cur,
        {
            let current = &self.lines[cur];
            let ct = &current.text;
            proof {
                lemma_simple_line(ct@);
                if simple_lines(self.lines@, pos + 1, cur + 1) {
                    assert(simple_line(self.lines@[cur as int].text@));
                }
            }
            if is_end_def(ct) {
                proof {
                    assert(closes_def(self.lines@[cur as int].text@));
                }
                return Ok((FunctionDefinition { name, parameters, body }, cur + 1));
            }
            if is_end_class(ct) || is_else(ct) || is_end_if(ct) || is_next(ct) {
                return Err(err(current.number, "unexpected block terminator"));
            }
            let ghost before = body@;
            let (statement, next) = self.parse_statement_or_if(cur)?;
            body.push(statement);
            proof {
                if simple_lines(self.lines@, pos + 1, next as int) {
                    assert(simple_lines(self.lines@, pos + 1, cur as int));
                    assert(simple_line(self.lines@[cur as int].text@));
                    assert(next == cur + 1);
                    assert forall|j: int| 0 <= j < body@.len() implies simple_statement_of(
                        self.lines@[pos + 1 + j].text@,
                        #[trigger] body@[j],
                    ) by {
                        if j < before.len() {
                            assert(body@[j] == before[j]);
                        }
                    }
                }
                assert forall|e: int|
                    pos < e < next && #[trigger] closes_def(self.lines@[e].text@) implies !simple_lines(
                    self.lines@,
                    pos + 1,
                    e,
                ) by {
                    if e == cur {
                        assert(!closes_def(self.lines@[cur as int].text@));
                    } else if e > cur {
                        assert(e < next);
                    }
                }
            }
            cur = next;
        }
        Err(err(line.number, "missing `End Def`"))
    }

    /// The statement that starts at line `pos`, with the position after it: an `If` block, a
    /// `For` block or a single line; `Def` and `Class` are refused here.
    fn parse_statement_or_if(&self, pos: usize) -> (result: Result<(Statement, usize), ParseError>)
        requires
            pos < self.lines@.len(),
        ensures
            result matches Ok((statement, next)) ==> statement_block(self.lines@, pos as int, statement, next as int),
            result matches Err(error) ==> self.has_number_from(pos as int, error.line),
            result matches Ok((_, next)) ==> pos < next <= self.lines@.len(),
            ({
                let t = self.lines@[pos as int].text@;
                let opens_if = starts_with_ci_spec(t, "if "@);
                let opens_for = !opens_if && starts_with_ci_spec(t, "for "@);
                let definition = !opens_if && !opens_for && (starts_with_ci_spec(t, "def "@)
                    || starts_with_ci_spec(t, "class "@));
                match result {
                    Ok((Statement::If { .. }, _)) => opens_if,
                    Ok((Statement::For { .. }, _)) => opens_for,
                    Ok((_, next)) => !opens_if && !opens_for && !definition && next == pos + 1,
                    Err(error) => definition ==> error.line == self.lines@[pos as int].number
                        && error.message@ == "definitions are only allowed at the top level or as class methods"@,
                }
            }),
            simple_line(self.lines@[pos as int].text@) ==> (result matches Ok((statement, next)) && next == pos + 1
                && simple_statement_of(self.lines@[pos as int].text@, statement)),
        decreases self.lines@.len() - pos, 1nat,
    {
        let line_count = self.lines.len();
        assert(pos < line_count);
        let line = &self.lines[pos];
        let t = &line.text;
        let n = t.len();
        assert(t@.subrange(0, n as int) =~= t@);
        proof {
            lemma_simple_line(t@);
        }
        if starts_with_ci(t, 0, n, "if ") {
            return self.parse_if(pos);
        }
        if starts_with_ci(t, 0, n, "for ") {
            return self.parse_for(pos);
        }
        if starts_with_ci(t, 0, n, "def ") || starts_with_ci(t, 0, n, "class ") {
            return Err(err(line.number, "definitions are only allowed at the top level or as class methods"));
        }
        let statement = parse_statement(line)?;
        Ok((statement, pos + 1))
    }

    /// A `For name = start To end [Step step]` block, up to its `Next`.
    #[verifier::rlimit(100)]
    #[verifier::spinoff_prover]
    fn parse_for(&self, pos: usize) -> (result: Result<(Statement, usize), ParseError>)
        requires
            pos < self.lines@.len(),
        ensures
            result matches Err(error) ==> self.has_number_from(pos as int, error.line),
            result matches Ok((_, next)) ==> pos < next <= self.lines@.len(),
            match result {
                Ok((statement, next)) => statement is For && starts_with_ci_spec(
                    self.lines@[pos as int].text@,
                    "for "@,
                ) && {
                    let last = trim(self.lines@[next - 1].text@);
                    eq_ci(last, "next"@) || starts_with_ci_spec(last, "next "@)
                },
                Err(error) => !starts_with_ci_spec(self.lines@[pos as int].text@, "for "@) ==> error.line
                    == self.lines@[pos as int].number && error.message@ == "expected `For name = start To end`"@,
            },
        decreases self.lines@.len() - pos, 0nat,
    {
        let line_count = self.lines.len();
        assert(pos < line_count);
        let line = &self.lines[pos];
        let t = &line.text;
        let n = t.len();
        let number = line.number;
        assert(t@.subrange(0, n as int) =~= t@);
        let rest = match strip_prefix_ci(t, 0, n, "for ") {
            Some(rest) => rest,
            None => {
                return Err(err(number, "expected `For name = start To end`"));
            },
        };
        let equals: Vec<char> = vec!['='];
        let eq = match split_top_level_token(t, rest, n, &equals) {
            Some(k) => k,
            None => {
                return Err(err(number, "expected `For name = start To end`"));
            },
        };
        let (vs, ve) = trim_span(t, rest, eq);
        validate_binding_name(t, vs, ve, number)?;
        let (rs, re) = trim_span(t, eq + 1, n);
        let (to, to_end) = match split_keyword_top_level(t, rs, re, " to ") {
            Some(found) => found,
            None => {
                return Err(err(number, "expected `To` in For loop"));
            },
        };
        let (es, ee) = trim_span(t, to_end, re);
        let (end_lo, end_hi, step_span) = match split_keyword_top_level(t, es, ee, " step ") {
            Some((k, m)) => {
                let (a, b) = trim_span(t, es, k);
                let (c, d) = trim_span(t, m, ee);
                (a, b, Some((c, d)))
            },
            None => (es, ee, None),
        };
        let (ss, se) = trim_span(t, rs, to);
        let start = parse_expression(t, ss, se, number)?;
        let end = parse_expression(t, end_lo, end_hi, number)?;
        let step = match step_span {
            Some((c, d)) => Some(parse_expression(t, c, d, number)?),
            None => None,
        };
        let mut body: Vec<Statement> = Vec::new();
        let mut cur = pos + 1;
        while cur < self.lines.len()
            invariant
                pos < cur <= self.lines@.len(),
                vs <= ve <= t@.len(),
                t == self.lines@[pos as int].text,
                starts_with_ci_spec(t@, "for "@),
            decreases self.lines@.len() - cur,
        {
            let current = &self.lines[cur];
            let ct = &current.text;
            if is_next(ct) {
                match next_variable(ct) {
                    Some((a, b)) => {
                        let given = span_string(ct, a, b);
                        let expected = span_string(t, vs, ve);
                        if !names_match(given.as_str(), expected.as_str()) {
                            let mut message = String::from_str("Next variable `");
                            message.append(given.as_str());
                            message.append("` does not match For variable `");
                            message.append(expected.as_str());
                            message.append("`");
                            return Err(ParseError { line: current.number, message });
                        }
                    },
                    None => {},
                }
                return Ok((Statement::For { variable: span_string(t, vs, ve), start, end, step, body }, cur + 1));
            }
            if is_end_def(ct) || is_end_class(ct) || is_end_if(ct) {
                return Err(err(current.number, "unexpected block terminator"));
            }
            let (statement, next) = self.parse_statement_or_if(cur)?;
            body.push(statement);
            cur = next;
        }
        Err(err(number, "missing `Next`"))
    }

    /// An `If <condition> Then` block, with an optional `Else`, up to its `End If`.
    fn parse_if(&self, pos: usize) -> (result: Result<(Statement, usize), ParseError>)
        requires
            pos < self.lines@.len(),
        ensures
            result matches Err(error) ==> self.has_number_from(pos as int, error.line),
            result matches Ok((_, next)) ==> pos < next <= self.lines@.len(),
            ({
                let text = self.lines@[pos as int].text@;
                let shaped = starts_with_ci_spec(text, "if "@) && text.len() >= 5 && eq_ci(
                    text.subrange(text.len() - 5, text.len() as int),
                    " then"@,
                );
                match result {
                    Ok((statement, next)) => statement is If && shaped && {
                        let last = self.lines@[next - 1].text@;
                        eq_ci(last, "end if"@) || eq_ci(last, "endif"@)
                    },
                    Err(error) => !shaped ==> error.line == self.lines@[pos as int].number && error.message@
                        == "expected `If <condition> Then`"@,
                }
            }),
        decreases self.lines@.len() - pos, 0nat,
    {
        let line_count = self.lines.len();
        assert(pos < line_count);
        let line = &self.lines[pos];
        let condition = parse_if_condition(line)?;
        let ghost text = line.text@;
        let mut body: Vec<Statement> = Vec::new();
        let mut else_body: Vec<Statement> = Vec::new();
        let mut in_else = false;
        let mut cur = pos + 1;
        while cur < self.lines.len()
            invariant
                pos < cur <= self.lines@.len(),
                text == self.lines@[pos as int].text@,
                starts_with_ci_spec(text, "if "@) && text.len() >= 5 && eq_ci(
                    text.subrange(text.len() - 5, text.len() as int),
                    " then"@,
                ),
            decreases self.lines@.len() - cur,
        {
            let current = &self.lines[cur];
            let ct = &current.text;
            if is_end_if(ct) {
                return Ok((Statement::If { condition, body, else_body }, cur + 1));
            }
            if is_else(ct) {
                if in_else {
                    return Err(err(current.number, "duplicate `Else`"));
                }
                in_else = true;
                cur += 1;
                continue;
            }
            if is_end_def(ct) || is_end_class(ct) || is_next(ct) {
                return Err(err(current.number, "unexpected block terminator"));
            }
            let (statement, next) = self.parse_statement_or_if(cur)?;
            if in_else {
                else_body.push(statement);
            } else {
                body.push(statement);
            }
            cur = next;
        }
        Err(err(line.number, "missing `End If`"))
    }

    fn parse_program(&self) -> (result: Result<Program, ParseError>)
        ensures
            result matches Ok(program) ==> program_layout(self.lines@, program),
            result matches Err(error) ==> self.has_number_from(0, error.line),
            result matches Ok(program) ==> distinct_names(class_names(program.classes@))
                && distinct_names(function_names(program.functions@)),
            self.lines@.len() == 0 ==> (result matches Ok(program) && program.classes@.len() == 0
                && program.functions@.len() == 0 && program.statements@.len() == 0),
            simple_blocks(numbered_view(self.lines@), 0) && distinct_names(simple_def_names(numbered_view(self.lines@), 0))
                && distinct_names(simple_class_names(numbered_view(self.lines@))) ==> (result matches Ok(program) && function_names(program.functions@) == simple_def_names(
                numbered_view(self.lines@),
                0,
            ) && simple_program(numbered_view(self.lines@), program)),
            unclosed_def(numbered_view(self.lines@), 0) matches Some(k) ==> (distinct_names(
                simple_def_names(numbered_view(self.lines@), 0),
            ) && distinct_names(simple_class_names(numbered_view(self.lines@))) ==> (result matches Err(error) && error.line == self.lines@[k].number && error.message@
                == "missing `End Def`"@)),
    {
        let ghost nl = numbered_view(self.lines@);
        let ghost names = simple_def_names(nl, 0);
        let ghost cnames = simple_class_names(nl);
        proof {
            lemma_unclosed_def(nl, 0);
        }
        assert(names =~= function_names(Seq::<FunctionDefinition>::empty()) + simple_def_names(nl, 0));
        let mut classes: Vec<ClassDefinition> = Vec::new();
        let mut functions: Vec<FunctionDefinition> = Vec::new();
        let mut statements: Vec<Statement> = Vec::new();
        let mut pos: usize = 0;
        let ghost mut class_spans: Seq<(int, int)> = Seq::empty();
        let ghost mut function_spans: Seq<(int, int)> = Seq::empty();
        let ghost mut statement_spans: Seq<(int, int)> = Seq::empty();
        while pos < self.lines.len()
            invariant
                pos <= self.lines@.len(),
                program_spans(
                    self.lines@,
                    classes@,
                    functions@,
                    statements@,
                    class_spans,
                    function_spans,
                    statement_spans,
                    pos as int,
                ),
                pos == 0 ==> classes@.len() == 0 && functions@.len() == 0 && statements@.len() == 0,
                distinct_names(class_names(classes@)),
                distinct_names(function_names(functions@)),
                nl == numbered_view(self.lines@),
                names == simple_def_names(nl, 0),
                simple_blocks(nl, 0) && distinct_names(names) && distinct_names(cnames) ==> simple_blocks(nl, pos as int)
                    && names == function_names(functions@) + simple_def_names(nl, pos as int),
                (simple_blocks(nl, 0) || unclosed_def(nl, 0) is Some) && distinct_names(names) && distinct_names(cnames)
                    ==> {
                    let clines = simple_class_lines(nl, 0);
                    &&& clines == clines.take(classes@.len() as int) + simple_class_lines(nl, pos as int)
                    &&& classes@.len() <= clines.len()
                    &&& forall|j: int| 0 <= j < classes@.len() ==> declared_class(nl, clines[j], #[trigger] classes@[j])
                },
                simple_blocks(nl, 0) && distinct_names(names) && distinct_names(cnames) ==> {
                    let defs = simple_def_lines(nl, 0);
                    let tops = simple_top_lines(nl, 0);
                    &&& defs == defs.take(functions@.len() as int) + simple_def_lines(nl, pos as int)
                    &&& tops == tops.take(statements@.len() as int) + simple_top_lines(nl, pos as int)
                    &&& functions@.len() <= defs.len()
                    &&& statements@.len() <= tops.len()
                    &&& forall|j: int| 0 <= j < functions@.len() ==> declared_function(nl, defs[j], #[trigger] functions@[j])
                    &&& forall|j: int|
                        0 <= j < statements@.len() ==> simple_statement_of(nl[tops[j]].1, #[trigger] statements@[j])
                },
                cnames == simple_class_names(nl),
                unclosed_def(nl, 0) matches Some(k) ==> (distinct_names(names) && distinct_names(cnames) ==> unclosed_def(nl, pos as int) == Some(k)
                    && pos <= k && names == function_names(functions@) + simple_def_names(nl, pos as int)),
            decreases self.lines@.len() - pos,
        {
            let line = &self.lines[pos];
            let t = &line.text;
            let n = t.len();
            let ghost planned = (simple_blocks(nl, 0) || unclosed_def(nl, 0) is Some) && distinct_names(names)
                && distinct_names(cnames);
            proof {
                assert(t@.subrange(0, n as int) =~= t@);
                assert(nl[pos as int] == (line.number as int, t@));
                if unclosed_def(nl, 0) is Some {
                    lemma_unclosed_def(nl, pos as int);
                }
                if planned {
                    assert(simple_line(t@) || simple_def_line(t@) || simple_class_header(t@));
                    lemma_simple_line(t@);
                    if simple_def_line(t@) {
                        lemma_def_line(t@);
                    }
                    if simple_class_header(t@) {
                        lemma_class_line(t@);
                    }
                }
            }
            if starts_with_ci(t, 0, n, "class ") {
                proof {
                    if planned {
                        lemma_class_body_close(nl, pos + 1);
                        assert(nl[pos as int].1 == self.lines@[pos as int].text@);
                    }
                }
                let (class, next) = self.parse_class(pos)?;
                proof {
                    if planned {
                        let clines = simple_class_lines(nl, 0);
                        let cl = classes@.len() as int;
                        assert(simple_class_lines(nl, pos as int) == seq![pos as int] + simple_class_lines(nl, next as int));
                        assert(clines[cl] == pos as int);
                        assert(clines.take(cl + 1) =~= clines.take(cl).push(pos as int));
                        assert(clines =~= clines.take(cl + 1) + simple_class_lines(nl, next as int));
                        assert(declared_class(nl, pos as int, class));
                        assert(cnames[cl] == class.name@);
                        assert forall|i: int| 0 <= i < classes@.len() implies !eq_ci(
                            #[trigger] classes@[i].name@,
                            class.name@,
                        ) by {
                            assert(declared_class(nl, clines[i], classes@[i]));
                            assert(cnames[i] == classes@[i].name@);
                        }
                        assert forall|j: int| 0 <= j < cl + 1 implies declared_class(
                            nl,
                            clines[j],
                            #[trigger] classes@.push(class)[j],
                        ) by {
                            if j < cl {
                                assert(classes@.push(class)[j] == classes@[j]);
                            }
                        }
                        assert(simple_def_names(nl, pos as int) == simple_def_names(nl, next as int));
                        assert(simple_def_lines(nl, pos as int) == simple_def_lines(nl, next as int));
                        assert(simple_top_lines(nl, pos as int) == simple_top_lines(nl, next as int));
                        lemma_unclosed_def(nl, next as int);
                    }
                }
                if find_class(&classes, class.name.as_str()).is_some() {
                    return Err(duplicate_error(line.number, "class", class.name.as_str()));
                }
                proof {
                    assert forall|i: int, j: int|
                        0 <= i < j < classes@.len() + 1 implies !eq_ci(
                        #[trigger] class_names(classes@.push(class))[i],
                        #[trigger] class_names(classes@.push(class))[j],
                    ) by {
                        if j == classes@.len() {
                            lemma_eq_ci_symmetric(classes@[i].name@, class.name@);
                        } else {
                            assert(class_names(classes@)[i] == classes@[i].name@);
                            assert(class_names(classes@)[j] == classes@[j].name@);
                        }
                    }
                }
                proof {
                    lemma_program_push_class(
                        self.lines@,
                        classes@,
                        functions@,
                        statements@,
                        class_spans,
                        function_spans,
                        statement_spans,
                        pos as int,
                        class,
                        next as int,
                    );
                    class_spans = class_spans.push((pos as int, next as int));
                }
                classes.push(class);
                pos = next;
                continue;
            }
            if starts_with_ci(t, 0, n, "def ") {
                proof {
                    if planned {
                        lemma_first_def_close(nl, pos + 1);
                        let e = first_def_close(nl, pos + 1);
                        assert forall|j: int| pos + 1 <= j < e implies #[trigger] simple_line(
                            self.lines@[j].text@,
                        ) == simple_line(nl[j].1) by {
                            assert(nl[j] == (self.lines@[j].number as int, self.lines@[j].text@));
                        }
                        if e < nl.len() {
                            assert(nl[e] == (self.lines@[e].number as int, self.lines@[e].text@));
                            assert(closes_def(self.lines@[e].text@));
                        }
                        if simple_between(nl, pos + 1, e) {
                            assert(simple_lines(self.lines@, pos + 1, e));
                        }
                    }
                }
                let (function, next) = self.parse_function(pos)?;
                let ghost fnames = function_names(functions@);
                proof {
                    if planned {
                        assert(simple_def_names(nl, pos as int)[0] == function.name@);
                        assert(names[fnames.len() as int] == function.name@);
                        assert forall|i: int| 0 <= i < functions@.len() implies !eq_ci(
                            #[trigger] functions@[i].name@,
                            function.name@,
                        ) by {
                            assert(names[i] == fnames[i]);
                            assert(fnames[i] == functions@[i].name@);
                        }
                    }
                }
                if find_function(&functions, function.name.as_str()).is_some() {
                    return Err(duplicate_error(line.number, "function", function.name.as_str()));
                }
                proof {
                    assert forall|i: int, j: int|
                        0 <= i < j < functions@.len() + 1 implies !eq_ci(
                        #[trigger] function_names(functions@.push(function))[i],
                        #[trigger] function_names(functions@.push(function))[j],
                    ) by {
                        if j == functions@.len() {
                            lemma_eq_ci_symmetric(functions@[i].name@, function.name@);
                        } else {
                            assert(function_names(functions@)[i] == functions@[i].name@);
                            assert(function_names(functions@)[j] == functions@[j].name@);
                        }
                    }
                }
                proof {
                    lemma_program_push_function(
                        self.lines@,
                        classes@,
                        functions@,
                        statements@,
                        class_spans,
                        function_spans,
                        statement_spans,
                        pos as int,
                        function,
                        next as int,
                    );
                    function_spans = function_spans.push((pos as int, next as int));
                }
                proof {
                    lemma_unclosed_def(nl, next as int);
                    if simple_blocks(nl, 0) && distinct_names(names) && distinct_names(cnames) {
                        let defs = simple_def_lines(nl, 0);
                        let fl = functions@.len() as int;
                        lemma_first_def_close(nl, pos + 1);
                        let e = first_def_close(nl, pos + 1);
                        assert(next == e + 1);
                        assert(simple_def_lines(nl, pos as int) == seq![pos as int] + simple_def_lines(nl, next as int));
                        assert(defs[fl] == pos as int);
                        assert(defs.take(fl + 1) =~= defs.take(fl).push(pos as int));
                        assert(defs =~= defs.take(fl + 1) + simple_def_lines(nl, next as int));
                        assert(simple_top_lines(nl, pos as int) == simple_top_lines(nl, next as int));
                        assert forall|j: int| 0 <= j < function.body@.len() implies simple_statement_of(
                            nl[pos + 1 + j].1,
                            #[trigger] function.body@[j],
                        ) by {
                            assert(nl[pos + 1 + j] == (
                                self.lines@[pos + 1 + j].number as int,
                                self.lines@[pos + 1 + j].text@,
                            ));
                        }
                        assert(nl[pos as int].1 == self.lines@[pos as int].text@);
                        assert(declared_function(nl, pos as int, function));
                        assert forall|j: int| 0 <= j < fl + 1 implies declared_function(
                            nl,
                            defs[j],
                            #[trigger] functions@.push(function)[j],
                        ) by {
                            if j < fl {
                                assert(functions@.push(function)[j] == functions@[j]);
                            }
                        }
                    }
                    if planned {
                        assert(function_names(functions@.push(function)) =~= fnames.push(function.name@));
                        assert(names =~= function_names(functions@.push(function)) + simple_def_names(nl, next as int));
                    }
                }
                functions.push(function);
                pos = next;
                continue;
            }
            if is_terminator(t) || is_else(t) {
                return Err(err(line.number, "unexpected block terminator"));
            }
            let (statement, next) = self.parse_statement_or_if(pos)?;
            proof {
                lemma_program_push_statement(
                    self.lines@,
                    classes@,
                    functions@,
                    statements@,
                    class_spans,
                    function_spans,
                    statement_spans,
                    pos as int,
                    statement,
                    next as int,
                );
                statement_spans = statement_spans.push((pos as int, next as int));
            }
            proof {
                lemma_unclosed_def(nl, next as int);
            }
            statements.push(statement);
            pos = next;
        }
        let program = Program { classes, functions, statements };
        assert(program_spans(
            self.lines@,
            program.classes@,
            program.functions@,
            program.statements@,
            class_spans,
            function_spans,
            statement_spans,
            self.lines@.len() as int,
        ));
        Ok(program)
    }
}

/// What parsing `source` is known to give: on success, the program's classes, functions
/// and statements are those its statement lines declare, block by block, in order (see
/// `program_layout`), and no two classes and no two functions share a name up to ASCII
/// case; a source of blanks and comments is the empty program; an error names the number
/// of one of the source's statement lines. A source of simple lines, simple `Def` blocks
/// and simple class blocks, no two functions and no two classes of the same name (see
/// `simple_blocks`), parses, to the one program those lines make (see `simple_program`);
/// one that ends in a `Def` block with no `End Def` (see `unclosed_def`) is refused at
/// that `Def` line, as missing its `End Def`.
pub open spec fn parse_outcome(source: Seq<char>, result: Result<Program, ParseError>) -> bool {
    &&& result matches Ok(program) ==> distinct_names(class_names(program.classes@)) && distinct_names(
        function_names(program.functions@),
    )
    &&& statement_lines(split_lines(source)).len() == 0 ==> (result matches Ok(program)
        && program.classes@.len() == 0 && program.functions@.len() == 0 && program.statements@.len() == 0)
    &&& result matches Err(error) ==> exists|i: int|
        0 <= i < statement_lines(split_lines(source)).len() && #[trigger] statement_lines(
            split_lines(source),
        )[i].0 == error.line
    &&& result matches Ok(program) ==> exists|lines: Seq<SourceLine>|
        numbered_view(lines) == statement_lines(split_lines(source)) && #[trigger] program_layout(lines, program)
    &&& simple_blocks(statement_lines(split_lines(source)), 0) && distinct_names(
        simple_def_names(statement_lines(split_lines(source)), 0),
    ) && distinct_names(simple_class_names(statement_lines(split_lines(source)))) ==> (result matches Ok(program) && function_names(program.functions@) == simple_def_names(
        statement_lines(split_lines(source)),
        0,
    ) && simple_program(statement_lines(split_lines(source)), program))
    &&& unclosed_def(statement_lines(split_lines(source)), 0) matches Some(k) ==> (distinct_names(
        simple_def_names(statement_lines(split_lines(source)), 0),
    ) && distinct_names(simple_class_names(statement_lines(split_lines(source)))) ==> (result matches Err(error) && error.line == statement_lines(split_lines(source))[k].0 && error.message@
        == "missing `End Def`"@))
}

/// Parses a whole program. On success no two classes, and no two functions, share a name up
/// to ASCII case. A source with nothing but blank lines and comments is the empty program.
pub fn parse(source: &str) -> (result: Result<Program, ParseError>)
    ensures
        parse_outcome(source@, result),
{
    let parser = Parser { lines: source_lines(source) };
    assert(numbered_view(parser.lines@).len() == parser.lines@.len());
    let result = parser.parse_program();
    proof {
        if result is Ok {
            assert(program_layout(parser.lines@, result->Ok_0));
        }
        if result is Err {
            let error = result->Err_0;
            let k = choose|k: int| 0 <= k < parser.lines@.len() && #[trigger] parser.lines@[k].number == error.line;
            assert(numbered_view(parser.lines@)[k].0 == parser.lines@[k].number);
        }
        let nl = numbered_view(parser.lines@);
        lemma_unclosed_def(nl, 0);
        if unclosed_def(nl, 0) is Some {
            let k = unclosed_def(nl, 0)->Some_0;
            assert(nl[k].0 == parser.lines@[k].number);
        }
    }
    result
}

} // verus!
