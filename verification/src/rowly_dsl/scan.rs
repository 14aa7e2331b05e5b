//! Scanning one line of DSL source: case-insensitive matches, quoted strings, and the
//! characters that stand outside every parenthesis and string.
//!
//! A span `(lo, hi)` stands for the characters `t[lo..hi]` of a line `t`.

use vstd::prelude::*;

use crate::text::{eq_ci, is_white_space, lower_seq, to_ascii_lower, trim, trim_bounds, white_space, ascii_lower};

verus! {

/// `char::is_alphabetic`: the Unicode `Alphabetic` property.
pub uninterp spec fn unicode_alphabetic(c: char) -> bool;

/// `char::is_numeric`: the Unicode general categories `Nd`, `Nl` and `No`.
pub uninterp spec fn unicode_numeric(c: char) -> bool;

/// Calls `char::is_alphabetic`; its result is named `unicode_alphabetic`.
#[verifier::external_body]
fn char_is_alphabetic(c: char) -> (alphabetic: bool)
    ensures
        alphabetic == unicode_alphabetic(c),
{
    c.is_alphabetic()
}

/// Calls `char::is_numeric`; its result is named `unicode_numeric`.
#[verifier::external_body]
fn char_is_numeric(c: char) -> (numeric: bool)
    ensures
        numeric == unicode_numeric(c),
{
    c.is_numeric()
}

/// A character that may start an identifier.
pub open spec fn identifier_start(c: char) -> bool {
    c == '_' || unicode_alphabetic(c)
}

/// A character that may continue an identifier (`char::is_alphanumeric` is alphabetic or
/// numeric).
pub open spec fn identifier_continue(c: char) -> bool {
    c == '_' || unicode_alphabetic(c) || unicode_numeric(c)
}

/// An identifier: a letter or `_`, then letters, digits or `_`.
pub open spec fn is_identifier_text(s: Seq<char>) -> bool {
    &&& s.len() > 0
    &&& identifier_start(s[0])
    &&& forall|i: int| 1 <= i < s.len() ==> identifier_continue(#[trigger] s[i])
}

/// Whether `t[lo..hi]` is an identifier (see `is_identifier_text`).
pub fn is_identifier(t: &Vec<char>, lo: usize, hi: usize) -> (valid: bool)
    requires
        lo <= hi <= t@.len(),
    ensures
        valid == is_identifier_text(t@.subrange(lo as int, hi as int)),
{
    let ghost s = t@.subrange(lo as int, hi as int);
    if lo == hi {
        return false;
    }
    let first = t[lo];
    if !(first == '_' || char_is_alphabetic(first)) {
        assert(s[0] == first);
        return false;
    }
    let mut i = lo + 1;
    while i < hi
        invariant
            lo < i <= hi <= t@.len(),
            s == t@.subrange(lo as int, hi as int),
            forall|k: int| 1 <= k < i - lo ==> identifier_continue(#[trigger] s[k]),
        decreases hi - i,
    {
        let c = t[i];
        if !(c == '_' || char_is_alphabetic(c) || char_is_numeric(c)) {
            assert(s[i - lo] == c);
            return false;
        }
        assert(s[i - lo] == c);
        i += 1;
    }
    assert(s[0] == first);
    true
}

/// `s` starts with `prefix` up to ASCII case.
pub open spec fn starts_with_ci_spec(s: Seq<char>, prefix: Seq<char>) -> bool {
    prefix.len() <= s.len() && eq_ci(s.take(prefix.len() as int), prefix)
}

/// Whether `t[at..at + word.len()]` equals `word` up to ASCII case.
fn matches_ci_at(t: &Vec<char>, at: usize, word: &Vec<char>) -> (equal: bool)
    requires
        at + word@.len() <= t@.len(),
    ensures
        equal == eq_ci(t@.subrange(at as int, at + word@.len()), word@),
{
    let ghost s = t@.subrange(at as int, at + word@.len());
    let n = word.len();
    let tlen = t.len();
    let mut k: usize = 0;
    while k < n
        invariant
            tlen == t@.len(),
            n == word@.len(),
            at + n <= t@.len(),
            s == t@.subrange(at as int, at + n),
            k <= n,
            forall|j: int| 0 <= j < k ==> ascii_lower(#[trigger] s[j]) == ascii_lower(word@[j]),
        decreases n - k,
    {
        if to_ascii_lower(t[at + k]) != to_ascii_lower(word[k]) {
            assert(s[k as int] == t@[at + k]);
            assert(lower_seq(s)[k as int] != lower_seq(word@)[k as int]);
            return false;
        }
        assert(s[k as int] == t@[at + k]);
        k += 1;
    }
    assert(lower_seq(s) =~= lower_seq(word@));
    true
}

/// Whether `t[lo..hi]` starts with `prefix` up to ASCII case.
pub fn starts_with_ci(t: &Vec<char>, lo: usize, hi: usize, prefix: &str) -> (found: bool)
    requires
        lo <= hi <= t@.len(),
    ensures
        found == starts_with_ci_spec(t@.subrange(lo as int, hi as int), prefix@),
{
    let word: Vec<char> = crate::text::chars_of(prefix);
    if word.len() > hi - lo {
        return false;
    }
    let equal = matches_ci_at(t, lo, &word);
    assert(t@.subrange(lo as int, hi as int).take(word@.len() as int) =~= t@.subrange(
        lo as int,
        lo + word@.len(),
    ));
    equal
}

/// Whether `t[lo..hi]` equals `word` up to ASCII case.
pub fn eq_ci_span(t: &Vec<char>, lo: usize, hi: usize, word: &str) -> (equal: bool)
    requires
        lo <= hi <= t@.len(),
    ensures
        equal == eq_ci(t@.subrange(lo as int, hi as int), word@),
{
    let w: Vec<char> = crate::text::chars_of(word);
    if w.len() != hi - lo {
        proof {
            assert(lower_seq(t@.subrange(lo as int, hi as int)).len() != lower_seq(word@).len());
        }
        return false;
    }
    matches_ci_at(t, lo, &w)
}

/// First index `i >= from` with `t[i..i + pattern.len()]` equal to `pattern` up to ASCII
/// case and inside `..hi`.
pub fn find_ci(t: &Vec<char>, from: usize, hi: usize, pattern: &Vec<char>) -> (found: Option<usize>)
    requires
        from <= hi <= t@.len(),
    ensures
        match found {
            Some(i) => from <= i && i + pattern@.len() <= hi && eq_ci(
                t@.subrange(i as int, i + pattern@.len()),
                pattern@,
            ) && forall|k: int|
                from <= k < i ==> !eq_ci(#[trigger] t@.subrange(k, k + pattern@.len()), pattern@),
            None => forall|k: int|
                from <= k && k + pattern@.len() <= hi ==> !eq_ci(
                    #[trigger] t@.subrange(k, k + pattern@.len()),
                    pattern@,
                ),
        },
{
    if pattern.len() > hi - from {
        return None;
    }
    let last = hi - pattern.len();
    let mut i = from;
    while i <= last
        invariant
            from <= i,
            last + pattern@.len() == hi <= t@.len(),
            forall|k: int|
                from <= k < i ==> !eq_ci(#[trigger] t@.subrange(k, k + pattern@.len()), pattern@),
        decreases last + 1 - i,
    {
        if matches_ci_at(t, i, pattern) {
            return Some(i);
        }
        if i == last {
            return None;
        }
        i += 1;
    }
    None
}

/// Where `scan` stands after reading a character: inside a quoted string or not, right
/// after a backslash inside one, and how many parentheses are open.
pub struct ScanState {
    pub depth: usize,
    pub quoted: bool,
    pub escaped: bool,
}

/// The scan after reading `c` in state `(depth, quoted, escaped)`, and whether `c`
/// stands outside every string (and is not a quote or an escape). An unmatched `)` leaves
/// the depth at zero.
pub open spec fn scan_next(state: (int, bool, bool), c: char) -> ((int, bool, bool), bool) {
    let (depth, quoted, escaped) = state;
    if escaped {
        ((depth, quoted, false), false)
    } else if c == '\\' && quoted {
        ((depth, quoted, true), false)
    } else if c == '"' {
        ((depth, !quoted, false), false)
    } else if quoted {
        (state, false)
    } else if c == '(' {
        ((depth + 1, quoted, escaped), true)
    } else if c == ')' && depth > 0 {
        ((depth - 1, quoted, escaped), true)
    } else {
        (state, true)
    }
}

/// The scan after reading `s` from the start of a span.
pub open spec fn scan_state(s: Seq<char>) -> (int, bool, bool)
    decreases s.len(),
{
    if s.len() == 0 {
        (0, false, false)
    } else {
        scan_next(scan_state(s.drop_last()), s.last()).0
    }
}

/// The state of a scan as the spec sees it.
pub open spec fn scan_view(state: ScanState) -> (int, bool, bool) {
    (state.depth as int, state.quoted, state.escaped)
}

proof fn lemma_scan_depth(s: Seq<char>)
    ensures
        0 <= scan_state(s).0 <= s.len(),
    decreases s.len(),
{
    if s.len() > 0 {
        lemma_scan_depth(s.drop_last());
    }
}

proof fn lemma_scan_extend(t: Seq<char>, lo: int, i: int)
    requires
        0 <= lo <= i < t.len(),
    ensures
        scan_state(t.subrange(lo, i + 1)) == scan_next(scan_state(t.subrange(lo, i)), t[i]).0,
        0 <= scan_state(t.subrange(lo, i)).0 <= i - lo,
{
    assert(t.subrange(lo, i + 1).drop_last() =~= t.subrange(lo, i));
    lemma_scan_depth(t.subrange(lo, i));
}

/// Reads one character; returns whether it stands outside every string (and is not a
/// quote or an escape), so that the caller may look at it.
pub fn scan_step(state: &mut ScanState, c: char) -> (outside: bool)
    requires
        old(state).depth < usize::MAX,
    ensures
        scan_view(*final(state)) == scan_next(scan_view(*old(state)), c).0,
        outside == scan_next(scan_view(*old(state)), c).1,
{
    if state.escaped {
        state.escaped = false;
        return false;
    }
    if c == '\\' && state.quoted {
        state.escaped = true;
        return false;
    }
    if c == '"' {
        state.quoted = !state.quoted;
        return false;
    }
    if state.quoted {
        return false;
    }
    if c == '(' {
        state.depth = state.depth + 1;
    } else if c == ')' && state.depth > 0 {
        state.depth = state.depth - 1;
    }
    true
}

/// Position `i` of a scan of `t` started at `start` holds a `)` that closes nothing opened
/// in the scan, outside every string.
pub open spec fn closes_at(t: Seq<char>, start: int, i: int) -> bool {
    let state = scan_state(t.subrange(start, i));
    &&& state.0 == 0
    &&& !state.1
    &&& !state.2
    &&& t[i] == ')'
}

/// Position `i` of `t` lies outside every parenthesis and string of a scan started at `lo`.
pub open spec fn top_level_at(t: Seq<char>, lo: int, i: int) -> bool {
    scan_state(t.subrange(lo, i)).0 == 0 && !scan_state(t.subrange(lo, i)).1
}

/// `token` starts at position `i` of the span `t[lo..hi]`: its first character stands
/// outside every string and leaves no parenthesis open.
pub open spec fn token_at(t: Seq<char>, lo: int, hi: int, i: int, token: Seq<char>) -> bool {
    &&& i + token.len() <= hi
    &&& scan_next(scan_state(t.subrange(lo, i)), t[i]).1
    &&& scan_state(t.subrange(lo, i + 1)).0 == 0
    &&& t.subrange(i, i + token.len()) == token
}

/// Index of the `)` that closes a parenthesis opened just before `start`, scanning `t[start..hi]`
/// and skipping quoted strings: the first `)` with nothing opened in between left open.
pub fn find_closing_parenthesis(t: &Vec<char>, start: usize, hi: usize) -> (found: Option<usize>)
    requires
        start <= hi <= t@.len(),
    ensures
        match found {
            Some(i) => start <= i < hi && closes_at(t@, start as int, i as int) && forall|k: int|
                start <= k < i ==> !#[trigger] closes_at(t@, start as int, k),
            None => forall|k: int| start <= k < hi ==> !#[trigger] closes_at(t@, start as int, k),
        },
{
    let mut state = ScanState { depth: 0, quoted: false, escaped: false };
    let mut i = start;
    while i < hi
        invariant
            start <= i <= hi <= t@.len(),
            state.depth <= i - start,
            scan_view(state) == scan_state(t@.subrange(start as int, i as int)),
            forall|k: int| start <= k < i ==> !#[trigger] closes_at(t@, start as int, k),
        decreases hi - i,
    {
        proof {
            lemma_scan_extend(t@, start as int, i as int);
        }
        let c = t[i];
        if !state.escaped && !state.quoted && c == ')' && state.depth == 0 {
            return Some(i);
        }
        scan_step(&mut state, c);
        i += 1;
    }
    None
}

/// Whether position `target` of `t[lo..]` lies outside every parenthesis and string.
pub fn is_top_level_index(t: &Vec<char>, lo: usize, target: usize) -> (top: bool)
    requires
        lo <= target <= t@.len(),
    ensures
        top == top_level_at(t@, lo as int, target as int),
{
    let mut state = ScanState { depth: 0, quoted: false, escaped: false };
    let mut i = lo;
    while i < target
        invariant
            lo <= i <= target <= t@.len(),
            state.depth <= i - lo,
            scan_view(state) == scan_state(t@.subrange(lo as int, i as int)),
        decreases target - i,
    {
        proof {
            lemma_scan_extend(t@, lo as int, i as int);
        }
        scan_step(&mut state, t[i]);
        i += 1;
    }
    state.depth == 0 && !state.quoted
}

/// First position in `t[lo..hi]` where `token` starts outside every parenthesis and
/// string (see `token_at`).
pub fn split_top_level_token(t: &Vec<char>, lo: usize, hi: usize, token: &Vec<char>) -> (found: Option<usize>)
    requires
        lo <= hi <= t@.len(),
    ensures
        match found {
            Some(i) => lo <= i < hi && token_at(t@, lo as int, hi as int, i as int, token@) && forall|k: int|
                lo <= k < i ==> !#[trigger] token_at(t@, lo as int, hi as int, k, token@),
            None => forall|k: int| lo <= k < hi ==> !#[trigger] token_at(t@, lo as int, hi as int, k, token@),
        },
{
    let mut state = ScanState { depth: 0, quoted: false, escaped: false };
    let mut i = lo;
    while i < hi && token.len() <= hi - i
        invariant
            lo <= i <= hi <= t@.len(),
            state.depth <= i - lo,
            scan_view(state) == scan_state(t@.subrange(lo as int, i as int)),
            forall|k: int| lo <= k < i ==> !#[trigger] token_at(t@, lo as int, hi as int, k, token@),
        decreases hi - i,
    {
        proof {
            lemma_scan_extend(t@, lo as int, i as int);
        }
        let outside = scan_step(&mut state, t[i]);
        if outside && state.depth == 0 && matches_exact_at(t, i, token) {
            return Some(i);
        }
        i += 1;
    }
    None
}

/// Whether `t[at..at + word.len()]` is exactly `word`.
fn matches_exact_at(t: &Vec<char>, at: usize, word: &Vec<char>) -> (equal: bool)
    requires
        at + word@.len() <= t@.len(),
    ensures
        equal == (t@.subrange(at as int, at + word@.len()) == word@),
{
    let n = word.len();
    let tlen = t.len();
    let mut k: usize = 0;
    while k < n
        invariant
            tlen == t@.len(),
            n == word@.len(),
            at + n <= t@.len(),
            k <= n,
            forall|j: int| 0 <= j < k ==> t@[at + j] == word@[j],
        decreases n - k,
    {
        if t[at + k] != word[k] {
            assert(t@.subrange(at as int, at + n)[k as int] != word@[k as int]);
            return false;
        }
        k += 1;
    }
    assert(t@.subrange(at as int, at + n) =~= word@);
    true
}

/// `keyword` (up to ASCII case) stands at position `i` of `t[lo..hi]`, outside every
/// parenthesis and string.
pub open spec fn keyword_at(t: Seq<char>, lo: int, hi: int, i: int, keyword: Seq<char>) -> bool {
    &&& i + keyword.len() <= hi
    &&& eq_ci(t.subrange(i, i + keyword.len()), keyword)
    &&& top_level_at(t, lo, i)
}

/// First occurrence of `keyword` (up to ASCII case) in `t[lo..hi]` that lies outside every
/// parenthesis and string: where it starts and where it ends.
pub fn split_keyword_top_level(t: &Vec<char>, lo: usize, hi: usize, keyword: &str) -> (found: Option<(usize, usize)>)
    requires
        lo <= hi <= t@.len(),
    ensures
        match found {
            Some((i, j)) => lo <= i <= j <= hi && j - i == keyword@.len() && keyword_at(
                t@,
                lo as int,
                hi as int,
                i as int,
                keyword@,
            ) && forall|k: int| lo <= k < i ==> !#[trigger] keyword_at(t@, lo as int, hi as int, k, keyword@),
            None => forall|k: int| lo <= k <= hi ==> !#[trigger] keyword_at(t@, lo as int, hi as int, k, keyword@),
        },
{
    let pattern: Vec<char> = crate::text::chars_of(keyword);
    let mut from = lo;
    while from <= hi
        invariant
            lo <= from,
            hi <= t@.len(),
            pattern@ == keyword@,
            forall|k: int| lo <= k < from ==> !#[trigger] keyword_at(t@, lo as int, hi as int, k, keyword@),
        decreases hi + 1 - from,
    {
        match find_ci(t, from, hi, &pattern) {
            Some(i) => {
                if is_top_level_index(t, lo, i) {
                    return Some((i, i + pattern.len()));
                }
                if i >= hi {
                    return None;
                }
                from = i + 1;
            },
            None => {
                return None;
            },
        }
    }
    None
}

/// Where the text after `prefix` starts, when `t[lo..hi]` starts with `prefix` up to ASCII
/// case.
pub fn strip_prefix_ci(t: &Vec<char>, lo: usize, hi: usize, prefix: &str) -> (rest: Option<usize>)
    requires
        lo <= hi <= t@.len(),
    ensures
        match rest {
            Some(k) => starts_with_ci_spec(t@.subrange(lo as int, hi as int), prefix@) && k == lo + prefix@.len()
                && k <= hi,
            None => !starts_with_ci_spec(t@.subrange(lo as int, hi as int), prefix@),
        },
{
    if starts_with_ci(t, lo, hi, prefix) {
        let word: Vec<char> = crate::text::chars_of(prefix);
        Some(lo + word.len())
    } else {
        None
    }
}

/// A character before which a `+` or `-` is a sign rather than an operator.
pub open spec fn sign_context(c: char) -> bool {
    c == '(' || c == ',' || c == '+' || c == '-' || c == '*' || c == '/' || c == '=' || c == '<' || c
        == '>'
}

/// A `+` or `-` after `before` is a sign: nothing but white space, or an opening or
/// operator character, comes before it.
pub open spec fn unary_context(before: Seq<char>) -> bool {
    trim(before).len() == 0 || sign_context(trim(before).last())
}

/// Position `i` of `t[lo..]` holds the operator `first` or `second`, outside every
/// parenthesis and string, and it is not a sign.
pub open spec fn operator_at(t: Seq<char>, lo: int, i: int, first: char, second: char) -> bool {
    &&& scan_next(scan_state(t.subrange(lo, i)), t[i]).1
    &&& scan_state(t.subrange(lo, i)).0 == 0
    &&& (t[i] == first || t[i] == second)
    &&& !((t[i] == '+' || t[i] == '-') && unary_context(t.subrange(lo, i)))
}

/// The last operator among `first`/`second` in `t[lo..hi]` that lies outside every
/// parenthesis and string and is not a sign (see `operator_at`).
pub fn split_top_level_arithmetic(t: &Vec<char>, lo: usize, hi: usize, first: char, second: char) -> (found:
    Option<(usize, char)>)
    requires
        lo <= hi <= t@.len(),
    ensures
        match found {
            Some((i, c)) => lo <= i < hi && t@[i as int] == c && operator_at(t@, lo as int, i as int, first, second)
                && forall|k: int| i < k < hi ==> !#[trigger] operator_at(t@, lo as int, k, first, second),
            None => forall|k: int| lo <= k < hi ==> !#[trigger] operator_at(t@, lo as int, k, first, second),
        },
{
    let mut state = ScanState { depth: 0, quoted: false, escaped: false };
    let mut candidate: Option<(usize, char)> = None;
    let mut i = lo;
    while i < hi
        invariant
            lo <= i <= hi <= t@.len(),
            state.depth <= i - lo,
            scan_view(state) == scan_state(t@.subrange(lo as int, i as int)),
            match candidate {
                Some((k, c)) => lo <= k < i && t@[k as int] == c && operator_at(t@, lo as int, k as int, first, second)
                    && forall|m: int| k < m < i ==> !#[trigger] operator_at(t@, lo as int, m, first, second),
                None => forall|m: int| lo <= m < i ==> !#[trigger] operator_at(t@, lo as int, m, first, second),
            },
        decreases hi - i,
    {
        proof {
            lemma_scan_extend(t@, lo as int, i as int);
        }
        let c = t[i];
        let before = state.depth;
        let outside = scan_step(&mut state, c);
        if outside && before == 0 && (c == first || c == second) {
            if !((c == '+' || c == '-') && is_unary_sign(t, lo, i)) {
                candidate = Some((i, c));
            }
        }
        i += 1;
    }
    candidate
}

/// Whether the sign at `index` has nothing, or an opening or operator character, before it.
pub fn is_unary_sign(t: &Vec<char>, lo: usize, index: usize) -> (unary: bool)
    requires
        lo <= index <= t@.len(),
    ensures
        unary == unary_context(t@.subrange(lo as int, index as int)),
{
    let (start, end) = trim_bounds(t.as_slice(), lo, index);
    if start == end {
        return true;
    }
    let c = t[end - 1];
    c == '(' || c == ',' || c == '+' || c == '-' || c == '*' || c == '/' || c == '=' || c == '<' || c == '>'
}

/// The span with every pair of parentheses that encloses all of it removed, trimmed.
pub fn strip_outer_parentheses(t: &Vec<char>, lo: usize, hi: usize) -> (span: (usize, usize))
    requires
        lo <= hi <= t@.len(),
    ensures
        lo <= span.0 <= span.1 <= hi,
        trim(t@.subrange(lo as int, hi as int)).len() > 0 && trim(t@.subrange(lo as int, hi as int))[0] != '('
            ==> t@.subrange(span.0 as int, span.1 as int) == trim(t@.subrange(lo as int, hi as int)),
{
    let mut a = lo;
    let mut b = hi;
    loop
        invariant
            lo <= a <= b <= hi <= t@.len(),
            (a == lo && b == hi) || !(trim(t@.subrange(lo as int, hi as int)).len() > 0 && trim(
                t@.subrange(lo as int, hi as int),
            )[0] != '('),
        decreases b - a,
    {
        let (s, e) = trim_bounds(t.as_slice(), a, b);
        proof {
            if s < e {
                assert(t@.subrange(s as int, e as int)[0] == t@[s as int]);
            }
        }
        if !(s < e && t[s] == '(' && t[e - 1] == ')') || e - s < 2 {
            return (s, e);
        }
        match find_closing_parenthesis(t, s + 1, e) {
            Some(close) => {
                if close != e - 1 {
                    return (s, e);
                }
            },
            None => {
                return (s, e);
            },
        }
        a = s + 1;
        b = e - 1;
    }
}

} // verus!
