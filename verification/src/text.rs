//! Character classes, scanning and the small sub-grammars (delimited names,
//! numbers, identifiers) that both dialog lexers are built from.
//!
//! Every grammar rule here is stated as a spec function on a character
//! sequence and a position, returning where the rule stops (or `None` when it
//! does not match there); the executable functions are proved equal to them.
use vstd::prelude::*;
use vstd::string::StrSliceExecFns;

verus! {

/// Unicode `White_Space` property: what `char::is_whitespace` reports.
pub open spec fn is_ws(c: char) -> bool {
    ||| ('\u{9}' <= c && c <= '\u{d}')
    ||| c == ' '
    ||| c == '\u{85}'
    ||| c == '\u{a0}'
    ||| c == '\u{1680}'
    ||| ('\u{2000}' <= c && c <= '\u{200a}')
    ||| c == '\u{2028}'
    ||| c == '\u{2029}'
    ||| c == '\u{202f}'
    ||| c == '\u{205f}'
    ||| c == '\u{3000}'
}

pub open spec fn is_digit(c: char) -> bool {
    '0' <= c && c <= '9'
}

pub open spec fn is_ascii_alpha(c: char) -> bool {
    ('a' <= c && c <= 'z') || ('A' <= c && c <= 'Z')
}

pub open spec fn is_ascii_alnum(c: char) -> bool {
    is_ascii_alpha(c) || is_digit(c)
}

/// The character classes that the lexers scan over.
pub enum CharClass {
    /// Unicode whitespace.
    Whitespace,
    /// The plain space `' '`.
    Space,
    /// ASCII decimal digits.
    Digit,
    /// `[a-zA-Z0-9_]`.
    IdentContinue,
    /// ASCII alphanumerics and `-`.
    Speaker,
    /// ASCII alphanumerics, `-` and the full-width question mark.
    SpeakerWide,
    /// Anything but the given character.
    Not(char),
    /// Anything but `@`, `[`, `]`, `=`, `:` and a newline.
    Line,
}

pub open spec fn in_class(k: CharClass, c: char) -> bool {
    match k {
        CharClass::Whitespace => is_ws(c),
        CharClass::Space => c == ' ',
        CharClass::Digit => is_digit(c),
        CharClass::IdentContinue => is_ascii_alnum(c) || c == '_',
        CharClass::Speaker => is_ascii_alnum(c) || c == '-',
        CharClass::SpeakerWide => is_ascii_alnum(c) || c == '-' || c == '\u{ff1f}',
        CharClass::Not(x) => c != x,
        CharClass::Line => !(c == '@' || c == '[' || c == ']' || c == '=' || c == ':' || c == '\n'),
    }
}

pub fn class_has(k: &CharClass, c: char) -> (r: bool)
    ensures
        r == in_class(*k, c),
{
    match k {
        CharClass::Whitespace => ('\u{9}' <= c && c <= '\u{d}') || c == ' ' || c == '\u{85}' || c
            == '\u{a0}' || c == '\u{1680}' || ('\u{2000}' <= c && c <= '\u{200a}') || c
            == '\u{2028}' || c == '\u{2029}' || c == '\u{202f}' || c == '\u{205f}' || c
            == '\u{3000}',
        CharClass::Space => c == ' ',
        CharClass::Digit => '0' <= c && c <= '9',
        CharClass::IdentContinue => ('a' <= c && c <= 'z') || ('A' <= c && c <= 'Z') || ('0' <= c
            && c <= '9') || c == '_',
        CharClass::Speaker => ('a' <= c && c <= 'z') || ('A' <= c && c <= 'Z') || ('0' <= c && c
            <= '9') || c == '-',
        CharClass::SpeakerWide => ('a' <= c && c <= 'z') || ('A' <= c && c <= 'Z') || ('0' <= c
            && c <= '9') || c == '-' || c == '\u{ff1f}',
        CharClass::Not(x) => c != *x,
        CharClass::Line => !(c == '@' || c == '[' || c == ']' || c == '=' || c == ':' || c
            == '\n'),
    }
}

/// The first position at or after `i` whose character is not in class `k`
/// (or the end of `s`).
pub open spec fn scan(s: Seq<char>, i: int, k: CharClass) -> int
    decreases s.len() - i,
{
    if 0 <= i < s.len() && in_class(k, s[i]) {
        scan(s, i + 1, k)
    } else {
        i
    }
}

/// Where leading whitespace at `i` ends.
pub open spec fn skip_ws(s: Seq<char>, i: int) -> int {
    scan(s, i, CharClass::Whitespace)
}

pub proof fn lemma_scan(s: Seq<char>, i: int, k: CharClass)
    requires
        0 <= i <= s.len(),
    ensures
        i <= scan(s, i, k) <= s.len(),
        forall|m: int| i <= m < scan(s, i, k) ==> in_class(k, #[trigger] s[m]),
        scan(s, i, k) == s.len() || !in_class(k, s[scan(s, i, k)]),
    decreases s.len() - i,
{
    if i < s.len() && in_class(k, s[i]) {
        lemma_scan(s, i + 1, k);
    }
}

/// Scanning from a point inside a run ends where scanning from its start does.
pub proof fn lemma_scan_inside(s: Seq<char>, i: int, j: int, k: CharClass)
    requires
        0 <= i <= j <= scan(s, i, k),
        j <= s.len(),
    ensures
        scan(s, j, k) == scan(s, i, k),
    decreases j - i,
{
    lemma_scan(s, i, k);
    if i < j {
        lemma_scan_inside(s, i + 1, j, k);
    }
}

pub fn scan_class(s: &Vec<char>, i: usize, k: &CharClass) -> (j: usize)
    requires
        i <= s.len(),
    ensures
        j == scan(s@, i as int, *k),
        i <= j <= s.len(),
{
    let mut j = i;
    proof {
        lemma_scan(s@, i as int, *k);
    }
    while j < s.len() && class_has(k, s[j])
        invariant
            i <= j <= s.len(),
            scan(s@, j as int, *k) == scan(s@, i as int, *k),
        decreases s.len() - j,
    {
        j = j + 1;
    }
    j
}

pub fn skip_whitespace(s: &Vec<char>, i: usize) -> (j: usize)
    requires
        i <= s.len(),
    ensures
        j == skip_ws(s@, i as int),
        i <= j <= s.len(),
{
    scan_class(s, i, &CharClass::Whitespace)
}

/// `lit` occurs in `s` starting at position `i`.
pub open spec fn has_at(s: Seq<char>, i: int, lit: Seq<char>) -> bool {
    0 <= i && i + lit.len() <= s.len() && s.subrange(i, i + lit.len()) =~= lit
}

pub fn starts_with_at(s: &Vec<char>, i: usize, lit: &[char]) -> (r: bool)
    ensures
        r == has_at(s@, i as int, lit@),
{
    if i > s.len() || lit.len() > s.len() - i {
        return false;
    }
    let mut k: usize = 0;
    while k < lit.len()
        invariant
            i + lit@.len() <= s.len(),
            k <= lit@.len(),
            forall|m: int| 0 <= m < k ==> s@[i + m] == lit@[m],
        decreases lit@.len() - k,
    {
        if s[i + k] != lit[k] {
            assert(s@.subrange(i as int, i + lit@.len())[k as int] != lit@[k as int]);
            return false;
        }
        k = k + 1;
    }
    assert(s@.subrange(i as int, i + lit@.len()) =~= lit@);
    true
}

/// A name between `open` and `close`: after `open` comes optional
/// whitespace, then a character other than the first of `close`, then
/// everything up to the first character of `close`, which must be followed
/// by all of `close`. The result is `(start, end, next)`: the name spans
/// `start..end` (the whitespace after `open` included) and the rule stops at
/// `next`.
pub open spec fn delimited(s: Seq<char>, i: int, open: Seq<char>, close: Seq<char>) -> Option<
    (int, int, int),
> {
    if close.len() > 0 && has_at(s, i, open) {
        let a = i + open.len();
        let w = skip_ws(s, a);
        if w < s.len() && s[w] != close[0] {
            let e = scan(s, w, CharClass::Not(close[0]));
            if has_at(s, e, close) {
                Some((a, e, e + close.len()))
            } else {
                None
            }
        } else {
            None
        }
    } else {
        None
    }
}

pub proof fn lemma_delimited(s: Seq<char>, i: int, open: Seq<char>, close: Seq<char>)
    requires
        0 <= i <= s.len(),
        delimited(s, i, open, close) is Some,
    ensures
        ({
            let (a, e, next) = delimited(s, i, open, close)->0;
            i <= a < e < next <= s.len() && a == i + open.len()
        }),
{
    let a = i + open.len();
    let w = skip_ws(s, a);
    lemma_scan(s, a, CharClass::Whitespace);
    lemma_scan(s, w, CharClass::Not(close[0]));
}

pub fn parse_delimited(s: &Vec<char>, i: usize, open: &[char], close: &[char]) -> (r: Option<
    (usize, usize, usize),
>)
    requires
        i <= s.len(),
    ensures
        match r {
            Some((a, e, next)) => delimited(s@, i as int, open@, close@) == Some(
                (a as int, e as int, next as int),
            ),
            None => delimited(s@, i as int, open@, close@) is None,
        },
{
    if close.len() == 0 || !starts_with_at(s, i, open) {
        return None;
    }
    let a = i + open.len();
    let w = skip_whitespace(s, a);
    if w < s.len() && s[w] != close[0] {
        let e = scan_class(s, w, &CharClass::Not(close[0]));
        if starts_with_at(s, e, close) {
            Some((a, e, e + close.len()))
        } else {
            None
        }
    } else {
        None
    }
}

/// End of an integer literal at `i`: a non-zero digit followed by digits, or
/// a single `0`.
pub open spec fn int_end(s: Seq<char>, i: int) -> Option<int> {
    if 0 <= i < s.len() && '1' <= s[i] && s[i] <= '9' {
        Some(scan(s, i + 1, CharClass::Digit))
    } else if 0 <= i < s.len() && s[i] == '0' {
        Some(i + 1)
    } else {
        None
    }
}

/// End of a decimal number at `i`: an integer literal optionally followed by
/// `.` and at least one digit.
pub open spec fn float_end(s: Seq<char>, i: int) -> Option<int> {
    match int_end(s, i) {
        Some(d) => if d + 1 < s.len() && s[d] == '.' && is_digit(s[d + 1]) {
            Some(scan(s, d + 2, CharClass::Digit))
        } else {
            Some(d)
        },
        None => None,
    }
}

pub proof fn lemma_float_end(s: Seq<char>, i: int)
    requires
        0 <= i <= s.len(),
        float_end(s, i) is Some,
    ensures
        i < float_end(s, i)->0 <= s.len(),
        forall|m: int|
            i <= m < float_end(s, i)->0 ==> is_digit(#[trigger] s[m]) || s[m] == '.',
{
    if 0 <= i < s.len() && '1' <= s[i] && s[i] <= '9' {
        lemma_scan(s, i + 1, CharClass::Digit);
        let d = scan(s, i + 1, CharClass::Digit);
        if d + 1 < s.len() && s[d] == '.' && is_digit(s[d + 1]) {
            lemma_scan(s, d + 2, CharClass::Digit);
        }
    } else {
        let d = i + 1;
        if d + 1 < s.len() && s[d] == '.' && is_digit(s[d + 1]) {
            lemma_scan(s, d + 2, CharClass::Digit);
        }
    }
}

pub fn parse_float_end(s: &Vec<char>, i: usize) -> (r: Option<usize>)
    requires
        i <= s.len(),
    ensures
        match r {
            Some(f) => float_end(s@, i as int) == Some(f as int),
            None => float_end(s@, i as int) is None,
        },
{
    let d;
    if i < s.len() && '1' <= s[i] && s[i] <= '9' {
        d = scan_class(s, i + 1, &CharClass::Digit);
    } else if i < s.len() && s[i] == '0' {
        d = i + 1;
    } else {
        return None;
    }
    if d < s.len() && d + 1 < s.len() && s[d] == '.' && '0' <= s[d + 1] && s[d + 1] <= '9' {
        Some(scan_class(s, d + 2, &CharClass::Digit))
    } else {
        Some(d)
    }
}

/// End of a C-style identifier `[a-zA-Z_][a-zA-Z0-9_]*` at `i`.
pub open spec fn ident_end(s: Seq<char>, i: int) -> Option<int> {
    if 0 <= i < s.len() && (is_ascii_alpha(s[i]) || s[i] == '_') {
        Some(scan(s, i + 1, CharClass::IdentContinue))
    } else {
        None
    }
}

pub fn parse_ident_end(s: &Vec<char>, i: usize) -> (r: Option<usize>)
    requires
        i <= s.len(),
    ensures
        match r {
            Some(f) => ident_end(s@, i as int) == Some(f as int) && i < f <= s.len(),
            None => ident_end(s@, i as int) is None,
        },
{
    if i < s.len() && (('a' <= s[i] && s[i] <= 'z') || ('A' <= s[i] && s[i] <= 'Z') || s[i]
        == '_') {
        Some(scan_class(s, i + 1, &CharClass::IdentContinue))
    } else {
        None
    }
}

/// End of a run of at least one space at `i`.
pub open spec fn spaces_end(s: Seq<char>, i: int) -> Option<int> {
    let j = scan(s, i, CharClass::Space);
    if j > i {
        Some(j)
    } else {
        None
    }
}

pub fn parse_spaces_end(s: &Vec<char>, i: usize) -> (r: Option<usize>)
    requires
        i <= s.len(),
    ensures
        match r {
            Some(f) => spaces_end(s@, i as int) == Some(f as int) && i < f <= s.len(),
            None => spaces_end(s@, i as int) is None,
        },
{
    let j = scan_class(s, i, &CharClass::Space);
    if j > i {
        Some(j)
    } else {
        None
    }
}

/// A speaker name at `i`: one or more characters of class `k` and a `:`.
/// The result is the position of the `:`.
pub open spec fn speaker_colon(s: Seq<char>, i: int, k: CharClass) -> Option<int> {
    let j = scan(s, i, k);
    if i < j < s.len() && s[j] == ':' {
        Some(j)
    } else {
        None
    }
}

pub fn parse_speaker_colon(s: &Vec<char>, i: usize, k: &CharClass) -> (r: Option<usize>)
    requires
        i <= s.len(),
    ensures
        match r {
            Some(j) => speaker_colon(s@, i as int, *k) == Some(j as int) && i < j < s.len(),
            None => speaker_colon(s@, i as int, *k) is None,
        },
{
    let j = scan_class(s, i, k);
    if i < j && j < s.len() && s[j] == ':' {
        Some(j)
    } else {
        None
    }
}

/// A choice at `i`: `->`, optional whitespace, then the rest of the line
/// (at least one character). The result is the span of the label.
pub open spec fn choice_span(s: Seq<char>, i: int) -> Option<(int, int)> {
    if has_at(s, i, seq!['-', '>']) {
        let w = skip_ws(s, i + 2);
        let e = scan(s, w, CharClass::Not('\n'));
        if e > w {
            Some((w, e))
        } else {
            None
        }
    } else {
        None
    }
}

pub fn parse_choice_span(s: &Vec<char>, i: usize) -> (r: Option<(usize, usize)>)
    requires
        i <= s.len(),
    ensures
        match r {
            Some((w, e)) => choice_span(s@, i as int) == Some((w as int, e as int)) && i < w < e
                <= s.len(),
            None => choice_span(s@, i as int) is None,
        },
{
    if !starts_with_at(s, i, &['-', '>']) {
        return None;
    }
    let w = skip_whitespace(s, i + 2);
    let e = scan_class(s, w, &CharClass::Not('\n'));
    if e > w {
        Some((w, e))
    } else {
        None
    }
}

/// `@wait` arguments after the keyword at `k`: spaces and a number. The
/// result is the span of the number.
pub open spec fn wait_span(s: Seq<char>, k: int) -> Option<(int, int)> {
    if has_at(s, k, seq!['w', 'a', 'i', 't']) {
        match spaces_end(s, k + 4) {
            Some(w) => match float_end(s, w) {
                Some(f) => Some((w, f)),
                None => None,
            },
            None => None,
        }
    } else {
        None
    }
}

pub fn parse_wait_span(s: &Vec<char>, k: usize) -> (r: Option<(usize, usize)>)
    requires
        k <= s.len(),
    ensures
        match r {
            Some((w, f)) => wait_span(s@, k as int) == Some((w as int, f as int)) && k < w < f
                <= s.len(),
            None => wait_span(s@, k as int) is None,
        },
{
    if !starts_with_at(s, k, &['w', 'a', 'i', 't']) {
        return None;
    }
    let w = match parse_spaces_end(s, k + 4) {
        Some(w) => w,
        None => return None,
    };
    let r = parse_float_end(s, w);
    proof {
        if r is Some {
            lemma_float_end(s@, w as int);
        }
    }
    match r {
        Some(f) => Some((w, f)),
        None => None,
    }
}

/// `@set` arguments after the keyword at `k`: spaces, an identifier, `.`
/// and an identifier. The result is `(a, b, c)`: the enum name spans
/// `a..b` and the value spans `b + 1..c`.
pub open spec fn set_spans(s: Seq<char>, k: int) -> Option<(int, int, int)> {
    if has_at(s, k, seq!['s', 'e', 't']) {
        match spaces_end(s, k + 3) {
            Some(a) => match ident_end(s, a) {
                Some(b) => if b < s.len() && s[b] == '.' {
                    match ident_end(s, b + 1) {
                        Some(c) => Some((a, b, c)),
                        None => None,
                    }
                } else {
                    None
                },
                None => None,
            },
            None => None,
        }
    } else {
        None
    }
}

pub fn parse_set_spans(s: &Vec<char>, k: usize) -> (r: Option<(usize, usize, usize)>)
    requires
        k <= s.len(),
    ensures
        match r {
            Some((a, b, c)) => set_spans(s@, k as int) == Some((a as int, b as int, c as int)) && k
                < a < b < c <= s.len(),
            None => set_spans(s@, k as int) is None,
        },
{
    if !starts_with_at(s, k, &['s', 'e', 't']) {
        return None;
    }
    let a = match parse_spaces_end(s, k + 3) {
        Some(a) => a,
        None => return None,
    };
    let b = match parse_ident_end(s, a) {
        Some(b) => b,
        None => return None,
    };
    if !(b < s.len() && s[b] == '.') {
        return None;
    }
    match parse_ident_end(s, b + 1) {
        Some(c) => Some((a, b, c)),
        None => None,
    }
}

/// `@setmainchoicer` arguments after the keyword at `k`: spaces and a
/// `[[name]]`. The result is the name's span and where the rule stops.
pub open spec fn main_choicer_spans(s: Seq<char>, k: int) -> Option<(int, int, int)> {
    if has_at(
        s,
        k,
        seq!['s', 'e', 't', 'm', 'a', 'i', 'n', 'c', 'h', 'o', 'i', 'c', 'e', 'r'],
    ) {
        match spaces_end(s, k + 14) {
            Some(w) => delimited(s, w, seq!['[', '['], seq![']', ']']),
            None => None,
        }
    } else {
        None
    }
}

pub fn parse_main_choicer_spans(s: &Vec<char>, k: usize) -> (r: Option<(usize, usize, usize)>)
    requires
        k <= s.len(),
    ensures
        match r {
            Some((a, e, next)) => main_choicer_spans(s@, k as int) == Some(
                (a as int, e as int, next as int),
            ) && k < a < e < next <= s.len(),
            None => main_choicer_spans(s@, k as int) is None,
        },
{
    if !starts_with_at(s, k, &['s', 'e', 't', 'm', 'a', 'i', 'n', 'c', 'h', 'o', 'i', 'c', 'e', 'r'])
    {
        return None;
    }
    let w = match parse_spaces_end(s, k + 14) {
        Some(w) => w,
        None => return None,
    };
    let r = parse_delimited(s, w, &['[', '['], &[']', ']']);
    proof {
        if r is Some {
            lemma_delimited(s@, w as int, seq!['[', '['], seq![']', ']']);
        }
    }
    r
}

/// Whether two strings hold the same characters.
pub fn str_eq(a: &str, b: &str) -> (r: bool)
    ensures
        r == (a@ == b@),
{
    let n = a.unicode_len();
    if n != b.unicode_len() {
        return false;
    }
    let mut i: usize = 0;
    while i < n
        invariant
            n == a@.len(),
            n == b@.len(),
            i <= n,
            forall|k: int| 0 <= k < i ==> a@[k] == b@[k],
        decreases n - i,
    {
        if a.get_char(i) != b.get_char(i) {
            return false;
        }
        i = i + 1;
    }
    assert(a@ =~= b@);
    true
}

/// The characters of a string, in order.
pub fn chars_of(input: &str) -> (r: Vec<char>)
    ensures
        r@ == input@,
{
    let mut r: Vec<char> = Vec::new();
    for c in it: input.chars()
        invariant
            r@ == it.seq().take(it.index() as int),
            it.seq() == input@,
    {
        r.push(c);
    }
    r
}

} // verus!
