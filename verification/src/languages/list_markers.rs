//! Finding the items of lists.
//!
//! Each line of a paragraph is looked at once: a marker may stand at the start of
//! the line, or behind white space within it. A list is a sequence, so a
//! paragraph has at most one family of markers, and (but for markers that are
//! unmistakable) at least two of them.

use vstd::prelude::*;
use vstd::utf8::*;

use crate::chars::{strip_front, unicode_lowercase, HorizontalSpace};
use crate::order::{in_order, lemma_sorted, sort, sorted, Keyed};
use crate::text::{as_position, first_char, front_run, piece, step, tail, trim_front};
use crate::utf8::{
    after, before, between, is_cut, lemma_ascii, lemma_cut_ends, lemma_first, lemma_size,
    lemma_split, lemma_whole, size,
};

verus! {

/// The families of list markers.
#[derive(Debug, Clone, Copy, PartialEq, Eq, Structural)]
pub enum MarkerFamily {
    /// Unicode bullets and parenthesised forms; one at the start of a line is enough.
    Tier1,
    /// `*`, `+` and `-`.
    Bullet,
    /// `1.`, `1)` and `1.)`.
    Numeric,
    /// `a)` and `a.)`.
    LetterParen,
    /// `a.`, lower case only.
    LetterDot,
    /// `ii.`, `iii)` and `ii.)`.
    Roman,
}

impl MarkerFamily {
    pub open spec fn index(self) -> int {
        match self {
            MarkerFamily::Tier1 => 0,
            MarkerFamily::Bullet => 1,
            MarkerFamily::Numeric => 2,
            MarkerFamily::LetterParen => 3,
            MarkerFamily::LetterDot => 4,
            MarkerFamily::Roman => 5,
        }
    }

    /// The place of the family among all of them.
    pub fn idx(self) -> (r: usize)
        ensures
            r == self.index(),
    {
        match self {
            MarkerFamily::Tier1 => 0,
            MarkerFamily::Bullet => 1,
            MarkerFamily::Numeric => 2,
            MarkerFamily::LetterParen => 3,
            MarkerFamily::LetterDot => 4,
            MarkerFamily::Roman => 5,
        }
    }
}

/// The number of marker families.
pub const FAMILY_COUNT: usize = 6;

/// How many bytes two items of one family must lie apart.
pub const MIN_GAP_BYTES: usize = 4;

/// A place where an item may start.
#[derive(Debug, Clone, Copy)]
pub struct Candidate {
    pub pos: usize,
    pub family: MarkerFamily,
    pub first_byte: u8,
    pub line_start: bool,
}

/// The bullets beyond ASCII.
pub const UNICODE_BULLETS: [char; 21] = [
    '•', '◦', '▪', '▫', '■', '□', '●', '○', '⁃', '⁌', '⁍', '◆', '◇', '★', '☆', '➤', '➢', '➣', '▶', '▸',
    '►',
];

/// `.`
pub const DOT: u8 = 0x2e;

/// `(`
pub const OPEN: u8 = 0x28;

/// `)`
pub const CLOSE: u8 = 0x29;

/// The line feed.
pub const NEWLINE: u8 = 0x0a;

/// The carriage return.
pub const RETURN: u8 = 0x0d;

// Bytes.

pub open spec fn horiz_ws(b: u8) -> bool {
    b == 0x20 || b == 0x09
}

pub open spec fn digit_byte(b: u8) -> bool {
    0x30 <= b <= 0x39
}

pub open spec fn lower_byte(b: u8) -> bool {
    0x61 <= b <= 0x7a
}

pub open spec fn letter_byte(b: u8) -> bool {
    0x41 <= b <= 0x5a || 0x61 <= b <= 0x7a
}

/// True for the letters `i v x l c d m` in either case.
pub open spec fn roman_byte(b: u8) -> bool {
    ||| b == 0x69 || b == 0x49
    ||| b == 0x76 || b == 0x56
    ||| b == 0x78 || b == 0x58
    ||| b == 0x6c || b == 0x4c
    ||| b == 0x63 || b == 0x43
    ||| b == 0x64 || b == 0x44
    ||| b == 0x6d || b == 0x4d
}

pub fn is_horiz_ws(b: u8) -> (r: bool)
    ensures
        r == horiz_ws(b),
{
    b == 0x20 || b == 0x09
}

pub fn is_roman_byte(b: u8) -> (r: bool)
    ensures
        r == roman_byte(b),
{
    b == 0x69 || b == 0x49 || b == 0x76 || b == 0x56 || b == 0x78 || b == 0x58 || b == 0x6c || b
        == 0x4c || b == 0x63 || b == 0x43 || b == 0x64 || b == 0x44 || b == 0x6d || b == 0x4d
}

/// How many digits `b` starts with.
pub open spec fn digit_run(b: Seq<u8>) -> int
    decreases b.len(),
{
    if b.len() > 0 && digit_byte(b[0]) {
        1 + digit_run(b.drop_first())
    } else {
        0
    }
}

/// How many Roman letters `b` starts with.
pub open spec fn roman_run(b: Seq<u8>) -> int
    decreases b.len(),
{
    if b.len() > 0 && roman_byte(b[0]) {
        1 + roman_run(b.drop_first())
    } else {
        0
    }
}

/// The first position from `from` on that holds the byte `x`, or the length of `b`.
pub open spec fn next_byte(b: Seq<u8>, x: u8, from: int) -> int
    decreases b.len() - from,
{
    if from < 0 || b.len() <= from {
        b.len() as int
    } else if b[from] == x {
        from
    } else {
        next_byte(b, x, from + 1)
    }
}

// Markers. Each function gives the length of the marker that a text starts with.

/// The length of the closer `.`, `)` or `.)` at `pos`.
pub open spec fn closer_length(b: Seq<u8>, pos: int) -> Option<int> {
    if pos < 0 || b.len() <= pos {
        None
    } else if b[pos] == DOT && pos + 1 < b.len() && b[pos + 1] == CLOSE {
        Some(2)
    } else if b[pos] == DOT || b[pos] == CLOSE {
        Some(1)
    } else {
        None
    }
}

pub fn closer_len_at(b: &[u8], pos: usize) -> (r: Option<usize>)
    ensures
        as_position(r) == closer_length(b@, pos as int),
{
    let n: usize = b.len();
    if n <= pos {
        return None;
    }
    if b[pos] == DOT && 1 < n - pos && b[pos + 1] == CLOSE {
        Some(2)
    } else if b[pos] == DOT || b[pos] == CLOSE {
        Some(1)
    } else {
        None
    }
}

/// `n` characters of one kind and a closer, where there are at least `least`.
pub open spec fn run_and_closer(b: Seq<u8>, n: int, least: int) -> Option<int> {
    if n < least {
        None
    } else {
        match closer_length(b, n) {
            Some(c) => Some(n + c),
            None => None,
        }
    }
}

/// `12.`, `12)` or `12.)`.
pub open spec fn numeric_marker(b: Seq<u8>) -> Option<int> {
    run_and_closer(b, digit_run(b), 1)
}

/// `ii.`, `iii)` or `ii.)`: at least two Roman letters.
pub open spec fn roman_marker(b: Seq<u8>) -> Option<int> {
    run_and_closer(b, roman_run(b), 2)
}

/// `a)` or `a.)`.
pub open spec fn letter_paren_marker(b: Seq<u8>) -> Option<int> {
    if b.len() < 2 || !letter_byte(b[0]) {
        None
    } else if b[1] == CLOSE {
        Some(2)
    } else if b[1] == DOT && 2 < b.len() && b[2] == CLOSE {
        Some(3)
    } else {
        None
    }
}

/// `a.` in lower case.
pub open spec fn letter_dot_marker(b: Seq<u8>) -> Option<int> {
    if b.len() >= 2 && lower_byte(b[0]) && b[1] == DOT {
        Some(2)
    } else {
        None
    }
}

/// `*`, `+` or `-`. Dashes are left out: they are common in running text.
pub open spec fn ascii_bullet_marker(b: Seq<u8>) -> Option<int> {
    if b.len() > 0 && (b[0] == 0x2a || b[0] == 0x2b || b[0] == 0x2d) {
        Some(1)
    } else {
        None
    }
}

/// What may stand between parentheses: one or two digits, one letter, or Roman
/// letters. Years and padded numbers are citations, not markers.
pub open spec fn short_inner(inner: Seq<u8>) -> bool {
    ||| 1 <= inner.len() <= 2 && forall|i: int| 0 <= i < inner.len() ==> digit_byte(#[trigger] inner[i])
    ||| inner.len() == 1 && letter_byte(inner[0])
    ||| inner.len() > 0 && forall|i: int| 0 <= i < inner.len() ==> roman_byte(#[trigger] inner[i])
}

/// `(1)`, `(12)`, `(a)` or `(iv)`.
pub open spec fn paren_marker(b: Seq<u8>) -> Option<int> {
    let close = next_byte(b, CLOSE, 1);
    if b.len() > 0 && b[0] == OPEN && close < b.len() && short_inner(b.subrange(1, close)) {
        Some(close + 1)
    } else {
        None
    }
}

/// One of the bullets beyond ASCII.
pub open spec fn unicode_bullet_marker(t: Seq<char>) -> Option<int> {
    if t.len() > 0 && UNICODE_BULLETS@.contains(t[0]) {
        Some(encode_scalar(t[0] as u32).len() as int)
    } else {
        None
    }
}

/// The marker that `t` starts with: its family and its length. The order of the
/// questions is their priority; two or more Roman letters come before one letter.
pub open spec fn marker(t: Seq<char>) -> Option<(MarkerFamily, int)> {
    let b = encode_utf8(t);
    if let Some(n) = unicode_bullet_marker(t) {
        Some((MarkerFamily::Tier1, n))
    } else if let Some(n) = paren_marker(b) {
        Some((MarkerFamily::Tier1, n))
    } else if let Some(n) = roman_marker(b) {
        Some((MarkerFamily::Roman, n))
    } else if let Some(n) = numeric_marker(b) {
        Some((MarkerFamily::Numeric, n))
    } else if let Some(n) = ascii_bullet_marker(b) {
        Some((MarkerFamily::Bullet, n))
    } else if let Some(n) = letter_paren_marker(b) {
        Some((MarkerFamily::LetterParen, n))
    } else if let Some(n) = letter_dot_marker(b) {
        Some((MarkerFamily::LetterDot, n))
    } else {
        None
    }
}


pub fn match_unicode_bullet(s: &str) -> (r: Option<usize>)
    ensures
        as_position(r) == unicode_bullet_marker(s@),
{
    match first_char(s) {
        Some(c) => {
            let mut i: usize = 0;
            while i < UNICODE_BULLETS.len()
                invariant
                    s@.len() > 0,
                    s@[0] == c,
                    i <= 21,
                    forall|j: int| 0 <= j < i ==> UNICODE_BULLETS@[j] != c,
                decreases 21 - i,
            {
                if UNICODE_BULLETS[i] == c {
                    proof {
                        lemma_first(s@);
                        lemma_cut_ends(s@);
                        lemma_whole(s@);
                        assert(UNICODE_BULLETS@[i as int] == c);
                    }
                    let (_, n) = step(s, 0);
                    proof {
                        let w = encode_scalar(c as u32).len() as int;
                        assert(n == w) by {
                            if w < n {
                                assert(is_cut(s@, w));
                            } else if n < w {
                                assert(is_continuation_byte(encode_utf8(s@)[n as int]));
                            }
                        }
                    }
                    return Some(n);
                }
                i += 1;
            }
            None
        },
        None => None,
    }
}

pub fn match_ascii_bullet(s: &str) -> (r: Option<usize>)
    ensures
        as_position(r) == ascii_bullet_marker(encode_utf8(s@)),
{
    let b = s.as_bytes();
    if b.len() > 0 && (b[0] == 0x2a || b[0] == 0x2b || b[0] == 0x2d) {
        Some(1)
    } else {
        None
    }
}

pub fn match_numeric(s: &str) -> (r: Option<usize>)
    ensures
        as_position(r) == numeric_marker(encode_utf8(s@)),
{
    let b = s.as_bytes();
    let mut n: usize = 0;
    proof {
        assert(b@.skip(0) =~= b@);
    }
    while n < b.len() && 0x30 <= b[n] && b[n] <= 0x39
        invariant
            n <= b@.len(),
            digit_run(b@) == n + digit_run(b@.skip(n as int)),
        decreases b@.len() - n,
    {
        proof {
            assert(b@.skip(n as int).drop_first() =~= b@.skip(n + 1));
        }
        n += 1;
    }
    if n == 0 {
        return None;
    }
    match closer_len_at(b, n) {
        Some(c) => Some(n + c),
        None => None,
    }
}

pub fn match_roman(s: &str) -> (r: Option<usize>)
    ensures
        as_position(r) == roman_marker(encode_utf8(s@)),
{
    let b = s.as_bytes();
    let mut n: usize = 0;
    proof {
        assert(b@.skip(0) =~= b@);
    }
    while n < b.len() && is_roman_byte(b[n])
        invariant
            n <= b@.len(),
            roman_run(b@) == n + roman_run(b@.skip(n as int)),
        decreases b@.len() - n,
    {
        proof {
            assert(b@.skip(n as int).drop_first() =~= b@.skip(n + 1));
        }
        n += 1;
    }
    if n < 2 {
        return None;
    }
    match closer_len_at(b, n) {
        Some(c) => Some(n + c),
        None => None,
    }
}

pub fn match_letter_paren(s: &str) -> (r: Option<usize>)
    ensures
        as_position(r) == letter_paren_marker(encode_utf8(s@)),
{
    let b = s.as_bytes();
    if b.len() < 2 || !((0x41 <= b[0] && b[0] <= 0x5a) || (0x61 <= b[0] && b[0] <= 0x7a)) {
        return None;
    }
    if b[1] == CLOSE {
        Some(2)
    } else if b[1] == DOT && 2 < b.len() && b[2] == CLOSE {
        Some(3)
    } else {
        None
    }
}

pub fn match_letter_dot(s: &str) -> (r: Option<usize>)
    ensures
        as_position(r) == letter_dot_marker(encode_utf8(s@)),
{
    let b = s.as_bytes();
    if b.len() >= 2 && 0x61 <= b[0] && b[0] <= 0x7a && b[1] == DOT {
        Some(2)
    } else {
        None
    }
}

/// The position of the first `)` behind the start of `b`, or the length of `b`.
fn find_close(b: &[u8]) -> (r: usize)
    requires
        b@.len() > 0,
    ensures
        r == next_byte(b@, CLOSE, 1),
        1 <= r <= b@.len(),
{
    let mut i: usize = 1;
    while i < b.len() && b[i] != CLOSE
        invariant
            1 <= i <= b@.len(),
            next_byte(b@, CLOSE, 1) == next_byte(b@, CLOSE, i as int),
        decreases b@.len() - i,
    {
        i += 1;
    }
    i
}

pub fn match_paren_form(s: &str) -> (r: Option<usize>)
    ensures
        as_position(r) == paren_marker(encode_utf8(s@)),
{
    let b = s.as_bytes();
    if b.len() == 0 || b[0] != OPEN {
        return None;
    }
    let close = find_close(b);
    if close == b.len() {
        return None;
    }
    let mut digits: bool = true;
    let mut roman: bool = true;
    let mut i: usize = 1;
    let ghost inner = b@.subrange(1, close as int);
    while i < close
        invariant
            1 <= i <= close < b@.len(),
            inner == b@.subrange(1, close as int),
            digits <==> forall|j: int| 0 <= j < i - 1 ==> digit_byte(#[trigger] inner[j]),
            roman <==> forall|j: int| 0 <= j < i - 1 ==> roman_byte(#[trigger] inner[j]),
        decreases close - i,
    {
        proof {
            assert(inner[i - 1] == b@[i as int]);
        }
        digits = digits && 0x30 <= b[i] && b[i] <= 0x39;
        roman = roman && is_roman_byte(b[i]);
        i += 1;
    }
    let n: usize = close - 1;
    let short_numeric: bool = 1 <= n && n <= 2 && digits;
    let single_letter: bool = n == 1 && ((0x41 <= b[1] && b[1] <= 0x5a) || (0x61 <= b[1] && b[1]
        <= 0x7a));
    if short_numeric || single_letter || (0 < n && roman) {
        Some(close + 1)
    } else {
        None
    }
}

/// The end of a marker lies within its text, at a cut.
pub proof fn lemma_marker(t: Seq<char>)
    ensures
        marker(t) matches Some((f, n)) ==> 0 < n <= size(t) && is_cut(t, n),
{
    let b = encode_utf8(t);
    if let Some((f, n)) = marker(t) {
        if unicode_bullet_marker(t) is Some {
            lemma_first(t);
        } else {
            lemma_runs(b);
            lemma_next_byte(b, CLOSE, 1);
            assert(0 < n <= b.len() && b[n - 1] < 0x80);
            lemma_ascii(t, n - 1);
        }
    }
}

pub proof fn lemma_runs(b: Seq<u8>)
    ensures
        0 <= digit_run(b) <= b.len(),
        0 <= roman_run(b) <= b.len(),
    decreases b.len(),
{
    if b.len() > 0 {
        lemma_runs(b.drop_first());
    }
}

pub proof fn lemma_next_byte(b: Seq<u8>, x: u8, from: int)
    ensures
        0 <= from ==> next_byte(b, x, from) <= b.len() && (next_byte(b, x, from) < b.len() ==> from
            <= next_byte(b, x, from) && b[next_byte(b, x, from)] == x),
    decreases b.len() - from,
{
    if 0 <= from < b.len() && b[from] != x {
        lemma_next_byte(b, x, from + 1);
    }
}

pub fn consume_marker(s: &str) -> (r: Option<(MarkerFamily, usize)>)
    ensures
        r is Some <==> marker(s@) is Some,
        r matches Some(m) ==> marker(s@) == Some((m.0, m.1 as int)) && 0 < m.1 <= size(s@) && is_cut(
            s@,
            m.1 as int,
        ),
{
    proof {
        lemma_marker(s@);
    }
    if let Some(n) = match_unicode_bullet(s) {
        return Some((MarkerFamily::Tier1, n));
    }
    if let Some(n) = match_paren_form(s) {
        return Some((MarkerFamily::Tier1, n));
    }
    if let Some(n) = match_roman(s) {
        return Some((MarkerFamily::Roman, n));
    }
    if let Some(n) = match_numeric(s) {
        return Some((MarkerFamily::Numeric, n));
    }
    if let Some(n) = match_ascii_bullet(s) {
        return Some((MarkerFamily::Bullet, n));
    }
    if let Some(n) = match_letter_paren(s) {
        return Some((MarkerFamily::LetterParen, n));
    }
    if let Some(n) = match_letter_dot(s) {
        return Some((MarkerFamily::LetterDot, n));
    }
    None
}


// Lines.

/// The first character behind spaces or tabs, of which there must be one, unless
/// the line ends there.
pub open spec fn next_content(t: Seq<char>) -> Option<char> {
    let rest = strip_front::<HorizontalSpace>(t);
    if rest.len() == t.len() || rest.len() == 0 || rest[0] == '\n' || rest[0] == '\r' {
        None
    } else {
        Some(rest[0])
    }
}

pub fn next_content_char(after_marker: &str) -> (r: Option<char>)
    ensures
        r == next_content(after_marker@),
{
    let n: usize = front_run::<HorizontalSpace>(after_marker, true);
    let rest = tail(after_marker, n);
    proof {
        lemma_split(after_marker@, n as int);
        lemma_size(before(after_marker@, n as int));
    }
    if n == 0 {
        return None;
    }
    match first_char(rest) {
        Some(c) => {
            if c != '\n' && c != '\r' {
                Some(c)
            } else {
                None
            }
        },
        None => None,
    }
}

/// The marker at the start of a line, behind its indent: family, length and
/// first byte.
pub open spec fn line_marker(line: Seq<char>) -> Option<(MarkerFamily, int, u8)> {
    let rest = strip_front::<HorizontalSpace>(line);
    match marker(rest) {
        Some((f, n)) => if next_content(after(rest, n)) is Some {
            Some((f, n, encode_utf8(rest)[0]))
        } else {
            None
        },
        None => None,
    }
}

pub open spec fn as_marker(r: Option<(MarkerFamily, usize, u8)>) -> Option<(MarkerFamily, int, u8)> {
    match r {
        Some((f, n, b)) => Some((f, n as int, b)),
        None => None,
    }
}

pub fn classify_line(line: &str) -> (r: Option<(MarkerFamily, usize, u8)>)
    ensures
        as_marker(r) == line_marker(line@),
{
    let rest = trim_front::<HorizontalSpace>(line);
    match consume_marker(rest) {
        Some((family, n)) => {
            let first_byte: u8 = rest.as_bytes()[0];
            match next_content_char(tail(rest, n)) {
                Some(_) => Some((family, n, first_byte)),
                None => None,
            }
        },
        None => None,
    }
}

/// True when a marker of the family `f` that ends in `.` closes with nothing else.
pub open spec fn bare_dot(f: MarkerFamily, last: u8) -> bool {
    last == DOT && (f == MarkerFamily::Numeric || f == MarkerFamily::LetterDot || f
        == MarkerFamily::Roman)
}

/// The marker that `t` starts with, where it may stand within a line. Three kinds
/// are too common in running text: those that close with a bare dot, those before
/// a lower case letter, and ASCII bullets.
pub open spec fn inline_marker(t: Seq<char>) -> Option<(MarkerFamily, int, u8)> {
    match marker(t) {
        Some((f, n)) => match next_content(after(t, n)) {
            Some(c) => if bare_dot(f, encode_utf8(t)[n - 1]) || unicode_lowercase(c) || f
                == MarkerFamily::Bullet {
                None
            } else {
                Some((f, n, encode_utf8(t)[0]))
            },
            None => None,
        },
        None => None,
    }
}

pub fn classify_marker_at(s: &str) -> (r: Option<(MarkerFamily, usize, u8)>)
    ensures
        as_marker(r) == inline_marker(s@),
{
    match consume_marker(s) {
        Some((family, n)) => {
            let b = s.as_bytes();
            let first_byte: u8 = b[0];
            let last_byte: u8 = b[n - 1];
            let bare_dot_closer: bool = last_byte == DOT && (family == MarkerFamily::Numeric
                || family == MarkerFamily::LetterDot || family == MarkerFamily::Roman);
            if bare_dot_closer {
                return None;
            }
            match next_content_char(tail(s, n)) {
                Some(next) => {
                    if next.is_lowercase() || family == MarkerFamily::Bullet {
                        None
                    } else {
                        Some((family, n, first_byte))
                    }
                },
                None => None,
            }
        },
        None => None,
    }
}

/// The first position from `i` on, up to `end`, that holds neither space nor tab.
pub open spec fn ws_end(b: Seq<u8>, i: int, end: int) -> int
    decreases end - i,
{
    if i < end && horiz_ws(b[i]) {
        ws_end(b, i + 1, end)
    } else {
        i
    }
}

/// What stands at `i` in the line of `t` that ends at `end`: a candidate, where
/// white space comes to its end and a marker follows.
pub open spec fn candidate_at(t: Seq<char>, i: int, end: int) -> Seq<Candidate> {
    let b = encode_utf8(t);
    if horiz_ws(b[i - 1]) && !horiz_ws(b[i]) && b[i] != NEWLINE && b[i] != RETURN {
        match inline_marker(between(t, i, end)) {
            Some((family, n, first_byte)) => seq![
                Candidate { pos: i as usize, family, first_byte, line_start: false },
            ],
            None => Seq::empty(),
        }
    } else {
        Seq::empty()
    }
}

/// The candidates within a line, from the position `i` on.
pub open spec fn inline_candidates(t: Seq<char>, i: int, end: int) -> Seq<Candidate>
    decreases end - i,
{
    if i < end {
        candidate_at(t, i, end) + inline_candidates(t, i + 1, end)
    } else {
        Seq::empty()
    }
}

/// The candidates of the line of `t` from `start` to `end`.
pub open spec fn line_candidates(t: Seq<char>, start: int, end: int) -> Seq<Candidate> {
    let first = match line_marker(between(t, start, end)) {
        Some((family, n, first_byte)) => seq![
            Candidate { pos: start as usize, family, first_byte, line_start: true },
        ],
        None => Seq::empty(),
    };
    first + inline_candidates(t, ws_end(encode_utf8(t), start, end) + 1, end)
}

/// Adds the candidates of one line of `text` to `out`.
pub fn scan_line(text: &str, line_start: usize, line_end: usize, out: &mut Vec<Candidate>)
    requires
        is_cut(text@, line_start as int),
        is_cut(text@, line_end as int),
        line_start <= line_end,
    ensures
        final(out)@ == old(out)@ + line_candidates(text@, line_start as int, line_end as int),
{
    let line = piece(text, line_start, line_end);
    match classify_line(line) {
        Some((family, _, first_byte)) => {
            out.push(Candidate { pos: line_start, family, first_byte, line_start: true });
        },
        None => {},
    }
    let ghost begun = out@;
    let bytes = text.as_bytes();
    let mut i: usize = line_start;
    while i < line_end && is_horiz_ws(bytes[i])
        invariant
            line_start <= i <= line_end <= bytes@.len(),
            bytes@ == encode_utf8(text@),
            ws_end(bytes@, line_start as int, line_end as int) == ws_end(
                bytes@,
                i as int,
                line_end as int,
            ),
        decreases line_end - i,
    {
        i += 1;
    }
    let ghost goal = begun + inline_candidates(text@, i + 1, line_end as int);
    while i < line_end
        invariant
            line_start <= i <= line_end <= bytes@.len(),
            bytes@ == encode_utf8(text@),
            is_cut(text@, line_end as int),
            goal == out@ + inline_candidates(text@, i + 1, line_end as int),
        decreases line_end - i,
    {
        if is_horiz_ws(bytes[i]) {
            let mut end: usize = i + 1;
            while end < line_end && is_horiz_ws(bytes[end])
                invariant
                    line_start <= i < end <= line_end <= bytes@.len(),
                    bytes@ == encode_utf8(text@),
                    forall|k: int| i <= k < end ==> horiz_ws(#[trigger] bytes@[k]),
                    goal == out@ + inline_candidates(text@, end as int, line_end as int),
                decreases line_end - end,
            {
                proof {
                    assert(candidate_at(text@, end as int, line_end as int) =~= Seq::empty());
                    assert(inline_candidates(text@, end as int, line_end as int)
                        =~= inline_candidates(text@, end + 1, line_end as int));
                }
                end += 1;
            }
            proof {
                assert(horiz_ws(bytes@[end - 1]));
                lemma_ascii(text@, end - 1);
            }
            let ghost earlier = out@;
            if end < line_end && bytes[end] != NEWLINE && bytes[end] != RETURN {
                match classify_marker_at(piece(text, end, line_end)) {
                    Some((family, _, first_byte)) => {
                        out.push(Candidate { pos: end, family, first_byte, line_start: false });
                    },
                    None => {},
                }
            }
            proof {
                if end < line_end {
                    assert(out@ =~= earlier + candidate_at(text@, end as int, line_end as int));
                    assert(goal =~= out@ + inline_candidates(text@, end + 1, line_end as int));
                }
            }
            i = end;
        } else {
            proof {
                if i + 1 < line_end {
                    assert(candidate_at(text@, i + 1, line_end as int) =~= Seq::empty());
                    assert(inline_candidates(text@, i + 1, line_end as int) =~= inline_candidates(
                        text@,
                        i + 2,
                        line_end as int,
                    ));
                }
            }
            i += 1;
        }
    }
    proof {
        assert(goal =~= out@);
        assert(out@ =~= old(out)@ + line_candidates(text@, line_start as int, line_end as int));
    }
}


// Choosing the items among the candidates.

impl Keyed for Candidate {
    /// By position, and at one position the start of a line first.
    open spec fn key(&self) -> int {
        2 * self.pos + if self.line_start {
            0int
        } else {
            1int
        }
    }

    fn precedes(&self, other: &Self) -> bool {
        self.pos < other.pos || (self.pos == other.pos && (self.line_start || !other.line_start))
    }
}

/// `s` without the candidates that stand where the one before stands.
pub open spec fn distinct(s: Seq<Candidate>) -> Seq<Candidate>
    decreases s.len(),
{
    if s.len() == 0 {
        s
    } else {
        let d = distinct(s.drop_last());
        if d.len() > 0 && d.last().pos == s.last().pos {
            d
        } else {
            d.push(s.last())
        }
    }
}

/// `c` as a Roman marker, where it is a single Roman letter.
pub open spec fn as_roman(c: Candidate) -> Candidate {
    if (c.family == MarkerFamily::LetterDot || c.family == MarkerFamily::LetterParen) && roman_byte(
        c.first_byte,
    ) {
        Candidate { family: MarkerFamily::Roman, ..c }
    } else {
        c
    }
}

pub open spec fn has_roman(s: Seq<Candidate>) -> bool {
    exists|i: int| 0 <= i < s.len() && (#[trigger] s[i]).family == MarkerFamily::Roman
}

/// Beside longer Roman markers, single Roman letters are Roman markers too.
pub open spec fn promoted(s: Seq<Candidate>) -> Seq<Candidate> {
    if has_roman(s) {
        s.map_values(|c: Candidate| as_roman(c))
    } else {
        s
    }
}

/// Where the last candidate of the family `f` stands.
pub open spec fn last_of(s: Seq<Candidate>, f: MarkerFamily) -> Option<int>
    decreases s.len(),
{
    if s.len() == 0 {
        None
    } else if s.last().family == f {
        Some(s.last().pos as int)
    } else {
        last_of(s.drop_last(), f)
    }
}

/// `s` without the candidates that come too soon behind one of their family that
/// is kept: an item has content.
pub open spec fn pruned(s: Seq<Candidate>) -> Seq<Candidate>
    decreases s.len(),
{
    if s.len() == 0 {
        s
    } else {
        let kept = pruned(s.drop_last());
        match last_of(kept, s.last().family) {
            Some(p) => if s.last().pos - p >= MIN_GAP_BYTES {
                kept.push(s.last())
            } else {
                kept
            },
            None => kept.push(s.last()),
        }
    }
}

/// How many candidates are of the family `f`.
pub open spec fn count_of(s: Seq<Candidate>, f: MarkerFamily) -> int
    decreases s.len(),
{
    if s.len() == 0 {
        0
    } else {
        count_of(s.drop_last(), f) + if s.last().family == f {
            1int
        } else {
            0int
        }
    }
}

/// The positions of the candidates of the family `f`.
pub open spec fn positions_of(s: Seq<Candidate>, f: MarkerFamily) -> Seq<usize>
    decreases s.len(),
{
    if s.len() == 0 {
        Seq::empty()
    } else if s.last().family == f {
        positions_of(s.drop_last(), f).push(s.last().pos)
    } else {
        positions_of(s.drop_last(), f)
    }
}

/// The families that make a list only where there are two of them.
pub const TIER2: [MarkerFamily; 5] = [
    MarkerFamily::Bullet,
    MarkerFamily::Numeric,
    MarkerFamily::LetterParen,
    MarkerFamily::LetterDot,
    MarkerFamily::Roman,
];

/// The best of the first `n` families of the second tier: the one with the most
/// candidates, and among equals the one that comes first in the text.
pub open spec fn best_of(s: Seq<Candidate>, n: int) -> Option<MarkerFamily>
    decreases n,
{
    if n <= 0 {
        None
    } else {
        let f = TIER2@[n - 1];
        match best_of(s, n - 1) {
            _ if count_of(s, f) < 2 => best_of(s, n - 1),
            None => Some(f),
            Some(g) => if count_of(s, f) > count_of(s, g) || (count_of(s, f) == count_of(s, g)
                && positions_of(s, f)[0] < positions_of(s, g)[0]) {
                Some(f)
            } else {
                Some(g)
            },
        }
    }
}

/// The family whose candidates are the items.
pub open spec fn winner(s: Seq<Candidate>) -> Option<MarkerFamily> {
    if count_of(s, MarkerFamily::Tier1) >= 2 || exists|i: int|
        0 <= i < s.len() && (#[trigger] s[i]).family == MarkerFamily::Tier1 && s[i].line_start {
        Some(MarkerFamily::Tier1)
    } else {
        best_of(s, 5)
    }
}

/// The candidates that the winner is chosen from.
pub open spec fn contenders(s: Seq<Candidate>) -> Seq<Candidate> {
    pruned(promoted(distinct(sorted(s))))
}

/// Where the items start.
pub open spec fn accepted(s: Seq<Candidate>) -> Seq<usize> {
    match winner(contenders(s)) {
        Some(f) => positions_of(contenders(s), f),
        None => Seq::empty(),
    }
}

fn dedup(candidates: &Vec<Candidate>) -> (r: Vec<Candidate>)
    ensures
        r@ == distinct(candidates@),
{
    let mut out: Vec<Candidate> = Vec::new();
    let mut i: usize = 0;
    while i < candidates.len()
        invariant
            i <= candidates@.len(),
            out@ == distinct(candidates@.take(i as int)),
        decreases candidates@.len() - i,
    {
        proof {
            assert(candidates@.take(i + 1).drop_last() =~= candidates@.take(i as int));
        }
        if out.len() == 0 || out[out.len() - 1].pos != candidates[i].pos {
            out.push(candidates[i]);
        }
        i += 1;
    }
    proof {
        assert(candidates@.take(i as int) =~= candidates@);
    }
    out
}

fn promote(candidates: Vec<Candidate>) -> (r: Vec<Candidate>)
    ensures
        r@ == promoted(candidates@),
{
    let mut any: bool = false;
    let mut i: usize = 0;
    while i < candidates.len()
        invariant
            i <= candidates@.len(),
            any <==> exists|j: int|
                0 <= j < i && (#[trigger] candidates@[j]).family == MarkerFamily::Roman,
        decreases candidates@.len() - i,
    {
        if candidates[i].family == MarkerFamily::Roman {
            any = true;
        }
        i += 1;
    }
    if !any {
        return candidates;
    }
    let mut out: Vec<Candidate> = Vec::new();
    let mut k: usize = 0;
    while k < candidates.len()
        invariant
            k <= candidates@.len(),
            out@.len() == k,
            forall|j: int| 0 <= j < k ==> #[trigger] out@[j] == as_roman(candidates@[j]),
        decreases candidates@.len() - k,
    {
        let mut c: Candidate = candidates[k];
        if (c.family == MarkerFamily::LetterDot || c.family == MarkerFamily::LetterParen)
            && is_roman_byte(c.first_byte) {
            c.family = MarkerFamily::Roman;
        }
        out.push(c);
        k += 1;
    }
    proof {
        assert(out@ =~= promoted(candidates@));
    }
    out
}

/// The family at each place.
pub open spec fn family_at(i: int) -> MarkerFamily {
    if i == 0 {
        MarkerFamily::Tier1
    } else if i == 1 {
        MarkerFamily::Bullet
    } else if i == 2 {
        MarkerFamily::Numeric
    } else if i == 3 {
        MarkerFamily::LetterParen
    } else if i == 4 {
        MarkerFamily::LetterDot
    } else {
        MarkerFamily::Roman
    }
}

fn prune(candidates: &Vec<Candidate>) -> (r: Vec<Candidate>)
    requires
        forall|i: int, j: int|
            0 <= i <= j < candidates@.len() ==> (#[trigger] candidates@[i]).pos <= (
            #[trigger] candidates@[j]).pos,
    ensures
        r@ == pruned(candidates@),
{
    let mut out: Vec<Candidate> = Vec::new();
    let mut last: Vec<Option<usize>> = vec![None, None, None, None, None, None];
    let mut i: usize = 0;
    while i < candidates.len()
        invariant
            i <= candidates@.len(),
            out@ == pruned(candidates@.take(i as int)),
            last@.len() == FAMILY_COUNT,
            forall|f: int|
                0 <= f < FAMILY_COUNT ==> as_position(#[trigger] last@[f]) == last_of(
                    out@,
                    family_at(f),
                ),
            forall|f: int, k: int|
                0 <= f < FAMILY_COUNT && i <= k < candidates@.len() && (
                #[trigger] last@[f]) is Some ==> last@[f]->0 <= (#[trigger] candidates@[k]).pos,
            forall|i: int, j: int|
                0 <= i <= j < candidates@.len() ==> (#[trigger] candidates@[i]).pos <= (
                #[trigger] candidates@[j]).pos,
        decreases candidates@.len() - i,
    {
        let c: Candidate = candidates[i];
        let f: usize = c.family.idx();
        proof {
            assert(candidates@.take(i + 1).drop_last() =~= candidates@.take(i as int));
            assert(candidates@[i as int] == c);
            assert(family_at(f as int) == c.family);
        }
        let keep: bool = match last[f] {
            Some(p) => c.pos - p >= MIN_GAP_BYTES,
            None => true,
        };
        if keep {
            let ghost was = out@;
            out.push(c);
            last.set(f, Some(c.pos));
            proof {
                assert(out@.drop_last() =~= was);
                assert forall|g: int| 0 <= g < FAMILY_COUNT implies as_position(#[trigger] last@[g])
                    == last_of(out@, family_at(g)) by {
                    assert(family_at(g).index() == g);
                }
            }
        }
        i += 1;
    }
    proof {
        assert(candidates@.take(i as int) =~= candidates@);
    }
    out
}


/// True when each candidate stands behind the one before.
pub open spec fn ascending(s: Seq<Candidate>) -> bool {
    forall|i: int, j: int| 0 <= i < j < s.len() ==> (#[trigger] s[i]).pos < (#[trigger] s[j]).pos
}

proof fn lemma_distinct(s: Seq<Candidate>)
    requires
        in_order(s),
    ensures
        ascending(distinct(s)),
        distinct(s).len() <= s.len(),
        s.len() > 0 ==> distinct(s).len() > 0 && distinct(s).last().pos == s.last().pos,
        forall|c: Candidate| #[trigger] distinct(s).contains(c) ==> s.contains(c),
    decreases s.len(),
{
    if s.len() > 0 {
        let front = s.drop_last();
        lemma_distinct(front);
        if front.len() > 0 {
            assert(s[s.len() - 2].key() <= s[s.len() - 1].key());
        }
        assert forall|c: Candidate| #[trigger] distinct(s).contains(c) implies s.contains(c) by {
            let i = distinct(s).index_of(c);
            if i < distinct(front).len() {
                assert(distinct(front)[i] == c);
                assert(distinct(front).contains(c));
                assert(s[front.index_of(c)] == c);
            } else {
                assert(s[s.len() - 1] == c);
            }
        }
    }
}

proof fn lemma_promoted(s: Seq<Candidate>)
    ensures
        promoted(s).len() == s.len(),
        forall|i: int|
            0 <= i < s.len() ==> (#[trigger] promoted(s)[i]).pos == s[i].pos
                && promoted(s)[i].line_start == s[i].line_start,
{
}

/// Two candidates of one family that are kept lie far enough apart.
pub open spec fn spaced(s: Seq<Candidate>) -> bool {
    forall|i: int, j: int|
        0 <= i < j < s.len() && (#[trigger] s[i]).family == (#[trigger] s[j]).family ==> s[i].pos
            + MIN_GAP_BYTES <= s[j].pos
}

proof fn lemma_last_of(s: Seq<Candidate>, f: MarkerFamily)
    requires
        ascending(s),
    ensures
        forall|i: int|
            0 <= i < s.len() && (#[trigger] s[i]).family == f ==> last_of(s, f) is Some && s[i].pos
                <= last_of(s, f)->0,
    decreases s.len(),
{
    if s.len() > 0 {
        lemma_last_of(s.drop_last(), f);
        assert forall|i: int|
            0 <= i < s.len() && (#[trigger] s[i]).family == f implies last_of(s, f) is Some
            && s[i].pos <= last_of(s, f)->0 by {
            if i < s.len() - 1 {
                assert(s.drop_last()[i] == s[i]);
            }
        }
    }
}

proof fn lemma_pruned(s: Seq<Candidate>)
    requires
        ascending(s),
    ensures
        ascending(pruned(s)),
        spaced(pruned(s)),
        pruned(s).len() <= s.len(),
        s.len() > 0 && pruned(s).len() > 0 ==> pruned(s).last().pos <= s.last().pos,
        forall|c: Candidate| #[trigger] pruned(s).contains(c) ==> s.contains(c),
    decreases s.len(),
{
    if s.len() > 0 {
        let front = s.drop_last();
        let kept = pruned(front);
        lemma_pruned(front);
        lemma_last_of(kept, s.last().family);
        assert forall|i: int| 0 <= i < kept.len() implies (#[trigger] kept[i]).pos
            < s.last().pos by {
            assert(kept.contains(kept[i]));
            let k = front.index_of(kept[i]);
            assert(s[k].pos < s[s.len() - 1].pos);
        }
        assert forall|c: Candidate| #[trigger] pruned(s).contains(c) implies s.contains(c) by {
            let i = pruned(s).index_of(c);
            if i < kept.len() {
                assert(kept[i] == c);
                assert(kept.contains(c));
                assert(s[front.index_of(c)] == c);
            } else {
                assert(s[s.len() - 1] == c);
            }
        }
    }
}

proof fn lemma_positions_of(s: Seq<Candidate>, f: MarkerFamily)
    requires
        ascending(s),
        spaced(s),
    ensures
        positions_of(s, f).len() == count_of(s, f),
        count_of(s, f) <= s.len(),
        forall|i: int|
            0 <= i < positions_of(s, f).len() ==> exists|k: int|
                0 <= k < s.len() && #[trigger] s[k].pos == #[trigger] positions_of(s, f)[i]
                    && s[k].family == f,
        forall|i: int, j: int|
            0 <= i < j < positions_of(s, f).len() ==> #[trigger] positions_of(s, f)[i]
                + MIN_GAP_BYTES <= #[trigger] positions_of(s, f)[j],
    decreases s.len(),
{
    if s.len() > 0 {
        let front = s.drop_last();
        lemma_positions_of(front, f);
        let p = positions_of(s, f);
        let q = positions_of(front, f);
        assert forall|i: int| 0 <= i < p.len() implies exists|k: int|
            0 <= k < s.len() && #[trigger] s[k].pos == #[trigger] p[i] && s[k].family == f by {
            if i < q.len() {
                assert(p[i] == q[i]);
                let k = choose|k: int|
                    0 <= k < front.len() && #[trigger] front[k].pos == q[i] && front[k].family == f;
                assert(s[k].pos == p[i]);
            } else {
                assert(s[s.len() - 1].pos == p[i]);
            }
        }
        assert forall|i: int, j: int| 0 <= i < j < p.len() implies #[trigger] p[i] + MIN_GAP_BYTES
            <= #[trigger] p[j] by {
            if j < q.len() {
                assert(p[i] == q[i]);
                assert(p[j] == q[j]);
            } else {
                assert(p[i] == q[i]);
                let k = choose|k: int|
                    0 <= k < front.len() && #[trigger] front[k].pos == q[i] && front[k].family == f;
                assert(s[k].pos == q[i] && s[k].family == s[s.len() - 1].family);
            }
        }
    }
}

proof fn lemma_contenders(s: Seq<Candidate>)
    ensures
        ascending(contenders(s)),
        spaced(contenders(s)),
        forall|i: int|
            0 <= i < contenders(s).len() ==> exists|k: int|
                0 <= k < s.len() && #[trigger] s[k].pos == (#[trigger] contenders(s)[i]).pos,
{
    let a = sorted(s);
    lemma_sorted(s);
    let d = distinct(a);
    lemma_distinct(a);
    let p = promoted(d);
    lemma_promoted(d);
    assert(ascending(p)) by {
        assert forall|i: int, j: int| 0 <= i < j < p.len() implies (#[trigger] p[i]).pos < (
        #[trigger] p[j]).pos by {
            assert(d[i].pos < d[j].pos);
        }
    }
    lemma_pruned(p);
    let r = pruned(p);
    assert forall|i: int| 0 <= i < r.len() implies exists|k: int|
        0 <= k < s.len() && #[trigger] s[k].pos == (#[trigger] r[i]).pos by {
        assert(r.contains(r[i]));
        let k = p.index_of(r[i]);
        assert(d.contains(d[k]));
        assert(a.contains(d[k]));
        assert(s.contains(d[k]));
        let m = s.index_of(d[k]);
        assert(s[m].pos == r[i].pos);
    }
}

fn count_family(candidates: &Vec<Candidate>, f: MarkerFamily) -> (r: usize)
    ensures
        r == count_of(candidates@, f),
{
    let mut n: usize = 0;
    let mut i: usize = 0;
    while i < candidates.len()
        invariant
            i <= candidates@.len(),
            n <= i,
            n == count_of(candidates@.take(i as int), f),
        decreases candidates@.len() - i,
    {
        proof {
            assert(candidates@.take(i + 1).drop_last() =~= candidates@.take(i as int));
        }
        if candidates[i].family == f {
            n += 1;
        }
        i += 1;
    }
    proof {
        assert(candidates@.take(i as int) =~= candidates@);
    }
    n
}

fn family_positions(candidates: &Vec<Candidate>, f: MarkerFamily) -> (r: Vec<usize>)
    ensures
        r@ == positions_of(candidates@, f),
{
    let mut out: Vec<usize> = Vec::new();
    let mut i: usize = 0;
    while i < candidates.len()
        invariant
            i <= candidates@.len(),
            out@ == positions_of(candidates@.take(i as int), f),
        decreases candidates@.len() - i,
    {
        proof {
            assert(candidates@.take(i + 1).drop_last() =~= candidates@.take(i as int));
        }
        if candidates[i].family == f {
            out.push(candidates[i].pos);
        }
        i += 1;
    }
    proof {
        assert(candidates@.take(i as int) =~= candidates@);
    }
    out
}

pub proof fn lemma_best_of(s: Seq<Candidate>, n: int)
    requires
        n <= 5,
    ensures
        best_of(s, n) matches Some(f) ==> count_of(s, f) >= 2 && f != MarkerFamily::Tier1,
        forall|k: int|
            #![trigger TIER2@[k]]
            0 <= k < n && count_of(s, TIER2@[k]) >= 2 ==> best_of(s, n) is Some && count_of(
                s,
                TIER2@[k],
            ) <= count_of(s, best_of(s, n)->0),
    decreases n,
{
    if n > 0 {
        lemma_best_of(s, n - 1);
        assert(TIER2@[n - 1] != MarkerFamily::Tier1);
    }
}

/// The family whose candidates are the items.
fn choose_winner(candidates: &Vec<Candidate>) -> (r: Option<MarkerFamily>)
    requires
        ascending(candidates@),
        spaced(candidates@),
    ensures
        r == winner(candidates@),
{
    let mut at_line_start: bool = false;
    let mut i: usize = 0;
    while i < candidates.len()
        invariant
            i <= candidates@.len(),
            at_line_start <==> exists|j: int|
                0 <= j < i && (#[trigger] candidates@[j]).family == MarkerFamily::Tier1
                    && candidates@[j].line_start,
        decreases candidates@.len() - i,
    {
        if candidates[i].family == MarkerFamily::Tier1 && candidates[i].line_start {
            at_line_start = true;
        }
        i += 1;
    }
    if at_line_start || count_family(candidates, MarkerFamily::Tier1) >= 2 {
        return Some(MarkerFamily::Tier1);
    }
    let mut best: Option<MarkerFamily> = None;
    let mut k: usize = 0;
    while k < TIER2.len()
        invariant
            k <= 5,
            ascending(candidates@),
            spaced(candidates@),
            best == best_of(candidates@, k as int),
        decreases 5 - k,
    {
        let f: MarkerFamily = TIER2[k];
        let n: usize = count_family(candidates, f);
        proof {
            lemma_best_of(candidates@, k as int);
            assert(TIER2@[k as int] == f);
        }
        if n >= 2 {
            match best {
                None => {
                    best = Some(f);
                },
                Some(g) => {
                    let m: usize = count_family(candidates, g);
                    let p = family_positions(candidates, f);
                    let q = family_positions(candidates, g);
                    proof {
                        lemma_positions_of(candidates@, f);
                        lemma_positions_of(candidates@, g);
                    }
                    if n > m || (n == m && p[0] < q[0]) {
                        best = Some(f);
                    }
                },
            }
        }
        k += 1;
    }
    best
}

/// The candidates that are left when each position is taken once stand in order.
proof fn lemma_kept(s: Seq<Candidate>)
    ensures
        forall|i: int, j: int|
            #![trigger promoted(distinct(sorted(s)))[i], promoted(distinct(sorted(s)))[j]]
            0 <= i <= j < promoted(distinct(sorted(s))).len() ==> promoted(
                distinct(sorted(s)),
            )[i].pos <= promoted(distinct(sorted(s)))[j].pos,
{
    lemma_sorted(s);
    let d = distinct(sorted(s));
    lemma_distinct(sorted(s));
    lemma_promoted(d);
    let p = promoted(d);
    assert forall|i: int, j: int|
        #![trigger p[i], p[j]]
        0 <= i <= j < p.len() implies p[i].pos <= p[j].pos by {
        if i < j {
            assert(d[i].pos < d[j].pos);
        }
    }
}

/// The candidates that the winner is chosen from lie apart.
proof fn lemma_contenders_apart(s: Seq<Candidate>)
    ensures
        ascending(contenders(s)),
        spaced(contenders(s)),
{
    lemma_contenders(s);
}

/// Chooses the items among the candidates.
pub fn finalise(candidates: Vec<Candidate>) -> (r: Vec<usize>)
    ensures
        r@ == accepted(candidates@),
{
    let ghost all = candidates@;
    let mut ordered = candidates;
    sort(&mut ordered);
    let kept = promote(dedup(&ordered));
    proof {
        lemma_kept(all);
        lemma_contenders_apart(all);
    }
    let rest = prune(&kept);
    match choose_winner(&rest) {
        Some(f) => family_positions(&rest, f),
        None => Vec::new(),
    }
}


/// The positions of the byte `needle` in `haystack`, from left to right.
///
/// `memchr::memchr_iter` yields the position of every occurrence of the byte and
/// nothing else, in ascending order.
#[verifier::external_body]
fn byte_positions(needle: u8, haystack: &[u8]) -> (r: Vec<usize>)
    ensures
        forall|i: int, j: int| 0 <= i < j < r@.len() ==> #[trigger] r@[i] < #[trigger] r@[j],
        forall|i: int|
            0 <= i < r@.len() ==> (#[trigger] r@[i]) < haystack@.len() && haystack@[r@[i] as int]
                == needle,
        forall|k: int|
            0 <= k < haystack@.len() && #[trigger] haystack@[k] == needle ==> r@.contains(
                k as usize,
            ),
{
    memchr::memchr_iter(needle, haystack).collect()
}

/// The end of the line that starts at `start`: behind its line feed, or the end
/// of the text.
pub open spec fn line_end(b: Seq<u8>, start: int) -> int {
    let k = next_byte(b, NEWLINE, start);
    if k < b.len() {
        k + 1
    } else {
        b.len() as int
    }
}

/// The candidates of all lines from `start` on.
pub open spec fn all_candidates(t: Seq<char>, start: int) -> Seq<Candidate>
    decreases size(t) - start,
    via all_candidates_decreases
{
    if start < 0 || size(t) <= start {
        Seq::empty()
    } else {
        let end = line_end(encode_utf8(t), start);
        line_candidates(t, start, end) + all_candidates(t, end)
    }
}

#[via_fn]
proof fn all_candidates_decreases(t: Seq<char>, start: int) {
    lemma_next_byte(encode_utf8(t), NEWLINE, start);
}

/// Where the items of the lists in the paragraph `t` start.
pub open spec fn list_starts(t: Seq<char>) -> Seq<usize> {
    accepted(all_candidates(t, 0))
}

pub proof fn lemma_next_byte_is(b: Seq<u8>, x: u8, from: int, k: int)
    requires
        0 <= from <= k <= b.len(),
        forall|i: int| from <= i < k ==> b[i] != x,
        k < b.len() ==> b[k] == x,
    ensures
        next_byte(b, x, from) == k,
    decreases k - from,
{
    if from < k {
        lemma_next_byte_is(b, x, from + 1, k);
    }
}

/// Returns the byte offsets in `paragraph` at which list items start, in the order
/// of the text and without duplicates.
pub fn detect_list_items(paragraph: &str) -> (r: Vec<usize>)
    ensures
        r@ == list_starts(paragraph@),
        forall|i: int, j: int| 0 <= i < j < r@.len() ==> #[trigger] r@[i] < #[trigger] r@[j],
        forall|i: int|
            0 <= i < r@.len() ==> (#[trigger] r@[i]) < size(paragraph@) && is_cut(
                paragraph@,
                r@[i] as int,
            ),
{
    let bytes = paragraph.as_bytes();
    let n: usize = bytes.len();
    let newlines = byte_positions(NEWLINE, bytes);
    let mut candidates: Vec<Candidate> = Vec::new();
    let mut line_start: usize = 0;
    let mut i: usize = 0;
    let ghost goal = all_candidates(paragraph@, 0);
    proof {
        lemma_cut_ends(paragraph@);
        assert(goal =~= candidates@ + goal);
    }
    while i < newlines.len()
        invariant
            n == bytes@.len(),
            bytes@ == encode_utf8(paragraph@),
            i <= newlines@.len(),
            line_start <= n,
            i < newlines@.len() ==> line_start <= newlines@[i as int],
            is_cut(paragraph@, line_start as int),
            forall|i: int, j: int|
                0 <= i < j < newlines@.len() ==> #[trigger] newlines@[i] < #[trigger] newlines@[j],
            forall|i: int|
                0 <= i < newlines@.len() ==> (#[trigger] newlines@[i]) < n
                    && bytes@[newlines@[i] as int] == NEWLINE,
            forall|k: int|
                0 <= k < n && #[trigger] bytes@[k] == NEWLINE ==> newlines@.contains(k as usize),
            forall|k: int|
                #![trigger newlines@[k]]
                0 <= k < i ==> newlines@[k] < line_start,
            goal == candidates@ + all_candidates(paragraph@, line_start as int),
        decreases newlines@.len() - i,
    {
        let nl: usize = newlines[i];
        proof {
            lemma_ascii(paragraph@, nl as int);
            assert forall|k: int| line_start <= k < nl implies bytes@[k] != NEWLINE by {
                if bytes@[k] == NEWLINE {
                    let m = newlines@.index_of(k as usize);
                    assert(newlines@[m] == k);
                    if m > i {
                        assert(newlines@[i as int] < newlines@[m]);
                    }
                }
            }
            lemma_next_byte_is(bytes@, NEWLINE, line_start as int, nl as int);
        }
        let ghost earlier = candidates@;
        scan_line(paragraph, line_start, nl + 1, &mut candidates);
        proof {
            assert(goal =~= candidates@ + all_candidates(paragraph@, nl + 1));
            if i + 1 < newlines@.len() {
                assert(newlines@[i as int] < newlines@[i + 1]);
            }
        }
        line_start = nl + 1;
        i += 1;
    }
    if line_start < n {
        proof {
            assert forall|k: int| line_start <= k < n implies bytes@[k] != NEWLINE by {
                if bytes@[k] == NEWLINE {
                    let m = newlines@.index_of(k as usize);
                    assert(newlines@[m] < line_start);
                }
            }
            lemma_next_byte_is(bytes@, NEWLINE, line_start as int, n as int);
        }
        scan_line(paragraph, line_start, n, &mut candidates);
    }
    proof {
        assert(all_candidates(paragraph@, n as int) =~= Seq::empty());
        assert(candidates@ =~= goal);
        lemma_all_candidates(paragraph@, 0);
        law_items_are_candidates(candidates@);
        law_items_in_order(candidates@);
        let r = accepted(candidates@);
        assert forall|i: int| 0 <= i < r.len() implies (#[trigger] r[i]) < size(paragraph@)
            && is_cut(paragraph@, r[i] as int) by {
            let k = choose|k: int| 0 <= k < goal.len() && #[trigger] goal[k].pos == r[i];
            assert(stands_in(paragraph@, goal[k], 0, size(paragraph@)));
        }
    }
    finalise(candidates)
}

/// True when `c` stands at a cut of `t` within the given bounds.
pub open spec fn stands_in(t: Seq<char>, c: Candidate, from: int, to: int) -> bool {
    from <= c.pos < to && is_cut(t, c.pos as int)
}

proof fn lemma_inline_candidates(t: Seq<char>, i: int, end: int)
    requires
        0 < i,
        end <= size(t) <= usize::MAX,
        is_cut(t, end),
    ensures
        forall|k: int|
            0 <= k < inline_candidates(t, i, end).len() ==> stands_in(
                t,
                #[trigger] inline_candidates(t, i, end)[k],
                i,
                end,
            ),
    decreases end - i,
{
    if i < end {
        lemma_inline_candidates(t, i + 1, end);
        let b = encode_utf8(t);
        if horiz_ws(b[i - 1]) {
            lemma_ascii(t, i - 1);
        }
        let first = candidate_at(t, i, end);
        let r = inline_candidates(t, i, end);
        assert forall|k: int| 0 <= k < r.len() implies stands_in(t, #[trigger] r[k], i, end) by {
            if k >= first.len() {
                assert(r[k] == inline_candidates(t, i + 1, end)[k - first.len()]);
            }
        }
    }
}

pub proof fn lemma_ws_end(b: Seq<u8>, i: int, end: int)
    requires
        i <= end,
    ensures
        i <= ws_end(b, i, end) <= end,
    decreases end - i,
{
    if i < end && horiz_ws(b[i]) {
        lemma_ws_end(b, i + 1, end);
    }
}

proof fn lemma_line_candidates(t: Seq<char>, start: int, end: int)
    requires
        is_cut(t, start),
        is_cut(t, end),
        start < end,
        size(t) <= usize::MAX,
    ensures
        forall|k: int|
            0 <= k < line_candidates(t, start, end).len() ==> stands_in(
                t,
                #[trigger] line_candidates(t, start, end)[k],
                start,
                end,
            ),
{
    let i = ws_end(encode_utf8(t), start, end) + 1;
    lemma_ws_end(encode_utf8(t), start, end);
    lemma_inline_candidates(t, i, end);
    let r = line_candidates(t, start, end);
    let first = if line_marker(between(t, start, end)) is Some {
        1int
    } else {
        0int
    };
    assert forall|k: int| 0 <= k < r.len() implies stands_in(t, #[trigger] r[k], start, end) by {
        if k >= first {
            assert(r[k] == inline_candidates(t, i, end)[k - first]);
        }
    }
}

proof fn lemma_all_candidates(t: Seq<char>, start: int)
    requires
        is_cut(t, start),
        size(t) <= usize::MAX,
    ensures
        forall|k: int|
            0 <= k < all_candidates(t, start).len() ==> stands_in(
                t,
                #[trigger] all_candidates(t, start)[k],
                start,
                size(t),
            ),
    decreases size(t) - start,
{
    if start < size(t) {
        let b = encode_utf8(t);
        lemma_next_byte(b, NEWLINE, start);
        let end = line_end(b, start);
        lemma_cut_ends(t);
        if next_byte(b, NEWLINE, start) < b.len() {
            lemma_ascii(t, end - 1);
        }
        lemma_line_candidates(t, start, end);
        lemma_all_candidates(t, end);
        let first = line_candidates(t, start, end);
        let r = all_candidates(t, start);
        assert forall|k: int| 0 <= k < r.len() implies stands_in(
            t,
            #[trigger] r[k],
            start,
            size(t),
        ) by {
            if k < first.len() {
                assert(r[k] == first[k]);
            } else {
                assert(r[k] == all_candidates(t, end)[k - first.len()]);
            }
        }
    }
}

// Laws.

/// Every item starts where some candidate stands.
pub proof fn law_items_are_candidates(s: Seq<Candidate>)
    ensures
        forall|i: int|
            0 <= i < accepted(s).len() ==> exists|k: int|
                0 <= k < s.len() && #[trigger] s[k].pos == #[trigger] accepted(s)[i],
{
    lemma_contenders(s);
    if let Some(f) = winner(contenders(s)) {
        let c = contenders(s);
        lemma_positions_of(c, f);
        let r = accepted(s);
        assert forall|i: int| 0 <= i < r.len() implies exists|k: int|
            0 <= k < s.len() && #[trigger] s[k].pos == #[trigger] r[i] by {
            let m = choose|m: int|
                0 <= m < c.len() && #[trigger] c[m].pos == r[i] && c[m].family == f;
            let k = choose|k: int| 0 <= k < s.len() && #[trigger] s[k].pos == c[m].pos;
            assert(s[k].pos == r[i]);
        }
    }
}

/// Items start inside their paragraph, from left to right.
pub proof fn law_items_stand_in_order(t: Seq<char>)
    requires
        size(t) <= usize::MAX,
    ensures
        forall|i: int, j: int|
            0 <= i < j < list_starts(t).len() ==> #[trigger] list_starts(t)[i]
                < #[trigger] list_starts(t)[j],
        forall|i: int|
            0 <= i < list_starts(t).len() ==> (#[trigger] list_starts(t)[i]) < size(t),
{
    let s = all_candidates(t, 0);
    lemma_cut_ends(t);
    lemma_all_candidates(t, 0);
    law_items_in_order(s);
    law_items_are_candidates(s);
    let r = list_starts(t);
    assert forall|i: int| 0 <= i < r.len() implies (#[trigger] r[i]) < size(t) by {
        assert(accepted(s)[i] == r[i]);
        let k = choose|k: int| 0 <= k < s.len() && #[trigger] s[k].pos == r[i];
        assert(stands_in(t, s[k], 0, size(t)));
    }
}

/// Items come in the order of the text, and each has room for some content.
pub proof fn law_items_in_order(s: Seq<Candidate>)
    ensures
        forall|i: int, j: int|
            0 <= i < j < accepted(s).len() ==> #[trigger] accepted(s)[i] + MIN_GAP_BYTES
                <= #[trigger] accepted(s)[j],
{
    lemma_contenders(s);
    if let Some(f) = winner(contenders(s)) {
        lemma_positions_of(contenders(s), f);
    }
}

/// A list is a sequence: a single item is one only where an unmistakable marker
/// stands at the start of a line.
pub proof fn law_single_item_is_unmistakable(s: Seq<Candidate>)
    requires
        accepted(s).len() == 1,
    ensures
        exists|i: int|
            0 <= i < contenders(s).len() && (#[trigger] contenders(s)[i]).family
                == MarkerFamily::Tier1 && contenders(s)[i].line_start,
{
    let c = contenders(s);
    lemma_contenders(s);
    lemma_best_of(c, 5);
    if let Some(f) = winner(c) {
        lemma_positions_of(c, f);
    }
}

/// Outside the first tier, no family has more candidates than the one that wins.
pub proof fn law_largest_family_wins(s: Seq<Candidate>, f: MarkerFamily)
    requires
        winner(s) != Some(MarkerFamily::Tier1),
        f != MarkerFamily::Tier1,
        count_of(s, f) >= 2,
    ensures
        winner(s) is Some,
        count_of(s, f) <= count_of(s, winner(s)->0),
{
    lemma_best_of(s, 5);
    assert(TIER2@[f.index() - 1] == f);
}

} // verus!
