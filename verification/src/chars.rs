//! Kinds of characters.

use vstd::prelude::*;

verus! {

/// True for `0` to `9`.
pub open spec fn ascii_digit(c: char) -> bool {
    '0' <= c <= '9'
}

/// True for `a` to `z`.
pub open spec fn ascii_lower(c: char) -> bool {
    'a' <= c <= 'z'
}

/// True for `A` to `Z`.
pub open spec fn ascii_upper(c: char) -> bool {
    'A' <= c <= 'Z'
}

/// True for the characters that Unicode gives the property White_Space.
pub open spec fn white_space(c: char) -> bool {
    ||| '\u{9}' <= c <= '\u{D}'
    ||| c == '\u{20}'
    ||| c == '\u{85}'
    ||| c == '\u{A0}'
    ||| c == '\u{1680}'
    ||| '\u{2000}' <= c <= '\u{200A}'
    ||| c == '\u{2028}'
    ||| c == '\u{2029}'
    ||| c == '\u{202F}'
    ||| c == '\u{205F}'
    ||| c == '\u{3000}'
}

pub fn is_ascii_digit(c: char) -> (r: bool)
    ensures
        r == ascii_digit(c),
{
    '0' <= c && c <= '9'
}

pub fn is_ascii_lower(c: char) -> (r: bool)
    ensures
        r == ascii_lower(c),
{
    'a' <= c && c <= 'z'
}

pub fn is_ascii_upper(c: char) -> (r: bool)
    ensures
        r == ascii_upper(c),
{
    'A' <= c && c <= 'Z'
}

pub fn is_white_space(c: char) -> (r: bool)
    ensures
        r == white_space(c),
{
    ('\u{9}' <= c && c <= '\u{D}') || c == '\u{20}' || c == '\u{85}' || c == '\u{A0}' || c
        == '\u{1680}' || ('\u{2000}' <= c && c <= '\u{200A}') || c == '\u{2028}' || c == '\u{2029}'
        || c == '\u{202F}' || c == '\u{205F}' || c == '\u{3000}'
}

// Properties that Unicode gives by tables. The standard library holds the tables;
// each property has a name here, and is spelled out for ASCII.

/// Whether Unicode gives `c` the property Lowercase.
pub uninterp spec fn unicode_lowercase(c: char) -> bool;

/// Whether Unicode gives `c` the property Uppercase.
pub uninterp spec fn unicode_uppercase(c: char) -> bool;

/// Whether Unicode gives `c` the property Alphabetic.
pub uninterp spec fn unicode_alphabetic(c: char) -> bool;

/// Whether Unicode gives `c` the property Alphabetic or a numeric category.
pub uninterp spec fn unicode_alphanumeric(c: char) -> bool;

/// `char::is_lowercase` looks `c` up in the table of the property Lowercase, which
/// within ASCII holds `a` to `z`.
pub assume_specification[ char::is_lowercase ](c: char) -> (r: bool)
    ensures
        r == unicode_lowercase(c),
        c <= '\u{7F}' ==> r == ascii_lower(c),
;

/// `char::is_uppercase` looks `c` up in the table of the property Uppercase, which
/// within ASCII holds `A` to `Z`.
pub assume_specification[ char::is_uppercase ](c: char) -> (r: bool)
    ensures
        r == unicode_uppercase(c),
        c <= '\u{7F}' ==> r == ascii_upper(c),
;

/// `char::is_alphabetic` looks `c` up in the table of the property Alphabetic,
/// which within ASCII holds the letters.
pub assume_specification[ char::is_alphabetic ](c: char) -> (r: bool)
    ensures
        r == unicode_alphabetic(c),
        c <= '\u{7F}' ==> r == (ascii_lower(c) || ascii_upper(c)),
;

/// `char::is_alphanumeric` looks `c` up in the tables of the property Alphabetic
/// and of the numeric categories, which within ASCII hold the letters and digits.
pub assume_specification[ char::is_alphanumeric ](c: char) -> (r: bool)
    ensures
        r == unicode_alphanumeric(c),
        c <= '\u{7F}' ==> r == (ascii_lower(c) || ascii_upper(c) || ascii_digit(c)),
;

/// A set of characters that the scans in this crate can stop at or run over.
pub trait CharClass {
    spec fn has(c: char) -> bool;

    fn test(c: char) -> (r: bool)
        ensures
            r == Self::has(c),
    ;
}

/// White space.
pub struct White;

/// Space and tab.
pub struct HorizontalSpace;

impl CharClass for White {
    open spec fn has(c: char) -> bool {
        white_space(c)
    }

    fn test(c: char) -> bool {
        is_white_space(c)
    }
}

impl CharClass for HorizontalSpace {
    open spec fn has(c: char) -> bool {
        c == ' ' || c == '\t'
    }

    fn test(c: char) -> bool {
        c == ' ' || c == '\t'
    }
}

/// What stands around the parts of a name or an abbreviation: white space, `.` and
/// `/`.
pub struct NameSeparator;

/// What stands around whole abbreviations: white space and `/`.
pub struct TokenSeparator;

/// What the time of day is written with: digits and `:`.
pub struct ClockDigit;

/// `.`, `!` and `?`.
pub struct SentenceMark;

/// The carriage return.
pub struct CarriageReturn;

/// `.` alone.
pub struct Dot;

/// `!`, `?` and `…`.
pub struct Emphatic;

/// The digits of ASCII.
pub struct AsciiDigit;

impl CharClass for CarriageReturn {
    open spec fn has(c: char) -> bool {
        c == '\r'
    }

    fn test(c: char) -> bool {
        c == '\r'
    }
}

impl CharClass for Dot {
    open spec fn has(c: char) -> bool {
        c == '.'
    }

    fn test(c: char) -> bool {
        c == '.'
    }
}

impl CharClass for Emphatic {
    open spec fn has(c: char) -> bool {
        c == '!' || c == '?' || c == '…'
    }

    fn test(c: char) -> bool {
        c == '!' || c == '?' || c == '…'
    }
}

impl CharClass for AsciiDigit {
    open spec fn has(c: char) -> bool {
        ascii_digit(c)
    }

    fn test(c: char) -> bool {
        is_ascii_digit(c)
    }
}

impl CharClass for NameSeparator {
    open spec fn has(c: char) -> bool {
        white_space(c) || c == '.' || c == '/'
    }

    fn test(c: char) -> bool {
        is_white_space(c) || c == '.' || c == '/'
    }
}

impl CharClass for TokenSeparator {
    open spec fn has(c: char) -> bool {
        white_space(c) || c == '/'
    }

    fn test(c: char) -> bool {
        is_white_space(c) || c == '/'
    }
}

impl CharClass for ClockDigit {
    open spec fn has(c: char) -> bool {
        ascii_digit(c) || c == ':'
    }

    fn test(c: char) -> bool {
        is_ascii_digit(c) || c == ':'
    }
}

impl CharClass for SentenceMark {
    open spec fn has(c: char) -> bool {
        c == '.' || c == '!' || c == '?'
    }

    fn test(c: char) -> bool {
        c == '.' || c == '!' || c == '?'
    }
}

/// How many characters at the front of `s` are, one after the other, inside
/// (or, for `inside == false`, outside) the class `C`.
pub open spec fn run_front<C: CharClass>(s: Seq<char>, inside: bool) -> int
    decreases s.len(),
{
    if s.len() > 0 && C::has(s[0]) == inside {
        1 + run_front::<C>(s.drop_first(), inside)
    } else {
        0
    }
}

/// How many characters at the back of `s` are, one after the other, inside
/// (or, for `inside == false`, outside) the class `C`.
pub open spec fn run_back<C: CharClass>(s: Seq<char>, inside: bool) -> int
    decreases s.len(),
{
    if s.len() > 0 && C::has(s.last()) == inside {
        1 + run_back::<C>(s.drop_last(), inside)
    } else {
        0
    }
}

/// `s` without the characters of `C` at its front.
pub open spec fn strip_front<C: CharClass>(s: Seq<char>) -> Seq<char> {
    s.skip(run_front::<C>(s, true))
}

/// `s` without the characters of `C` at its back.
pub open spec fn strip_back<C: CharClass>(s: Seq<char>) -> Seq<char> {
    s.take(s.len() - run_back::<C>(s, true))
}

/// The part of `s` before its first character of `C`.
pub open spec fn front_word<C: CharClass>(s: Seq<char>) -> Seq<char> {
    s.take(run_front::<C>(s, false))
}

/// The part of `s` behind its last character of `C`.
pub open spec fn back_word<C: CharClass>(s: Seq<char>) -> Seq<char> {
    s.skip(s.len() - run_back::<C>(s, false))
}

/// A front run stays within its text, holds only characters of its kind, and
/// stops at the first of the other kind.
pub proof fn lemma_run_front<C: CharClass>(s: Seq<char>, inside: bool)
    ensures
        0 <= run_front::<C>(s, inside) <= s.len(),
        forall|i: int| 0 <= i < run_front::<C>(s, inside) ==> C::has(#[trigger] s[i]) == inside,
        run_front::<C>(s, inside) < s.len() ==> C::has(s[run_front::<C>(s, inside)]) != inside,
    decreases s.len(),
{
    if s.len() > 0 && C::has(s[0]) == inside {
        lemma_run_front::<C>(s.drop_first(), inside);
        let n = run_front::<C>(s.drop_first(), inside);
        assert forall|i: int| 0 <= i < n + 1 implies C::has(#[trigger] s[i]) == inside by {
            if i > 0 {
                assert(s.drop_first()[i - 1] == s[i]);
            }
        }
        if n + 1 < s.len() {
            assert(s.drop_first()[n] == s[n + 1]);
        }
    }
}

/// A back run stays within its text, holds only characters of its kind, and
/// stops at the last of the other kind.
pub proof fn lemma_run_back<C: CharClass>(s: Seq<char>, inside: bool)
    ensures
        0 <= run_back::<C>(s, inside) <= s.len(),
        forall|i: int|
            s.len() - run_back::<C>(s, inside) <= i < s.len() ==> C::has(#[trigger] s[i]) == inside,
        run_back::<C>(s, inside) < s.len() ==> C::has(
            s[s.len() - run_back::<C>(s, inside) - 1],
        ) != inside,
    decreases s.len(),
{
    if s.len() > 0 && C::has(s.last()) == inside {
        lemma_run_back::<C>(s.drop_last(), inside);
        let n = run_back::<C>(s, inside);
        assert forall|i: int| s.len() - n <= i < s.len() implies C::has(#[trigger] s[i])
            == inside by {
            if i < s.len() - 1 {
                assert(s.drop_last()[i] == s[i]);
            }
        }
    }
}

} // verus!
