//! What the markers of list items look like.

use vstd::prelude::*;
use vstd::utf8::*;

use crate::chars::{unicode_lowercase, CharClass, HorizontalSpace};
use crate::languages::list_markers::{
    closer_length, digit_byte, digit_run, inline_marker, lemma_next_byte, lemma_next_byte_is,
    line_marker, marker, next_byte, next_content, numeric_marker, paren_marker, roman_byte,
    roman_marker, roman_run, short_inner, unicode_bullet_marker, CLOSE, UNICODE_BULLETS,
    MarkerFamily,
};
use crate::laws::parts::{lemma_front, lemma_meet};
use crate::utf8::{
    after, before, lemma_ascii, lemma_encode_concat, lemma_first, lemma_size, lemma_split, size,
};

verus! {

/// True for a space or a tab.
pub open spec fn blank(c: char) -> bool {
    c == ' ' || c == '\t'
}

/// True when `s` is spaces and tabs alone.
pub open spec fn all_blank(s: Seq<char>) -> bool {
    forall|i: int| 0 <= i < s.len() ==> blank(#[trigger] s[i])
}

/// True for a digit of ASCII.
pub open spec fn digit(c: char) -> bool {
    '0' <= c <= '9'
}

/// True for a letter of ASCII.
pub open spec fn letter(c: char) -> bool {
    'a' <= c <= 'z' || 'A' <= c <= 'Z'
}

/// True for the letters that Roman numerals are written with, in either case.
pub open spec fn numeral(c: char) -> bool {
    ||| c == 'i' || c == 'v' || c == 'x' || c == 'l' || c == 'c' || c == 'd' || c == 'm'
    ||| c == 'I' || c == 'V' || c == 'X' || c == 'L' || c == 'C' || c == 'D' || c == 'M'
}

/// True for the bullets beyond ASCII.
pub open spec fn bullet(c: char) -> bool {
    ||| c == '•' || c == '◦' || c == '▪' || c == '▫' || c == '■' || c == '□' || c == '●'
    ||| c == '○' || c == '⁃' || c == '⁌' || c == '⁍' || c == '◆' || c == '◇' || c == '★'
    ||| c == '☆' || c == '➤' || c == '➢' || c == '➣' || c == '▶' || c == '▸' || c == '►'
}

pub open spec fn all_digits(s: Seq<char>) -> bool {
    forall|i: int| 0 <= i < s.len() ==> digit(#[trigger] s[i])
}

pub open spec fn all_numerals(s: Seq<char>) -> bool {
    forall|i: int| 0 <= i < s.len() ==> numeral(#[trigger] s[i])
}

/// True when `t` does not start with the character `c`.
pub open spec fn starts_otherwise(t: Seq<char>, c: char) -> bool {
    t.len() > 0 ==> t[0] != c
}

/// True when `t` starts with neither `.` nor `)`.
pub open spec fn starts_open(t: Seq<char>) -> bool {
    starts_otherwise(t, '.') && starts_otherwise(t, ')')
}

/// True when `k` closes a marker before `rest`: `.)`, `)`, or `.` with no `)` behind it.
pub open spec fn closes(k: Seq<char>, rest: Seq<char>) -> bool {
    ||| k == seq!['.', ')']
    ||| k == seq![')']
    ||| k == seq!['.'] && starts_otherwise(rest, ')')
}

/// The bullets beyond ASCII are those above.
pub proof fn law_bullets(c: char)
    ensures
        UNICODE_BULLETS@.contains(c) <==> bullet(c),
{
    let all = UNICODE_BULLETS@;
    if bullet(c) {
        assert(all[0] == '•' && all[1] == '◦' && all[2] == '▪' && all[3] == '▫' && all[4] == '■');
        assert(all[5] == '□' && all[6] == '●' && all[7] == '○' && all[8] == '⁃' && all[9] == '⁌');
        assert(all[10] == '⁍' && all[11] == '◆' && all[12] == '◇' && all[13] == '★');
        assert(all[14] == '☆' && all[15] == '➤' && all[16] == '➢' && all[17] == '➣');
        assert(all[18] == '▶' && all[19] == '▸' && all[20] == '►');
    }
    assert forall|i: int| 0 <= i < all.len() implies bullet(#[trigger] all[i]) by {}
}

/// A character is its number.
pub proof fn lemma_number(c: char)
    ensures
        c as u32 == c as int,
        (c as u32) < 0x80 <==> c < '\u{80}',
{
}

/// The bytes of a single character.
pub proof fn lemma_single(c: char)
    ensures
        encode_utf8(seq![c]) == encode_scalar(c as u32),
{
    assert(seq![c].drop_first() =~= Seq::<char>::empty());
    assert(encode_utf8(Seq::<char>::empty()) =~= Seq::<u8>::empty());
    assert(encode_utf8(seq![c]) =~= encode_scalar(c as u32));
}

/// Characters of ASCII are bytes.
proof fn lemma_bytes(s: Seq<char>)
    requires
        forall|i: int| 0 <= i < s.len() ==> (#[trigger] s[i]) < '\u{80}',
    ensures
        size(s) == s.len(),
        forall|i: int| 0 <= i < s.len() ==> #[trigger] encode_utf8(s)[i] as int == s[i] as int,
    decreases s.len(),
{
    if s.len() > 0 {
        let rest = s.drop_first();
        assert(s[0] < '\u{80}');
        assert forall|i: int| 0 <= i < rest.len() implies (#[trigger] rest[i]) < '\u{80}' by {
            assert(rest[i] == s[i + 1]);
        }
        lemma_bytes(rest);
        lemma_first(s);
        assert(s =~= seq![s[0]] + rest);
        lemma_encode_concat(seq![s[0]], rest);
        lemma_number(s[0]);
        lemma_single(s[0]);
        assert forall|i: int| 0 <= i < s.len() implies #[trigger] encode_utf8(s)[i] as int
            == s[i] as int by {
            if i > 0 {
                assert(encode_utf8(s)[i] == encode_utf8(rest)[i - 1]);
                assert(rest[i - 1] == s[i]);
            }
        }
    }
}

/// The bytes of a text that starts with characters of ASCII.
pub proof fn lemma_front_bytes(s: Seq<char>, rest: Seq<char>)
    requires
        forall|i: int| 0 <= i < s.len() ==> (#[trigger] s[i]) < '\u{80}',
    ensures
        size(s) == s.len(),
        size(s + rest) == s.len() + size(rest),
        forall|i: int|
            0 <= i < s.len() ==> #[trigger] encode_utf8(s + rest)[i] as int == s[i] as int,
        rest.len() > 0 ==> size(s + rest) > s.len(),
        rest.len() == 0 ==> size(s + rest) == s.len(),
        rest.len() > 0 && rest[0] < '\u{80}' ==> encode_utf8(s + rest)[s.len() as int] as int
            == rest[0] as int,
        rest.len() > 0 && rest[0] >= '\u{80}' ==> encode_utf8(s + rest)[s.len() as int] >= 0x80,
{
    lemma_bytes(s);
    lemma_encode_concat(s, rest);
    lemma_size(rest);
    assert forall|i: int| 0 <= i < s.len() implies #[trigger] encode_utf8(s + rest)[i] as int
        == s[i] as int by {
        assert(encode_utf8(s + rest)[i] == encode_utf8(s)[i]);
    }
    if rest.len() > 0 {
        lemma_first(rest);
        lemma_number(rest[0]);
        assert(encode_utf8(s + rest)[s.len() as int] == encode_utf8(rest)[0]);
    }
}

proof fn lemma_digit_run(b: Seq<u8>, n: int)
    requires
        0 <= n <= b.len(),
        forall|i: int| 0 <= i < n ==> 0x30 <= #[trigger] b[i] <= 0x39,
        n < b.len() ==> !(0x30 <= b[n] <= 0x39),
    ensures
        digit_run(b) == n,
    decreases n,
{
    if n > 0 {
        let c = b.drop_first();
        assert forall|i: int| 0 <= i < n - 1 implies 0x30 <= #[trigger] c[i] <= 0x39 by {
            assert(c[i] == b[i + 1]);
        }
        lemma_digit_run(c, n - 1);
    }
}

spec fn numeral_byte(b: u8) -> bool {
    numeral(b as char)
}

proof fn lemma_roman_run(b: Seq<u8>, n: int)
    requires
        0 <= n <= b.len(),
        forall|i: int| 0 <= i < n ==> numeral_byte(#[trigger] b[i]),
        n < b.len() ==> !numeral_byte(b[n]),
    ensures
        roman_run(b) == n,
    decreases n,
{
    if n > 0 {
        assert(numeral_byte(b[0]));
        let c = b.drop_first();
        assert forall|i: int| 0 <= i < n - 1 implies numeral_byte(#[trigger] c[i]) by {
            assert(c[i] == b[i + 1]);
        }
        lemma_roman_run(c, n - 1);
    }
}

/// A text that starts with a character of ASCII other than a bracket has no marker of the
/// first tier.
proof fn lemma_second_tier(t: Seq<char>)
    requires
        t.len() > 0,
        t[0] < '\u{80}',
        t[0] != '(',
    ensures
        unicode_bullet_marker(t) is None,
        paren_marker(encode_utf8(t)) is None,
        encode_utf8(t).len() > 0,
        encode_utf8(t)[0] as int == t[0] as int,
{
    law_bullets(t[0]);
    lemma_first(t);
    lemma_number(t[0]);
}

/// `*`, `+` and `-` are bullets.
pub proof fn law_ascii_bullets(c: char, rest: Seq<char>)
    requires
        c == '*' || c == '+' || c == '-',
    ensures
        marker(seq![c] + rest) == Some((MarkerFamily::Bullet, 1int)),
{
    let t = seq![c] + rest;
    lemma_second_tier(t);
    lemma_digit_run(encode_utf8(t), 0);
    lemma_roman_run(encode_utf8(t), 0);
}

/// A bullet beyond ASCII is unmistakable.
pub proof fn law_unicode_bullets(c: char, rest: Seq<char>)
    requires
        bullet(c),
    ensures
        marker(seq![c] + rest) == Some((MarkerFamily::Tier1, size(seq![c]))),
{
    law_bullets(c);
    let t = seq![c] + rest;
    assert(t[0] == c);
    lemma_single(c);
}

/// The closer behind `s`.
proof fn lemma_closer(s: Seq<char>, k: Seq<char>, rest: Seq<char>)
    requires
        forall|i: int| 0 <= i < s.len() ==> (#[trigger] s[i]) < '\u{80}',
        closes(k, rest),
    ensures
        closer_length(encode_utf8(s + k + rest), s.len() as int) == Some(k.len() as int),
        size(k) == k.len(),
{
    let front = s + k;
    assert forall|i: int| 0 <= i < front.len() implies (#[trigger] front[i]) < '\u{80}' by {
        if i < s.len() {
            assert(front[i] == s[i]);
        } else {
            assert(front[i] == k[i - s.len()]);
        }
    }
    lemma_bytes(k);
    lemma_front_bytes(front, rest);
    let b = encode_utf8(front + rest);
    assert(front[s.len() as int] == k[0]);
    assert(b[s.len() as int] as int == front[s.len() as int] as int);
    if k.len() == 2 {
        assert(front[s.len() as int + 1] == k[1]);
        assert(b[s.len() as int + 1] as int == front[s.len() as int + 1] as int);
    }
}

/// Digits and a closer are a number.
pub proof fn law_numbers(d: Seq<char>, k: Seq<char>, rest: Seq<char>)
    requires
        d.len() > 0,
        all_digits(d),
        closes(k, rest),
    ensures
        marker(d + k + rest) == Some((MarkerFamily::Numeric, (d.len() + k.len()) as int)),
{
    let t = d + k + rest;
    assert(digit(d[0]));
    assert(t[0] == d[0]);
    assert forall|i: int| 0 <= i < d.len() implies (#[trigger] d[i]) < '\u{80}' by {
        assert(digit(d[i]));
    }
    lemma_second_tier(t);
    lemma_closer(d, k, rest);
    assert(t =~= d + (k + rest));
    lemma_front_bytes(d, k + rest);
    let b = encode_utf8(t);
    assert((k + rest)[0] == k[0]);
    assert forall|i: int| 0 <= i < d.len() implies 0x30 <= #[trigger] b[i] <= 0x39 by {
        assert(digit(d[i]));
        assert(b[i] as int == d[i] as int);
    }
    lemma_digit_run(b, d.len() as int);
    lemma_roman_run(b, 0);
}

/// Digits with no closer are no marker.
pub proof fn law_digits_alone(d: Seq<char>, rest: Seq<char>)
    requires
        d.len() > 0,
        all_digits(d),
        rest.len() > 0 ==> !digit(rest[0]),
        starts_open(rest),
    ensures
        marker(d + rest) is None,
{
    let t = d + rest;
    assert(digit(d[0]));
    assert(t[0] == d[0]);
    assert forall|i: int| 0 <= i < d.len() implies (#[trigger] d[i]) < '\u{80}' by {
        assert(digit(d[i]));
    }
    lemma_second_tier(t);
    lemma_front_bytes(d, rest);
    let b = encode_utf8(t);
    assert forall|i: int| 0 <= i < d.len() implies 0x30 <= #[trigger] b[i] <= 0x39 by {
        assert(digit(d[i]));
        assert(b[i] as int == d[i] as int);
    }
    lemma_digit_run(b, d.len() as int);
    lemma_roman_run(b, 0);
}

/// Two or more letters of Roman numerals and a closer are a Roman number.
pub proof fn law_roman_numbers(r: Seq<char>, k: Seq<char>, rest: Seq<char>)
    requires
        r.len() >= 2,
        all_numerals(r),
        closes(k, rest),
    ensures
        marker(r + k + rest) == Some((MarkerFamily::Roman, (r.len() + k.len()) as int)),
{
    let t = r + k + rest;
    assert(numeral(r[0]));
    assert(t[0] == r[0]);
    assert forall|i: int| 0 <= i < r.len() implies (#[trigger] r[i]) < '\u{80}' by {
        assert(numeral(r[i]));
    }
    lemma_second_tier(t);
    lemma_closer(r, k, rest);
    assert(t =~= r + (k + rest));
    lemma_front_bytes(r, k + rest);
    let b = encode_utf8(t);
    assert((k + rest)[0] == k[0]);
    assert forall|i: int| 0 <= i < r.len() implies numeral_byte(#[trigger] b[i]) by {
        assert(numeral(r[i]));
        assert(b[i] as int == r[i] as int);
    }
    lemma_roman_run(b, r.len() as int);
}

/// Letters of Roman numerals with no closer are no marker.
pub proof fn law_numerals_alone(r: Seq<char>, rest: Seq<char>)
    requires
        r.len() > 0,
        all_numerals(r),
        rest.len() > 0 ==> !numeral(rest[0]),
        starts_open(rest),
    ensures
        marker(r + rest) is None,
{
    let t = r + rest;
    assert(numeral(r[0]));
    assert(t[0] == r[0]);
    assert forall|i: int| 0 <= i < r.len() implies (#[trigger] r[i]) < '\u{80}' by {
        assert(numeral(r[i]));
    }
    lemma_second_tier(t);
    lemma_front_bytes(r, rest);
    let b = encode_utf8(t);
    assert forall|i: int| 0 <= i < r.len() implies numeral_byte(#[trigger] b[i]) by {
        assert(numeral(r[i]));
        assert(b[i] as int == r[i] as int);
    }
    lemma_roman_run(b, r.len() as int);
    lemma_digit_run(b, 0);
    if r.len() > 1 {
        assert(numeral_byte(b[1]));
    }
}

/// What stands behind a single letter that another numeral does not follow.
proof fn lemma_letter(c: char, rest: Seq<char>)
    requires
        letter(c),
        rest.len() > 0 ==> !numeral(rest[0]) || !numeral(c),
    ensures
        ({
            let t = seq![c] + rest;
            let b = encode_utf8(t);
            &&& unicode_bullet_marker(t) is None
            &&& paren_marker(b) is None
            &&& roman_marker(b) is None
            &&& numeric_marker(b) is None
            &&& b[0] as int == c as int
            &&& b.len() == 1 + size(rest)
        }),
{
    let s = seq![c];
    let t = s + rest;
    let b = encode_utf8(t);
    lemma_second_tier(t);
    lemma_front_bytes(s, rest);
    lemma_digit_run(b, 0);
    if numeral(c) {
        lemma_roman_run(b, 1);
    } else {
        lemma_roman_run(b, 0);
    }
}

/// A letter with `)` or `.)` behind it is a marker, and so is a lower case letter with a
/// bare `.`, but no capital: that is an initial.
pub proof fn law_letters(c: char, k: Seq<char>, rest: Seq<char>)
    requires
        letter(c),
        closes(k, rest),
    ensures
        marker(seq![c] + k + rest) == if k != seq!['.'] {
            Some((MarkerFamily::LetterParen, (1 + k.len()) as int))
        } else if 'a' <= c <= 'z' {
            Some((MarkerFamily::LetterDot, 2int))
        } else {
            None
        },
{
    let s = seq![c];
    let t = s + k + rest;
    assert(t =~= s + (k + rest));
    assert((k + rest)[0] == k[0]);
    lemma_letter(c, k + rest);
    lemma_closer(s, k, rest);
    let b = encode_utf8(t);
    lemma_front_bytes(s, k + rest);
    lemma_encode_concat(k, rest);
    if k.len() == 2 {
        assert(closer_length(b, 1) == Some(2int));
        assert(k != seq!['.']);
    } else if k[0] == ')' {
        assert(k != seq!['.']);
    }
}

/// A letter with no closer is no marker.
pub proof fn law_letter_alone(c: char, rest: Seq<char>)
    requires
        letter(c),
        starts_open(rest),
        rest.len() > 0 ==> !numeral(rest[0]) || !numeral(c),
    ensures
        marker(seq![c] + rest) is None,
{
    lemma_letter(c, rest);
    lemma_front_bytes(seq![c], rest);
}

/// What may stand between the brackets of a marker: one or two digits, one letter, or the
/// letters of a Roman numeral.
pub open spec fn short(inner: Seq<char>) -> bool {
    ||| 1 <= inner.len() <= 2 && all_digits(inner)
    ||| inner.len() == 1 && letter(inner[0])
    ||| inner.len() > 0 && all_numerals(inner)
}

/// Something short in brackets is an unmistakable marker; anything else in brackets is
/// none.
pub proof fn law_brackets(inner: Seq<char>, rest: Seq<char>)
    requires
        forall|i: int| 0 <= i < inner.len() ==> (#[trigger] inner[i]) != ')',
    ensures
        marker(seq!['('] + inner + seq![')'] + rest) == if short(inner) {
            Some((MarkerFamily::Tier1, size(inner) + 2))
        } else {
            None
        },
{
    let o = seq!['('];
    let k = seq![')'];
    let t = o + inner + k + rest;
    let b = encode_utf8(t);
    assert(t[0] == '(');
    law_bullets('(');
    lemma_bytes(o);
    lemma_bytes(k);
    assert(t =~= o + inner + (k + rest));
    lemma_encode_concat(o, inner);
    lemma_encode_concat(o + inner, k + rest);
    lemma_encode_concat(k, rest);
    let m = encode_utf8(inner);
    let n = size(inner);
    assert(b.subrange(1, n + 1) =~= m);
    assert(b[0] as int == o[0] as int) by {
        assert(b[0] == encode_utf8(o)[0]);
    }
    assert(b[n + 1] as int == k[0] as int) by {
        assert(b[n + 1] == encode_utf8(k)[0]);
    }
    lemma_inner(inner);
    assert forall|i: int| 1 <= i < n + 1 implies b[i] != CLOSE by {
        assert(b[i] == m[i - 1]);
    }
    lemma_next_byte_is(b, CLOSE, 1, n + 1);
    lemma_digit_run(b, 0);
    lemma_roman_run(b, 0);
}

/// What stands between brackets, in bytes.
proof fn lemma_inner(inner: Seq<char>)
    requires
        forall|i: int| 0 <= i < inner.len() ==> (#[trigger] inner[i]) != ')',
    ensures
        forall|i: int| 0 <= i < size(inner) ==> (#[trigger] encode_utf8(inner)[i]) != CLOSE,
        short_inner(encode_utf8(inner)) <==> short(inner),
{
    let m = encode_utf8(inner);
    assert forall|i: int| 0 <= i < size(inner) implies (#[trigger] m[i]) != CLOSE by {
        if m[i] == CLOSE {
            lemma_ascii(inner, i);
            lemma_found(inner, i);
            lemma_number(after(inner, i)[0]);
        }
    }
    lemma_size(inner);
    if short(inner) {
        assert forall|i: int| 0 <= i < inner.len() implies (#[trigger] inner[i]) < '\u{80}' by {
            if all_digits(inner) {
                assert(digit(inner[i]));
            }
            if all_numerals(inner) {
                assert(numeral(inner[i]));
            }
        }
        lemma_bytes(inner);
        if all_digits(inner) {
            assert forall|i: int| 0 <= i < m.len() implies 0x30 <= #[trigger] m[i] <= 0x39 by {
                assert(digit(inner[i]));
            }
        }
        if all_numerals(inner) {
            assert forall|i: int| 0 <= i < m.len() implies numeral_byte(#[trigger] m[i]) by {
                assert(numeral(inner[i]));
            }
            assert forall|i: int| 0 <= i < m.len() implies
                roman_byte(#[trigger] m[i]) by {
                assert(numeral_byte(m[i]));
            }
        }
    }
    if short_inner(m) {
        assert forall|i: int| 0 <= i < m.len() implies (#[trigger] m[i]) < 0x80 by {}
        lemma_chars(inner);
        assert forall|i: int| 0 <= i < inner.len() implies (#[trigger] inner[i]) as int
            == m[i] as int by {
            assert(m[i] as int == inner[i] as int);
        }
        if forall|i: int|
            0 <= i < m.len() ==> digit_byte(#[trigger] m[i]) {
            assert forall|i: int| 0 <= i < inner.len() implies digit(#[trigger] inner[i]) by {
                assert(digit_byte(m[i]));
            }
        }
        if forall|i: int|
            0 <= i < m.len() ==> roman_byte(#[trigger] m[i]) {
            assert forall|i: int| 0 <= i < inner.len() implies numeral(#[trigger] inner[i]) by {
                assert(roman_byte(m[i]));
            }
        }
    }
}

/// Bytes of ASCII are characters.
pub proof fn lemma_chars(s: Seq<char>)
    requires
        forall|i: int| 0 <= i < size(s) ==> (#[trigger] encode_utf8(s)[i]) < 0x80,
    ensures
        size(s) == s.len(),
        forall|i: int| 0 <= i < s.len() ==> #[trigger] encode_utf8(s)[i] as int == s[i] as int,
    decreases s.len(),
{
    assert forall|i: int| 0 <= i < s.len() implies (#[trigger] s[i]) < '\u{80}' by {
        let a = s.take(i);
        let c = s.skip(i);
        assert(s =~= a + c);
        lemma_encode_concat(a, c);
        lemma_size(c);
        lemma_first(c);
        assert(encode_utf8(s)[size(a)] == encode_utf8(c)[0]);
        assert(c[0] == s[i]);
        lemma_number(s[i]);
    }
    lemma_bytes(s);
}

/// A character that stands at a cut is a character of the text.
pub proof fn lemma_found(s: Seq<char>, i: int)
    requires
        0 <= i < size(s),
        encode_utf8(s)[i] < 0x80,
    ensures
        s.contains(after(s, i)[0]),
        after(s, i).len() > 0,
{
    lemma_ascii(s, i);
    lemma_split(s, i);
    let a = before(s, i);
    let c = after(s, i);
    assert((a + c)[a.len() as int] == c[0]);
}

/// An open bracket with no closing one is no marker.
pub proof fn law_open_bracket(rest: Seq<char>)
    requires
        forall|i: int| 0 <= i < rest.len() ==> (#[trigger] rest[i]) != ')',
    ensures
        marker(seq!['('] + rest) is None,
{
    let o = seq!['('];
    let t = o + rest;
    let b = encode_utf8(t);
    assert(t[0] == '(');
    law_bullets('(');
    lemma_front_bytes(o, rest);
    lemma_digit_run(b, 0);
    lemma_roman_run(b, 0);
    lemma_next_byte(b, CLOSE, 1);
    let k = next_byte(b, CLOSE, 1);
    if k < b.len() {
        lemma_ascii(t, k);
        lemma_found(t, k);
        lemma_number(after(t, k)[0]);
        let j = t.index_of(after(t, k)[0]);
        if j > 0 {
            assert(rest[j - 1] == t[j]);
        }
    }
}

/// What starts with another character is no marker.
pub proof fn law_no_marker(t: Seq<char>)
    requires
        t.len() > 0 ==> {
            let c = t[0];
            !bullet(c) && !digit(c) && !letter(c) && c != '(' && c != '*' && c != '+' && c != '-'
        },
    ensures
        marker(t) is None,
{
    let b = encode_utf8(t);
    lemma_size(t);
    if t.len() > 0 {
        law_bullets(t[0]);
        lemma_first(t);
        lemma_number(t[0]);
    }
    lemma_digit_run(b, 0);
    lemma_roman_run(b, 0);
}

// Markers in their lines.

/// Behind a marker there must be a space or tab, and then content.
proof fn lemma_content(s: Seq<char>, rest: Seq<char>)
    requires
        all_blank(s),
        rest.len() > 0 ==> !blank(rest[0]),
    ensures
        next_content(s + rest) == if s.len() > 0 && rest.len() > 0 && rest[0] != '\n' && rest[0]
            != '\r' {
            Some(rest[0])
        } else {
            None
        },
{
    assert forall|i: int| 0 <= i < s.len() implies HorizontalSpace::has(#[trigger] s[i])
        == true by {
        assert(blank(s[i]));
    }
    lemma_front::<HorizontalSpace>(s, rest, true);
}

/// A line starts with the marker `k` when, behind its indent, `k` is one, and a space or tab
/// and then content follow it.
pub proof fn law_marker_at_line_start(
    w: Seq<char>,
    k: Seq<char>,
    s: Seq<char>,
    rest: Seq<char>,
    f: MarkerFamily,
)
    requires
        all_blank(w),
        k.len() > 0,
        !blank(k[0]),
        marker(k + s + rest) == Some((f, size(k))),
        all_blank(s),
        rest.len() > 0 ==> !blank(rest[0]),
    ensures
        line_marker(w + (k + s + rest)) == if s.len() > 0 && rest.len() > 0 && rest[0] != '\n'
            && rest[0] != '\r' {
            Some((f, size(k), encode_utf8(k)[0]))
        } else {
            None
        },
{
    let t = k + s + rest;
    assert(t[0] == k[0]);
    assert forall|i: int| 0 <= i < w.len() implies HorizontalSpace::has(#[trigger] w[i])
        == true by {
        assert(blank(w[i]));
    }
    lemma_front::<HorizontalSpace>(w, t, true);
    assert(t =~= k + (s + rest));
    lemma_meet(k, s + rest);
    lemma_encode_concat(k, s + rest);
    lemma_size(k);
    lemma_content(s, rest);
}

/// A line that starts with no marker behind its indent has none.
pub proof fn law_no_marker_at_line_start(w: Seq<char>, t: Seq<char>)
    requires
        all_blank(w),
        t.len() > 0 ==> !blank(t[0]),
        marker(t) is None,
    ensures
        line_marker(w + t) is None,
{
    assert forall|i: int| 0 <= i < w.len() implies HorizontalSpace::has(#[trigger] w[i])
        == true by {
        assert(blank(w[i]));
    }
    lemma_front::<HorizontalSpace>(w, t, true);
}

/// Within a line a marker counts when content follows that does not start in lower case,
/// and when it is neither a bullet of ASCII nor a number or letter with a bare dot.
pub proof fn law_marker_within_line(
    k: Seq<char>,
    s: Seq<char>,
    rest: Seq<char>,
    f: MarkerFamily,
)
    requires
        k.len() > 0,
        marker(k + s + rest) == Some((f, size(k))),
        all_blank(s),
        rest.len() > 0 ==> !blank(rest[0]),
    ensures
        inline_marker(k + s + rest) == if s.len() > 0 && rest.len() > 0 && rest[0] != '\n'
            && rest[0] != '\r' && !unicode_lowercase(rest[0]) && f != MarkerFamily::Bullet && !(
        k.last() == '.' && (f == MarkerFamily::Numeric || f == MarkerFamily::LetterDot || f
            == MarkerFamily::Roman)) {
            Some((f, size(k), encode_utf8(k)[0]))
        } else {
            None
        },
{
    let t = k + s + rest;
    assert(t =~= k + (s + rest));
    lemma_meet(k, s + rest);
    lemma_encode_concat(k, s + rest);
    lemma_size(k);
    lemma_content(s, rest);
    // The last byte.
    let front = k.drop_last();
    let last = seq![k.last()];
    assert(k =~= front + last);
    lemma_encode_concat(front, last);
    lemma_first(last);
    lemma_single(k.last());
    lemma_number(k.last());
    let n = size(k);
    assert(encode_utf8(t)[n - 1] == encode_utf8(k)[n - 1]);
    assert(encode_utf8(k)[n - 1] == encode_utf8(last)[size(last) - 1]);
    if encode_utf8(last)[size(last) - 1] == 0x2e {
        lemma_ascii(last, size(last) - 1);
    }
}

} // verus!
