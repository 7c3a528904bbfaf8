//! What the words around a terminator say of it.

use vstd::prelude::*;
use vstd::string::*;

use crate::case::unicode_upper_case;
use crate::chars::{
    ascii_upper, back_word, front_word, is_ascii_digit, is_ascii_lower, is_ascii_upper,
    is_white_space, strip_back, strip_front, white_space, ClockDigit, SentenceMark, White,
};
use crate::constants::{CONTINUE_AFTER_NONWORD_PATTERN, QUOTE_PAIRS};
use crate::languages::ranges::{is_symmetric, symmetric_pair_at};
use crate::pattern::{is_match_facts, lower_or_digit, regex_is_match, Pattern};
use crate::text::{
    behind, byte_len, first_char, head, lemma_prefix, pop_back, pop_front, same, starts_with, step,
    tail, trim_back, trim_front, word_back, word_front,
};
use crate::utf8::{after, before, lemma_cut_ends, lemma_size, lemma_whole, size};
use crate::words::{is_among, word_is_among};

verus! {

/// True for a single capital of ASCII.
pub open spec fn single_ascii_upper(s: Seq<char>) -> bool {
    s.len() == 1 && ascii_upper(s[0])
}

/// True when `s` is a single capital of ASCII, as the initials of names are.
pub fn is_single_ascii_upper(s: &str) -> (r: bool)
    ensures
        r == single_ascii_upper(s@),
{
    match pop_front(s) {
        Some((c, rest)) => match first_char(rest) {
            Some(_) => false,
            None => is_ascii_upper(c),
        },
        None => false,
    }
}

/// True when `s` starts, behind white space, with a single capital of ASCII, a `.`,
/// and white space or nothing more.
pub open spec fn initial_first(s: Seq<char>) -> bool {
    let t = strip_front::<White>(s);
    &&& t.len() >= 2
    &&& ascii_upper(t[0])
    &&& t[1] == '.'
    &&& t.len() == 2 || white_space(t[2])
}

/// True when `s` starts, behind white space, with the initial of a name. `J. R.`
/// does; `Jones`, `J.R.R.` and `A.B` do not.
pub fn starts_with_initial(s: &str) -> (r: bool)
    ensures
        r == initial_first(s@),
{
    let t = trim_front::<White>(s);
    match pop_front(t) {
        None => false,
        Some((first, rest)) => match pop_front(rest) {
            None => false,
            Some((second, rest2)) => {
                let parted: bool = match first_char(rest2) {
                    None => true,
                    Some(third) => is_white_space(third),
                };
                is_ascii_upper(first) && second == '.' && parted
            },
        },
    }
}

/// True when `s` ends with `a.m` or `p.m`, in any case.
pub open spec fn ends_with_time(s: Seq<char>) -> bool {
    let n = s.len();
    &&& n >= 3
    &&& s[n - 3] == 'a' || s[n - 3] == 'A' || s[n - 3] == 'p' || s[n - 3] == 'P'
    &&& s[n - 2] == '.'
    &&& s[n - 1] == 'm' || s[n - 1] == 'M'
}

/// True when `s` ends with `a.m` or `p.m`, in any case.
pub fn is_time_abbreviation(s: &str) -> (r: bool)
    ensures
        r == ends_with_time(s@),
{
    match pop_back(s) {
        None => false,
        Some((rest, c2)) => match pop_back(rest) {
            None => false,
            Some((rest2, c1)) => match pop_back(rest2) {
                None => false,
                Some((_, c0)) => {
                    (c0 == 'a' || c0 == 'A' || c0 == 'p' || c0 == 'P') && c1 == '.' && (c2 == 'm'
                        || c2 == 'M')
                },
            },
        },
    }
}

/// True when the word before the time of day that `head` ends with starts with a
/// capital of ASCII.
pub open spec fn time_fronted(head: Seq<char>) -> bool {
    let number = strip_back::<White>(head.take(head.len() - 3));
    let phrase = strip_back::<White>(strip_back::<ClockDigit>(number));
    let word = back_word::<White>(phrase);
    word.len() > 0 && ascii_upper(word[0])
}

/// True when the time of day that `head` ends with opens a sentence (`At 5 a.m.`)
/// rather than closing one (`he left at 6 p.m.`): the word that introduces it starts
/// with a capital.
pub fn time_phrase_is_fronted(head: &str) -> (r: bool)
    requires
        ends_with_time(head@),
    ensures
        r == time_fronted(head@),
{
    let mut rest = head;
    let mut k: usize = 0;
    while k < 3
        invariant
            k <= 3 <= head@.len(),
            rest@ == head@.take(head@.len() - k),
        decreases 3 - k,
    {
        match pop_back(rest) {
            Some((shorter, c)) => {
                proof {
                    assert(shorter@ =~= rest@.drop_last());
                    assert(shorter@ =~= head@.take(head@.len() - k - 1));
                }
                rest = shorter;
            },
            None => {},
        }
        k += 1;
    }
    let number = trim_back::<White>(rest);
    let phrase = trim_back::<White>(trim_back::<ClockDigit>(number));
    match first_char(word_back::<White>(phrase)) {
        Some(c) => is_ascii_upper(c),
        None => false,
    }
}

/// True when `text` goes on with a lower case letter or a digit, behind white space
/// and at most one symmetric quotation mark with its white space.
pub open spec fn continues_behind_quote(text: Seq<char>) -> bool {
    let start = strip_front::<White>(text);
    let rest = match symmetric_pair_at(start, 0, 0) {
        Some(k) => strip_front::<White>(after(start, size(QUOTE_PAIRS@[k].0@))),
        None => start,
    };
    rest.len() > 0 && lower_or_digit(rest[0])
}

/// True when `text`, which follows a `!` or `?`, goes on with the same sentence: with
/// a lower case letter or a digit, behind white space and at most one symmetric
/// quotation mark, which may be left over between the terminator and the rest of the
/// sentence.
pub fn continuation_after_orphan_quote(text: &str) -> (r: bool)
    ensures
        r == continues_behind_quote(text@),
{
    let start = trim_front::<White>(text);
    let mut rest = start;
    let mut found: bool = false;
    let mut k: usize = 0;
    while k < QUOTE_PAIRS.len() && !found
        invariant
            k <= QUOTE_PAIRS@.len(),
            !found ==> rest@ == start@ && symmetric_pair_at(start@, 0, 0) == symmetric_pair_at(
                start@,
                0,
                k as int,
            ),
            found ==> (symmetric_pair_at(start@, 0, 0) matches Some(i) && rest@ == strip_front::<
                White,
            >(after(start@, size(QUOTE_PAIRS@[i].0@)))),
        decreases QUOTE_PAIRS@.len() - k + if found { 0int } else { 1 },
    {
        let open: &'static str = QUOTE_PAIRS[k].0;
        let close: &'static str = QUOTE_PAIRS[k].1;
        if same(open, close) && starts_with(start, open) {
            proof {
                assert(is_symmetric(k as int));
                lemma_prefix(start@, open@);
            }
            rest = trim_front::<White>(behind(start, open, 0));
            found = true;
        } else {
            k += 1;
        }
    }
    match first_char(rest) {
        Some(c) => is_ascii_lower(c) || is_ascii_digit(c),
        None => false,
    }
}

/// The first word of `text`, without the sentence marks at its ends.
pub open spec fn bare_word(text: Seq<char>) -> Seq<char> {
    strip_back::<SentenceMark>(
        strip_front::<SentenceMark>(front_word::<White>(strip_front::<White>(text))),
    )
}

/// `w` with its first character in upper case.
pub open spec fn capitalized(w: Seq<char>) -> Seq<char> {
    unicode_upper_case(seq![w[0]]) + w.drop_first()
}

/// True when the first word of `text` is one of `months`, as it stands or with its
/// first letter in upper case.
pub open spec fn month_first(text: Seq<char>, months: Seq<&str>) -> bool {
    let w = bare_word(text);
    w.len() > 0 && (is_among(months, w) || is_among(months, capitalized(w)))
}

/// True when the first word of `text` is one of `months`, as it stands or with its
/// first letter in upper case.
pub fn starts_with_month(text: &str, months: &[&str]) -> (r: bool)
    ensures
        r == month_first(text@, months@),
{
    let first = word_front::<White>(trim_front::<White>(text));
    let word = trim_back::<SentenceMark>(trim_front::<SentenceMark>(first));
    proof {
        lemma_size(word@);
        lemma_cut_ends(word@);
        lemma_whole(word@);
    }
    if byte_len(word) == 0 {
        return false;
    }
    let (_, at) = step(word, 0);
    let rest = tail(word, at);
    let mut capital: String = head(word, at).to_uppercase();
    capital.append(rest);
    proof {
        assert(before(word@, at as int) =~= seq![word@[0]]);
        assert(word@.drop_first() =~= rest@);
    }
    word_is_among(months, word) || word_is_among(months, capital.as_str())
}

/// True when a sentence goes on behind a terminator: a lower case letter or a digit
/// follows, behind characters that belong to no word, or the first word of `text` is
/// one of `months`, as it stands or with its first letter in upper case.
pub fn continues_after_boundary(text: &str, months: &[&str]) -> (r: bool)
    ensures
        r == (regex_is_match(CONTINUE_AFTER_NONWORD_PATTERN@, text@) || month_first(
            text@,
            months@,
        )),
        is_match_facts(
            CONTINUE_AFTER_NONWORD_PATTERN@,
            text@,
            regex_is_match(CONTINUE_AFTER_NONWORD_PATTERN@, text@),
        ),
{
    let pattern = Pattern::own(CONTINUE_AFTER_NONWORD_PATTERN);
    pattern.is_match(text) || starts_with_month(text, months)
}

} // verus!
