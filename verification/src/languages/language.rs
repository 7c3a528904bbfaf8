//! Taking texts apart into sentences.

use vstd::prelude::*;
use vstd::string::*;
use vstd::utf8::*;

use crate::chars::{
    ascii_digit, is_ascii_digit, is_ascii_upper, is_white_space, lemma_run_back, lemma_run_front,
    run_front, strip_back, strip_front, white_space, CharClass, NameSeparator, TokenSeparator,
    White,
};
use crate::constants::{
    is_exclamation_word, CONTINUE_AFTER_NONWORD_PATTERN, NUMBERED_REFERENCE_PATTERN,
    QUOTE_CLOSERS_BY_LEN, OpenerEnd, Trailing,
};
use crate::languages::boundary::{
    all_covered, are_gaps, are_items, boundaries, boundaries_upto, gap_after, gap_boundary, gaps_of,
    joined, law_boundaries_make_up_text, law_items_are_the_sentences, lemma_gaps_of,
    lemma_paragraph, lemma_upto_step, lined_up, located, paragraph, paragraph_sentences,
    paragraph_start, push_gap, push_sentences, sentences, texts, views, Boundary, SentenceBoundary,
};
use crate::languages::cuts::{
    covers, divides, insert_boundary, lemma_pushed, lemma_with_cut, push_if_increasing, pushed,
    with_starts,
};
use crate::languages::phrases::{
    continuation_after_orphan_quote, is_single_ascii_upper, is_time_abbreviation,
    single_ascii_upper, starts_with_initial, time_phrase_is_fronted,
};
use crate::languages::ranges::{
    collect_ranges, earlier_quotes_lie_in, is_orphan_closer, is_symmetric_quote_closer,
    is_symmetric_quote_range, lemma_marks, lemma_no_marks, lemma_quotes_concat, lemma_quotes_sorted,
    lemma_ranges_from, no_marks, quote_partially_overlaps_parens, quotes_lie_in,
    starts_new_utterance, symmetric_range, symmetric_token_count_is_odd, SkippableRange,
    SkippableRangeType,
};
use crate::languages::rules::{
    behind_run, code_follows, ends_in, is_list, last_token, last_word, law_items_are_whole,
    law_only_quotes_lead_into_items, law_without_terminators_one_sentence, least, list_ranges,
    next_word, orphan_at, past_space, quoted_earlier, range_starts, skippable_ranges,
    symmetric_orphan_at, time_ends_sentence, with_list, LOOKAHEAD, MAX_EXTEND, Rules,
};
use crate::languages::terminators::{find_terminator_matches, lemma_first_run};
use crate::order::{in_order, sort};
use crate::pattern::{
    are_spans, as_span, as_spans, find_facts, find_iter_facts, is_match_facts, is_quoted, is_span,
    regex_find, regex_find_iter, regex_is_match, sentence_break_pattern, Pattern, Patterns,
};
use crate::text::{
    as_position, as_positions, byte_len, ceil_char_boundary, ceil_cut, char_cut, first_char,
    floor_char_boundary, has_at, head, last_char, lemma_ceil_cut, lemma_floor_cut, lemma_occurs,
    occurs_at, piece, pop_back, pop_front, same, tail, trim_back, trim_front, word_back, word_front,
};
use crate::utf8::{
    after, before, between, is_cut, lemma_between, lemma_cut_ends, lemma_encode_concat, lemma_join,
    lemma_nested, lemma_piece, lemma_size, lemma_split, lemma_whole, size,
};
use crate::words::{trim, WordSet};

verus! {

/// The words behind a cut are a piece of the text, and so are its pieces.
pub proof fn lemma_next_word(t: Seq<char>, at: int)
    requires
        is_cut(t, at),
    ensures
        at + size(next_word(t, at)) <= size(t),
        forall|k: int| #[trigger] is_cut(next_word(t, at), k) ==> is_cut(t, at + k),
        is_cut(t, at + size(next_word(t, at))),
        next_word(t, at) == between(t, at, at + size(next_word(t, at))),
{
    lemma_cut_ends(t);
    if at < size(t) {
        let to = if at + LOOKAHEAD <= size(t) {
            at + LOOKAHEAD
        } else {
            size(t)
        };
        lemma_floor_cut(t, at);
        lemma_ceil_cut(t, to);
        lemma_between(t, at, ceil_cut(t, to));
        lemma_nested(t, at, ceil_cut(t, to));
    } else {
        lemma_size(Seq::<char>::empty());
        lemma_whole(t);
    }
}

/// The text behind a run of terminators starts at a cut, and not before the run ends.
proof fn lemma_behind_run(t: Seq<char>, start: int, end: int)
    requires
        is_cut(t, start),
        is_cut(t, end),
        start <= end,
    ensures
        is_cut(t, behind_run(t, start, end)),
        end <= behind_run(t, start, end),
{
    let next = ceil_cut(t, start + 1);
    lemma_cut_ends(t);
    lemma_ceil_cut(t, start + 1);
    if next < end {
        lemma_join(t, start, next, end);
        lemma_between(t, start, next);
        lemma_between(t, next, end);
        lemma_size(between(t, start, next));
        lemma_size(between(t, next, end));
    }
}

/// The first cut behind `at`.
fn next_cut(text: &str, at: usize) -> (r: usize)
    requires
        is_cut(text@, at as int),
    ensures
        r == ceil_cut(text@, at + 1),
        is_cut(text@, r as int),
{
    let n: usize = byte_len(text);
    proof {
        lemma_cut_ends(text@);
    }
    if at < n {
        ceil_char_boundary(text, at + 1)
    } else {
        n
    }
}

/// True when `text` has a digit of ASCII in it.
fn has_digit(text: &str) -> (r: bool)
    ensures
        r == exists|i: int| 0 <= i < text@.len() && ascii_digit(#[trigger] text@[i]),
{
    let mut rest = text;
    let ghost mut k: int = 0;
    proof {
        assert(text@.skip(0) =~= text@);
    }
    loop
        invariant
            0 <= k <= text@.len(),
            rest@ == text@.skip(k),
            forall|i: int| 0 <= i < k ==> !ascii_digit(#[trigger] text@[i]),
        decreases rest@.len(),
    {
        match pop_front(rest) {
            None => {
                return false;
            },
            Some((c, shorter)) => {
                assert(text@[k] == rest@[0]);
                if is_ascii_digit(c) {
                    return true;
                }
                proof {
                    assert(shorter@ =~= rest@.skip(1));
                    assert(shorter@ =~= text@.skip(k + 1));
                    k = k + 1;
                }
                rest = shorter;
            },
        }
    }
}

/// How many characters at the front of `word` are white space or terminators, counted
/// up to a limit.
fn trailing_count(word: &str) -> (r: usize)
    ensures
        r == least(run_front::<Trailing>(word@, true), MAX_EXTEND as int),
{
    let mut count: usize = 0;
    let mut rest = word;
    proof {
        lemma_run_front::<Trailing>(rest@, true);
    }
    while count < MAX_EXTEND
        invariant
            count <= MAX_EXTEND,
            0 <= run_front::<Trailing>(rest@, true),
            run_front::<Trailing>(word@, true) == count + run_front::<Trailing>(rest@, true),
        ensures
            count == least(run_front::<Trailing>(word@, true), MAX_EXTEND as int),
        decreases MAX_EXTEND - count,
    {
        match pop_front(rest) {
            None => {
                break;
            },
            Some((c, shorter)) => {
                proof {
                    assert(rest@.drop_first() =~= shorter@);
                    lemma_run_front::<Trailing>(shorter@, true);
                }
                if !Trailing::test(c) {
                    break;
                }
                rest = shorter;
                count += 1;
            },
        }
    }
    count
}

/// True when both texts end with the same character.
fn same_last(a: &str, b: &str) -> (r: bool)
    ensures
        r == ends_in(a@, b@),
{
    match (last_char(a), last_char(b)) {
        (Some(c), Some(d)) => c == d,
        _ => false,
    }
}

/// True when a range starts at `at`.
fn some_range_starts(ranges: &[SkippableRange], at: usize) -> (r: bool)
    ensures
        r == range_starts(ranges@, at as int),
{
    let mut k: usize = 0;
    while k < ranges.len()
        invariant
            k <= ranges@.len(),
            forall|j: int| 0 <= j < k ==> (#[trigger] ranges@[j]).start != at,
        decreases ranges@.len() - k,
    {
        if ranges[k].start == at {
            assert(ranges@[k as int].start == at);
            return true;
        }
        k += 1;
    }
    false
}

/// The number of the orphan closer at `boundary`. Longer closers come first, so that
/// `''` is not taken for `'`.
fn find_orphan(paragraph: &str, boundary: usize, ranges: &[SkippableRange]) -> (r: Option<usize>)
    ensures
        as_position(r) == orphan_at(paragraph@, boundary as int, ranges@, 0),
        r matches Some(k) ==> k < QUOTE_CLOSERS_BY_LEN@.len() && occurs_at(
            paragraph@,
            QUOTE_CLOSERS_BY_LEN@[k as int]@,
            boundary as int,
        ),
{
    let mut k: usize = 0;
    while k < QUOTE_CLOSERS_BY_LEN.len()
        invariant
            k <= QUOTE_CLOSERS_BY_LEN@.len(),
            orphan_at(paragraph@, boundary as int, ranges@, 0) == orphan_at(
                paragraph@,
                boundary as int,
                ranges@,
                k as int,
            ),
        decreases QUOTE_CLOSERS_BY_LEN@.len() - k,
    {
        let closer: &'static str = QUOTE_CLOSERS_BY_LEN[k];
        assert(QUOTE_CLOSERS_BY_LEN@[k as int] == closer);
        if has_at(paragraph, closer, boundary) && is_orphan_closer(
            paragraph,
            boundary,
            closer,
            ranges,
        ) {
            return Some(k);
        }
        k += 1;
    }
    None
}

/// True when a quote in the marks `closer` ends at or before `boundary`.
fn was_quoted_earlier(
    paragraph: &str,
    boundary: usize,
    closer: &str,
    ranges: &[SkippableRange],
) -> (r: bool)
    requires
        earlier_quotes_lie_in(paragraph@, ranges@, boundary as int),
    ensures
        r == quoted_earlier(paragraph@, boundary as int, closer@, ranges@),
{
    let mut k: usize = 0;
    while k < ranges.len()
        invariant
            k <= ranges@.len(),
            earlier_quotes_lie_in(paragraph@, ranges@, boundary as int),
            forall|j: int|
                0 <= j < k ==> !((#[trigger] ranges@[j]).end <= boundary && symmetric_range(
                    paragraph@,
                    ranges@[j],
                ) && occurs_at(paragraph@, closer@, ranges@[j].start as int)),
        decreases ranges@.len() - k,
    {
        let quote: SkippableRange = ranges[k];
        assert(ranges@[k as int] == quote);
        if quote.end <= boundary && is_symmetric_quote_range(paragraph, &quote) && has_at(
            paragraph,
            closer,
            quote.start,
        ) {
            return true;
        }
        k += 1;
    }
    false
}

/// True when `t` does not start with white space.
pub open spec fn no_space_first(t: Seq<char>) -> bool {
    t.len() > 0 ==> !white_space(t[0])
}

/// True when `t` starts neither with white space nor with a terminator.
pub open spec fn nothing_trails(t: Seq<char>) -> bool {
    t.len() > 0 ==> !Trailing::has(t[0])
}

/// The position behind the white space that starts at `at`.
pub fn advance_past_space(paragraph: &str, at: usize, patterns: &Patterns) -> (r: usize)
    requires
        patterns.wf(),
        is_cut(paragraph@, at as int),
    ensures
        r == past_space(paragraph@, at as int),
        is_cut(paragraph@, r as int),
        at <= r,
        after(paragraph@, r as int) == strip_front::<White>(after(paragraph@, at as int)),
{
    let rest = tail(paragraph, at);
    let _limit: usize = byte_len(paragraph);
    proof {
        lemma_cut_ends(paragraph@);
        lemma_nested(paragraph@, at as int, size(paragraph@));
        lemma_run_front::<White>(rest@, true);
    }
    match patterns.space.find(rest) {
        Some((s, n)) => {
            proof {
                let found = (s as int, n as int);
                assert(is_span(rest@, found));
                let front = rest@.take(run_front::<White>(rest@, true));
                let back = strip_front::<White>(rest@);
                assert(rest@ =~= front + back);
                lemma_encode_concat(front, back);
                assert(encode_utf8(back) =~= encode_utf8(rest@).subrange(n as int, size(rest@)));
                lemma_piece(rest@, n as int, size(rest@), back);
                assert(between(rest@, n as int, size(rest@)) == between(
                    paragraph@,
                    at + n,
                    at + size(rest@),
                ));
            }
            at + n
        },
        None => {
            proof {
                assert(rest@.take(0) =~= Seq::<char>::empty());
                lemma_size(rest@.take(0));
                assert(rest@.skip(0) =~= rest@);
            }
            at
        },
    }
}

/// The position behind the terminators that were found in the text from `at` on, if
/// they stand right there, and behind the white space that follows them.
pub fn advance_past_terminators(
    paragraph: &str,
    at: usize,
    found: Option<(usize, usize)>,
    patterns: &Patterns,
) -> (r: Option<usize>)
    requires
        patterns.wf(),
        is_cut(paragraph@, at as int),
        as_span(found) matches Some(m) ==> is_span(after(paragraph@, at as int), m),
    ensures
        as_position(r) == Rules::terminator_step(paragraph@, at as int, as_span(found)),
        r matches Some(next) ==> is_cut(paragraph@, next as int) && at < next && no_space_first(
            after(paragraph@, next as int),
        ),
        r is None ==> (as_span(found) matches Some(m) ==> m.0 != 0 || m.0 == m.1),
{
    let _limit: usize = byte_len(paragraph);
    match found {
        Some((s, n)) => {
            proof {
                lemma_cut_ends(paragraph@);
                lemma_nested(paragraph@, at as int, size(paragraph@));
                let m = (s as int, n as int);
                assert(is_span(after(paragraph@, at as int), m));
            }
            let next: usize = advance_past_space(paragraph, at + n, patterns);
            proof {
                lemma_run_front::<White>(after(paragraph@, at + n), true);
            }
            if s == 0 && at < next {
                Some(next)
            } else {
                None
            }
        },
        None => None,
    }
}

/// Adds the items that start at `starts`, each of which ends where the next starts, and
/// the last at `end`, to `ranges`.
fn add_list_ranges(
    paragraph: &str,
    ranges: Vec<SkippableRange>,
    starts: &[usize],
    end: usize,
) -> (r: Vec<SkippableRange>)
    requires
        quotes_lie_in(paragraph@, ranges@),
    ensures
        r@ == with_list(ranges@, starts@, end as int),
        quotes_lie_in(paragraph@, r@),
{
    let n: usize = starts.len();
    let mut all: Vec<SkippableRange> = ranges;
    if n == 0 {
        return all;
    }
    let ghost was = all@;
    let ghost items = list_ranges(starts@, end as int);
    let mut i: usize = 0;
    proof {
        assert(was + items.take(0) =~= was);
    }
    while i < n
        invariant
            n == starts@.len(),
            i <= n,
            items == list_ranges(starts@, end as int),
            all@ == was + items.take(i as int),
        decreases n - i,
    {
        let item_end: usize = if i + 1 < n {
            starts[i + 1]
        } else {
            end
        };
        let item = SkippableRange::new(starts[i], item_end, SkippableRangeType::ListItem);
        all.push(item);
        proof {
            assert(items[i as int] == item);
            assert(items.take(i + 1) =~= items.take(i as int).push(item));
        }
        i += 1;
    }
    proof {
        assert(items.take(n as int) =~= items);
        lemma_quotes_concat(paragraph@, was, items);
        lemma_quotes_sorted(paragraph@, was + items);
    }
    sort(&mut all);
    all
}

/// What texts hold, one by one.
pub open spec fn strings(s: Seq<&str>) -> Seq<Seq<char>> {
    s.map_values(|t: &str| t@)
}

/// A language, and how its texts are taken apart into sentences.
///
/// A language says what its abbreviations and the like are; the methods with a body
/// do the rest, by the rules that result.
pub trait Language {
    /// What this language lays down.
    spec fn rules(&self) -> Rules;

    /// The expressions that all languages share.
    fn patterns(&self) -> (r: &Patterns)
        ensures
            r.wf(),
    ;

    /// The expression for the runs of punctuation that can end a sentence.
    fn get_sentence_break_regex(&self) -> (r: &Pattern)
        ensures
            r.source() == self.rules().break_pattern,
    ;

    /// The mark at the end of an abbreviation.
    fn get_abbreviation_char(&self) -> (r: &str)
        ensures
            r@ == self.rules().abbreviation_char,
    ;

    /// The abbreviations, without the mark at their end.
    fn get_abbreviations(&self) -> (r: &WordSet)
        ensures
            r@ == self.rules().abbreviations,
    ;

    /// Words that, with a capital, nearly always open a sentence.
    fn get_sentence_starters(&self) -> (r: &WordSet)
        ensures
            r@ == self.rules().starters,
    ;

    /// True when the text behind a terminator goes on with the same sentence.
    fn continue_in_next_word(&self, text_after_boundary: &str) -> (r: bool)
        ensures
            r == (self.rules().continues)(text_after_boundary@),
    ;

    /// Where the items of the lists in `paragraph` start, or `None` for a language
    /// without lists. Each position ends a sentence, and from one to the next nothing
    /// else does.
    fn list_items(&self, paragraph: &str) -> (r: Option<Vec<usize>>)
        ensures
            match r {
                Some(v) => (self.rules().list_offsets)(paragraph@) == Some(v@),
                None => (self.rules().list_offsets)(paragraph@) is None,
            },
            self.rules().lists_lie_in(paragraph@),
    ;

    /// The last word of `text`, taken apart at white space, `.` and `/`.
    fn get_last_word<'a>(&self, text: &'a str) -> (r: &'a str)
        ensures
            r@ == last_word(text@),
    {
        word_back::<NameSeparator>(trim_back::<White>(text))
    }

    /// The last word of `text`, taken apart at white space and `/` alone, so that
    /// abbreviations with dots in them (`w.e.f`, `U.S`) stay whole.
    fn get_last_word_full<'a>(&self, text: &'a str) -> (r: &'a str)
        ensures
            r@ == last_token(text@),
    {
        word_back::<TokenSeparator>(trim_back::<White>(text))
    }

    /// The next words from `start` on, some thirty bytes of them. It starts and ends
    /// between characters.
    fn get_next_word_approx<'a>(&self, text: &'a str, start: usize) -> (r: &'a str)
        ensures
            r@ == next_word(text@, start as int),
    {
        let n: usize = byte_len(text);
        if start >= n {
            proof {
                reveal_strlit("");
                assert(""@ =~= Seq::<char>::empty());
            }
            return "";
        }
        let from: usize = floor_char_boundary(text, start);
        let end: usize = if n - start <= LOOKAHEAD {
            n
        } else {
            start + LOOKAHEAD
        };
        let to: usize = ceil_char_boundary(text, end);
        proof {
            lemma_floor_cut(text@, start as int);
            lemma_ceil_cut(text@, end as int);
        }
        piece(text, from, to)
    }

    /// True when `word` is listed as an abbreviation: as it stands, in lower case or in
    /// upper case.
    fn is_listed(&self, word: &str) -> (r: bool)
        ensures
            r == self.rules().knows(word@),
    {
        let abbreviations = self.get_abbreviations();
        abbreviations.contains(word) || abbreviations.contains(word.to_lowercase().as_str())
            || abbreviations.contains(word.to_uppercase().as_str())
    }

    /// True when `last_word` before `separator` is an abbreviation, which ends no
    /// sentence.
    fn is_abbreviation(&self, _head: &str, last_word: &str, separator: &str) -> (r: bool)
        ensures
            r == self.rules().abbreviation(last_word@, separator@),
    {
        proof {
            lemma_size(last_word@);
        }
        if !same(self.get_abbreviation_char(), separator) || byte_len(last_word) == 0 {
            return false;
        }
        self.is_listed(last_word)
    }

    /// True when the last token of `head` is an abbreviation with dots in it (`w.e.f`,
    /// `U.S`). `tail_len` is the length of its last word: a token that is no longer
    /// has no dot in it.
    fn is_multi_dot_abbreviation(&self, head: &str, tail_len: usize) -> (r: bool)
        ensures
            r == self.rules().multi_dot(head@, tail_len as int),
    {
        let last_word_full = self.get_last_word_full(head);
        if byte_len(last_word_full) <= tail_len {
            return false;
        }
        self.is_listed(last_word_full)
    }

    /// True when `last_word`, which `head` ends with, is the initial of a name: a
    /// single capital, and the word before it starts with a capital too (`George W.`)
    /// or the next word is an initial itself (`J. R. R. Tolkien`).
    fn is_name_initial(&self, head: &str, last_word: &str, next_word_approx: &str) -> (r: bool)
        requires
            single_ascii_upper(last_word@) ==> ends_in(
                strip_back::<White>(head@),
                last_word@,
            ) || is_cut(head@, size(head@) - 1),
        ensures
            r == self.rules().name_initial(head@, last_word@, next_word_approx@),
    {
        if !is_single_ascii_upper(last_word) {
            return false;
        }
        let trimmed = trim_back::<White>(head);
        let whole = if same_last(trimmed, last_word) {
            trimmed
        } else {
            head
        };
        let named: bool = match pop_back(whole) {
            None => false,
            Some((front, _)) => {
                proof {
                    assert(front@ =~= whole@.drop_last());
                    lemma_size(head@);
                }
                let prefix = trim_back::<NameSeparator>(front);
                match first_char(self.get_last_word(prefix)) {
                    Some(c) => is_ascii_upper(c),
                    None => false,
                }
            },
        };
        proof {
            lemma_size(head@);
        }
        named || starts_with_initial(next_word_approx)
    }

    /// True when the first word of `next_word_approx` is one that opens sentences. It
    /// ends at white space, a comma or a terminator.
    fn next_word_is_sentence_starter(&self, next_word_approx: &str) -> (r: bool)
        ensures
            r == self.rules().starter_follows(next_word_approx@),
    {
        let starters = self.get_sentence_starters();
        if starters.is_empty() {
            return false;
        }
        let word = word_front::<OpenerEnd>(trim_front::<White>(next_word_approx));
        proof {
            lemma_size(word@);
        }
        byte_len(word) > 0 && starters.contains(word)
    }

    /// True when a sentence ends although `last_word` is an abbreviation or an initial:
    /// a word that opens sentences follows, and `last_word` starts with a capital
    /// (`Penn.`), ends an abbreviation with dots in it (`w.e.f.`), or is listed just as
    /// it stands and is no single letter (`etc.`).
    fn should_override_abbrev_suppression(
        &self,
        head: &str,
        last_word: &str,
        next_word_approx: &str,
    ) -> (r: bool)
        ensures
            r == self.rules().overrides(head@, last_word@, next_word_approx@),
    {
        if !self.next_word_is_sentence_starter(next_word_approx) {
            return false;
        }
        match pop_front(last_word) {
            None => self.is_multi_dot_abbreviation(head, byte_len(last_word)),
            Some((c, rest)) => {
                proof {
                    lemma_size(rest@);
                }
                is_ascii_upper(c) || self.is_multi_dot_abbreviation(head, byte_len(last_word)) || (
                byte_len(rest) > 0 && self.get_abbreviations().contains(last_word))
            },
        }
    }

    /// True when the word before a terminator is one that is written with an
    /// exclamation mark, such as `Yahoo!`.
    fn is_exclamation(&self, head: &str, _tail: &str) -> (r: bool)
        ensures
            r == crate::constants::exclamation_word(last_word(head@) + "!"@),
    {
        let mut word: String = self.get_last_word(head).to_owned();
        word.append("!");
        is_exclamation_word(word.as_str())
    }

    /// True when the terminator from `start` to `end` is almost certainly the end of a
    /// sentence: a `.` behind a plain word, with a word that opens sentences behind it,
    /// or, if the word before it is a quotation mark, any word with a capital.
    fn has_strong_sentence_break(&self, paragraph: &str, start: usize, end: usize) -> (r: bool)
        requires
            is_cut(paragraph@, start as int),
            is_cut(paragraph@, end as int),
            start <= end,
        ensures
            r == self.rules().strong_break(paragraph@, start as int, end as int),
    {
        if !same(piece(paragraph, start, end), ".") {
            return false;
        }
        let front = head(paragraph, start);
        let word = self.get_last_word(front);
        proof {
            lemma_size(word@);
        }
        if byte_len(word) == 0 || is_single_ascii_upper(word) {
            return false;
        }
        if self.is_abbreviation(front, word, ".") || self.is_multi_dot_abbreviation(
            front,
            byte_len(word),
        ) {
            return false;
        }
        let next_index: usize = next_cut(paragraph, start);
        let next = self.get_next_word_approx(paragraph, next_index);
        if is_symmetric_quote_closer(word) {
            match first_char(trim_front::<White>(next)) {
                Some(c) => {
                    if is_ascii_upper(c) {
                        return true;
                    }
                },
                None => {},
            }
        }
        self.next_word_is_sentence_starter(next)
    }

    /// True when a `.` behind the time of day that `head` ends with does end a sentence:
    /// a digit follows, or a capital, and no capital introduces the time.
    fn is_time_at_end(&self, head: &str, next_word_approx: &str) -> (r: bool)
        ensures
            r == time_ends_sentence(head@, next_word_approx@),
    {
        let time = trim_back::<White>(head);
        if !is_time_abbreviation(time) {
            return false;
        }
        match first_char(trim_front::<White>(next_word_approx)) {
            Some(c) => is_ascii_digit(c) || (c.is_uppercase() && !time_phrase_is_fronted(time)),
            None => false,
        }
    }

    /// True when a digit and `.` are followed at once by a token that starts with a
    /// letter and has a digit in it, as in the move `7.Bg5`.
    fn is_code(&self, head: &str, next_word_approx: &str) -> (r: bool)
        ensures
            r == code_follows(head@, next_word_approx@),
    {
        let digit: bool = match last_char(head) {
            Some(c) => is_ascii_digit(c),
            None => false,
        };
        let letter: bool = match first_char(next_word_approx) {
            Some(c) => c.is_alphabetic(),
            None => false,
        };
        digit && letter && has_digit(next_word_approx)
    }

    /// True when the run of terminators `run` between `head` and `next_word_approx`
    /// ends no sentence.
    fn ends_no_sentence(&self, head: &str, run: &str, next_word_approx: &str) -> (r: bool)
        ensures
            r == self.rules().ends_nothing(head@, run@, next_word_approx@),
    {
        let long: bool = match pop_front(run) {
            Some((_, rest)) => {
                proof {
                    lemma_size(rest@);
                }
                byte_len(rest) > 0
            },
            None => false,
        };
        assert(long == (run@.len() >= 2));
        let goes_on: bool = if long {
            let glued: bool = match last_char(head) {
                Some(c) => !is_white_space(c),
                None => false,
            };
            self.patterns().continues_after_ellipsis.is_match(next_word_approx) || (glued
                && self.patterns().continues.is_match(next_word_approx))
        } else {
            self.continue_in_next_word(next_word_approx)
        };
        if goes_on {
            return true;
        }
        if (same(run, "!") || same(run, "?")) && continuation_after_orphan_quote(next_word_approx) {
            return true;
        }
        let full_stop: bool = same(run, ".");
        if full_stop && self.is_code(head, next_word_approx) {
            return true;
        }
        if !(full_stop && self.is_time_at_end(head, next_word_approx)) {
            let word = self.get_last_word(head);
            if full_stop {
                proof {
                    let front = strip_back::<White>(head@);
                    lemma_run_back::<NameSeparator>(front, false);
                    if single_ascii_upper(word@) {
                        assert(front.last() == word@[0]);
                    }
                }
                let suppressed: bool = self.is_name_initial(head, word, next_word_approx)
                    || self.is_abbreviation(head, word, run);
                if suppressed && !self.should_override_abbrev_suppression(
                    head,
                    word,
                    next_word_approx,
                ) {
                    return true;
                }
            } else if self.is_abbreviation(head, word, run) {
                return true;
            }
        }
        self.is_exclamation(head, next_word_approx)
    }

    /// Where the sentence that the run of terminators from `start` to `end` closes ends,
    /// or `None` if it closes none. `reference` is how far the reference numbers go that
    /// follow at once.
    fn decide_boundary(&self, text: &str, start: usize, end: usize, reference: Option<usize>) -> (r:
        Option<usize>)
        requires
            is_cut(text@, start as int),
            is_cut(text@, end as int),
            start <= end,
            reference matches Some(n) ==> is_cut(
                next_word(text@, behind_run(text@, start as int, end as int)),
                n as int,
            ),
        ensures
            as_position(r) == self.rules().boundary_with(
                text@,
                start as int,
                end as int,
                as_position(reference),
            ),
            r matches Some(b) ==> is_cut(text@, b as int) && end <= b,
    {
        let run = piece(text, start, end);
        let next_index: usize = self.behind(text, start, end);
        let next = self.get_next_word_approx(text, next_index);
        let _limit: usize = byte_len(text);
        proof {
            lemma_next_word(text@, next_index as int);
        }
        match reference {
            Some(n) => {
                return Some(next_index + n);
            },
            None => {},
        }
        if self.ends_no_sentence(head(text, start), run, next) {
            return None;
        }
        match self.patterns().space.find(next) {
            Some((_, n)) => {
                proof {
                    let found = (0int, n as int);
                    assert(is_span(next@, found));
                }
                Some(next_index + n)
            },
            None => Some(end),
        }
    }

    /// Where the text behind the run of terminators from `start` to `end` starts: at the
    /// end of the run if it has more than one character, else behind its character.
    fn behind(&self, text: &str, start: usize, end: usize) -> (r: usize)
        requires
            is_cut(text@, start as int),
            is_cut(text@, end as int),
            start <= end,
        ensures
            r == behind_run(text@, start as int, end as int),
            is_cut(text@, r as int),
            end <= r,
    {
        proof {
            lemma_behind_run(text@, start as int, end as int);
        }
        match pop_front(piece(text, start, end)) {
            Some((_, rest)) => {
                proof {
                    lemma_size(rest@);
                }
                if byte_len(rest) > 0 {
                    end
                } else {
                    next_cut(text, start)
                }
            },
            None => next_cut(text, start),
        }
    }

    /// Where the sentence that the run of terminators from `start` to `end` closes ends,
    /// or `None` if it closes none: behind abbreviations, initials and exclamations, and
    /// where the sentence goes on. Reference numbers and white space that follow belong
    /// to the sentence.
    fn find_boundary(&self, text: &str, start: usize, end: usize) -> (r: Option<usize>)
        requires
            is_cut(text@, start as int),
            is_cut(text@, end as int),
            start <= end,
        ensures
            as_position(r) == self.rules().boundary(text@, start as int, end as int),
            find_facts(
                NUMBERED_REFERENCE_PATTERN@,
                next_word(text@, behind_run(text@, start as int, end as int)),
                regex_find(
                    NUMBERED_REFERENCE_PATTERN@,
                    next_word(text@, behind_run(text@, start as int, end as int)),
                ),
            ),
            r matches Some(b) ==> is_cut(text@, b as int) && end <= b,
    {
        let next_index: usize = self.behind(text, start, end);
        let next = self.get_next_word_approx(text, next_index);
        let reference: Option<usize> = match self.patterns().numbered_reference.find(next) {
            Some((_, n)) => Some(n),
            None => None,
        };
        self.decide_boundary(text, start, end, reference)
    }

    /// How many characters a boundary before `word` is moved on, past white space and
    /// terminators, or -1 for no boundary. `goes_on` tells that a lower case letter or
    /// a digit follows, behind characters that belong to no word.
    fn extend_unless(&self, word: &str, goes_on: bool) -> (r: i8)
        ensures
            r == self.rules().extend_with(word@, goes_on),
    {
        if self.continue_in_next_word(trim(word)) || goes_on {
            return -1;
        }
        trailing_count(word) as i8
    }

    /// How many characters a boundary before `word` is moved on, past white space and
    /// terminators, or -1 for no boundary: the sentence goes on.
    fn get_boundary_extend(&self, word: &str) -> (r: i8)
        ensures
            r == self.rules().extend(word@),
            is_match_facts(
                CONTINUE_AFTER_NONWORD_PATTERN@,
                word@,
                regex_is_match(CONTINUE_AFTER_NONWORD_PATTERN@, word@),
            ),
    {
        let goes_on: bool = self.patterns().continues_after_nonword.is_match(word);
        self.extend_unless(word, goes_on)
    }

    /// The ranges of `text` in which punctuation ends no sentence, by where they start:
    /// quotes, text in brackets, and addresses of electronic mail.
    fn get_skippable_ranges(&self, text: &str) -> (r: Vec<SkippableRange>)
        ensures
            r@ == skippable_ranges(text@),
            forall|k: int| 0 <= k < r@.len() ==> (#[trigger] r@[k]).lies_in(text@),
            forall|k: int|
                0 <= k < r@.len() ==> (#[trigger] r@[k]).start < r@[k].end && r@[k].range_type
                    != SkippableRangeType::ListItem,
            in_order(r@),
            no_marks(text@) ==> forall|k: int| 0 <= k < r@.len() ==> !(#[trigger] r@[k]).quote(),
    {
        let patterns = self.patterns();
        let quotes: Vec<(usize, usize)> = patterns.quotes.find_iter(text);
        let parens: Vec<(usize, usize)> = patterns.parens.find_iter(text);
        let emails: Vec<(usize, usize)> = patterns.email.find_iter(text);
        let _limit: usize = byte_len(text);
        proof {
            let (q, p, e) = (as_spans(quotes@), as_spans(parens@), as_spans(emails@));
            assert forall|i: int| 0 <= i < q.len() implies is_span(text@, #[trigger] q[i]) && q[i].0
                < q[i].1 by {
                lemma_marks();
                assert(is_quoted(text@, q[i]));
            }
            lemma_ranges_from(text@, q, p, e);
            if no_marks(text@) {
                lemma_no_marks(text@, q, p, e);
            }
        }
        collect_ranges(text, quotes.as_slice(), parens.as_slice(), emails.as_slice(), patterns)
    }

    /// If an orphan closer stands at `boundary`, the position behind it, the white space
    /// and the terminators that follow, which would make a sentence of their own
    /// otherwise. Else `boundary`.
    fn extend_past_orphan_closer(
        &self,
        paragraph: &str,
        boundary: usize,
        skippable_ranges: &[SkippableRange],
    ) -> (r: usize)
        requires
            is_cut(paragraph@, boundary as int),
            symmetric_orphan_at(paragraph@, boundary as int, skippable_ranges@)
                ==> earlier_quotes_lie_in(paragraph@, skippable_ranges@, boundary as int),
        ensures
            r == self.rules().past_orphan(paragraph@, boundary as int, skippable_ranges@),
            is_cut(paragraph@, r as int),
            boundary <= r,
            boundary < r && self.rules().break_pattern == sentence_break_pattern() ==> nothing_trails(
                after(paragraph@, r as int),
            ),
    {
        if some_range_starts(skippable_ranges, boundary) {
            return boundary;
        }
        let closer: &'static str = match find_orphan(paragraph, boundary, skippable_ranges) {
            Some(k) => QUOTE_CLOSERS_BY_LEN[k],
            None => {
                return boundary;
            },
        };
        let n: usize = byte_len(closer);
        let _limit: usize = byte_len(paragraph);
        proof {
            lemma_marks();
            lemma_occurs(paragraph@, closer@, boundary as int);
        }
        if is_symmetric_quote_closer(closer) && was_quoted_earlier(
            paragraph,
            boundary,
            closer,
            skippable_ranges,
        ) && starts_new_utterance(paragraph, boundary + n) {
            return boundary;
        }
        let patterns = self.patterns();
        let mut at: usize = advance_past_space(paragraph, boundary + n, patterns);
        let ghost first = at;
        let pattern = self.get_sentence_break_regex();
        proof {
            lemma_run_front::<White>(after(paragraph@, boundary + n), true);
        }
        loop
            invariant
                no_space_first(after(paragraph@, at as int)),
                patterns.wf(),
                pattern.source() == self.rules().break_pattern,
                is_cut(paragraph@, at as int),
                boundary <= at,
                self.rules().past_terminators(paragraph@, first as int)
                    == self.rules().past_terminators(paragraph@, at as int),
            ensures
                is_cut(paragraph@, at as int),
                boundary <= at,
                at == self.rules().past_terminators(paragraph@, first as int),
                self.rules().break_pattern == sentence_break_pattern() ==> nothing_trails(
                    after(paragraph@, at as int),
                ),
            decreases size(paragraph@) - at,
        {
            let found: Option<(usize, usize)> = pattern.find(tail(paragraph, at));
            proof {
                lemma_first_run(after(paragraph@, at as int), 0);
            }
            match advance_past_terminators(paragraph, at, found, patterns) {
                Some(next) => {
                    at = next;
                },
                None => {
                    break;
                },
            }
        }
        at
    }

    /// The number of the first range that forbids the boundary which the terminator from
    /// `start` to `end` makes: one that lies around it, and whose marks do not seem to
    /// have been paired across the end of a sentence.
    fn find_forbidding(
        &self,
        paragraph: &str,
        ranges: &[SkippableRange],
        boundary: usize,
        start: usize,
        end: usize,
    ) -> (r: Option<usize>)
        requires
            quotes_lie_in(paragraph@, ranges@),
            is_cut(paragraph@, start as int),
            is_cut(paragraph@, end as int),
            start <= end,
        ensures
            as_position(r) == self.rules().forbids(
                paragraph@,
                ranges@,
                boundary as int,
                (start as int, end as int),
                0,
            ),
            r matches Some(k) ==> k < ranges@.len(),
    {
        let mut k: usize = 0;
        while k < ranges.len()
            invariant
                k <= ranges@.len(),
                quotes_lie_in(paragraph@, ranges@),
                is_cut(paragraph@, start as int),
                is_cut(paragraph@, end as int),
                start <= end,
                self.rules().forbids(
                    paragraph@,
                    ranges@,
                    boundary as int,
                    (start as int, end as int),
                    0,
                ) == self.rules().forbids(
                    paragraph@,
                    ranges@,
                    boundary as int,
                    (start as int, end as int),
                    k as int,
                ),
            decreases ranges@.len() - k,
        {
            let range: SkippableRange = ranges[k];
            assert(ranges@[k as int] == range);
            if range.contains(boundary) {
                let mispaired: bool = is_symmetric_quote_range(paragraph, &range) && (
                quote_partially_overlaps_parens(&range, ranges) || (symmetric_token_count_is_odd(
                    paragraph,
                    &range,
                ) && self.has_strong_sentence_break(paragraph, start, end)));
                if !mispaired {
                    return Some(k);
                }
            }
            k += 1;
        }
        None
    }

    /// Adds the boundary that the terminator from `start` to `end` makes, if any.
    fn push_boundary(
        &self,
        paragraph: &str,
        ranges: &[SkippableRange],
        cuts: &mut Vec<usize>,
        start: usize,
        end: usize,
    )
        requires
            quotes_lie_in(paragraph@, ranges@),
            is_cut(paragraph@, start as int),
            is_cut(paragraph@, end as int),
            start <= end,
            divides(paragraph@, as_positions(old(cuts)@)),
        ensures
            as_positions(final(cuts)@) == self.rules().after_match(
                paragraph@,
                ranges@,
                as_positions(old(cuts)@),
                (start as int, end as int),
            ),
            divides(paragraph@, as_positions(final(cuts)@)),
    {
        let ghost was = as_positions(cuts@);
        let boundary: usize = match self.find_boundary(paragraph, start, end) {
            Some(b) => b,
            None => {
                return ;
            },
        };
        match self.find_forbidding(paragraph, ranges, boundary, start, end) {
            None => {
                let b: usize = self.extend_past_orphan_closer(paragraph, boundary, ranges);
                proof {
                    lemma_pushed(paragraph@, was, b as int);
                }
                push_if_increasing(cuts, b);
            },
            Some(k) => {
                let range: SkippableRange = ranges[k];
                assert(ranges@[k as int] == range);
                if range.is_inner_terminator(paragraph, boundary) {
                    let next = self.get_next_word_approx(paragraph, range.end);
                    let extend: i8 = self.get_boundary_extend(next);
                    if extend >= 0 {
                        let _limit: usize = byte_len(paragraph);
                        proof {
                            lemma_next_word(paragraph@, range.end as int);
                            lemma_run_front::<Trailing>(next@, true);
                        }
                        let more: usize = char_cut(next, extend as usize);
                        proof {
                            lemma_pushed(paragraph@, was, range.end + more);
                        }
                        push_if_increasing(cuts, range.end + more);
                    }
                }
            },
        }
    }

    /// Where the sentences of the paragraph start and end, when its runs of terminators
    /// are `matches`, its ranges `ranges`, and list items start at `starts`.
    fn divide_with(
        &self,
        paragraph: &str,
        matches: &[(usize, usize)],
        ranges: Vec<SkippableRange>,
        starts: &[usize],
    ) -> (r: Vec<usize>)
        requires
            are_spans(paragraph@, as_spans(matches@)),
            quotes_lie_in(paragraph@, ranges@),
            forall|i: int| 0 <= i < starts@.len() ==> is_cut(paragraph@, #[trigger] starts@[i] as int),
        ensures
            as_positions(r@) == self.rules().cuts_with(
                paragraph@,
                as_spans(matches@),
                ranges@,
                starts@,
            ),
            covers(paragraph@, as_positions(r@)),
            forall|i: int|
                0 <= i < starts@.len() ==> as_positions(r@).contains(
                    (#[trigger] starts@[i]) as int,
                ),
    {
        let n: usize = byte_len(paragraph);
        let all: Vec<SkippableRange> = add_list_ranges(paragraph, ranges, starts, n);
        let ghost ms = as_spans(matches@);
        let ghost p = paragraph@;
        let mut cuts: Vec<usize> = Vec::new();
        cuts.push(0);
        proof {
            lemma_cut_ends(p);
            assert(as_positions(cuts@) =~= seq![0]);
            assert(ms.take(0) =~= Seq::<(int, int)>::empty());
        }
        let mut i: usize = 0;
        while i < matches.len()
            invariant
                i <= matches@.len(),
                p == paragraph@,
                ms == as_spans(matches@),
                are_spans(p, ms),
                quotes_lie_in(p, all@),
                divides(p, as_positions(cuts@)),
                as_positions(cuts@) == self.rules().found(p, all@, ms.take(i as int)),
            decreases matches@.len() - i,
        {
            let (start, end) = matches[i];
            proof {
                assert(ms[i as int] == (start as int, end as int));
                assert(is_span(p, ms[i as int]));
                assert(ms.take(i + 1).drop_last() =~= ms.take(i as int));
            }
            self.push_boundary(paragraph, all.as_slice(), &mut cuts, start, end);
            i += 1;
        }
        proof {
            assert(ms.take(i as int) =~= ms);
        }
        let ghost found = as_positions(cuts@);
        let mut k: usize = 0;
        proof {
            assert(starts@.take(0) =~= Seq::<usize>::empty());
        }
        while k < starts.len()
            invariant
                k <= starts@.len(),
                p == paragraph@,
                forall|j: int| 0 <= j < starts@.len() ==> is_cut(p, #[trigger] starts@[j] as int),
                divides(p, as_positions(cuts@)),
                as_positions(cuts@) == with_starts(found, starts@.take(k as int)),
                forall|j: int| 0 <= j < k ==> as_positions(cuts@).contains(
                    (#[trigger] starts@[j]) as int,
                ),
            decreases starts@.len() - k,
        {
            let start: usize = starts[k];
            proof {
                assert(is_cut(p, starts@[k as int] as int));
                lemma_with_cut(p, as_positions(cuts@), start as int);
                assert(starts@.take(k + 1).drop_last() =~= starts@.take(k as int));
            }
            insert_boundary(&mut cuts, start);
            k += 1;
        }
        proof {
            assert(starts@.take(k as int) =~= starts@);
            let now = as_positions(cuts@);
            lemma_pushed(p, now, size(p));
            assert(is_cut(p, now[now.len() - 1]));
            assert forall|j: int| 0 <= j < starts@.len() implies pushed(now, size(p)).contains(
                (#[trigger] starts@[j]) as int,
            ) by {
                let at = now.index_of(starts@[j] as int);
                assert(pushed(now, size(p))[at] == starts@[j]);
            }
        }
        push_if_increasing(&mut cuts, n);
        cuts
    }

    /// Where the sentences of the paragraph start and end.
    fn divide(&self, paragraph: &str) -> (r: Vec<usize>)
        ensures
            as_positions(r@) == self.rules().cuts(paragraph@),
            self.rules().divides_well(paragraph@),
            find_iter_facts(
                self.rules().break_pattern,
                paragraph@,
                regex_find_iter(self.rules().break_pattern, paragraph@),
            ),
    {
        let _limit: usize = byte_len(paragraph);
        let pattern = self.get_sentence_break_regex();
        let matches: Vec<(usize, usize)> = find_terminator_matches(paragraph, pattern);
        let ranges: Vec<SkippableRange> = self.get_skippable_ranges(paragraph);
        let starts: Vec<usize> = match self.list_items(paragraph) {
            Some(v) => v,
            None => Vec::new(),
        };
        proof {
            assert(starts@ =~= self.rules().starts(paragraph@));
            if starts@.len() == 0 && as_spans(matches@).len() == 0 {
                law_without_terminators_one_sentence(self.rules(), paragraph@, ranges@);
                assert(starts@ =~= Seq::<usize>::empty());
                assert(as_spans(matches@) =~= Seq::<(int, int)>::empty());
                assert(pushed(seq![0], size(paragraph@)) =~= self.rules().cuts(paragraph@));
            }
            let ms = as_spans(matches@);
            if is_list(paragraph@, starts@) {
                if no_marks(paragraph@) {
                    law_only_quotes_lead_into_items(
                        self.rules(),
                        paragraph@,
                        ms,
                        ranges@,
                        starts@,
                    );
                }
                if self.rules().keeps_out_of_items(paragraph@) {
                    law_items_are_whole(self.rules(), paragraph@, ms, ranges@, starts@);
                }
            }
        }
        self.divide_with(paragraph, matches.as_slice(), ranges, starts.as_slice())
    }

    /// Adds the sentences of the paragraph `part`, which stands behind `index` characters
    /// and `byte` bytes.
    fn push_paragraph<'a>(
        &self,
        part: &'a str,
        index: usize,
        byte: usize,
        out: &mut Vec<SentenceBoundary<'a>>,
    )
        requires
            index + part@.len() <= usize::MAX,
            byte + size(part@) <= usize::MAX,
        ensures
            views(final(out)@) == views(old(out)@) + sentences(
                part@,
                self.rules().cuts(part@),
                index as int,
                byte as int,
            ),
            self.rules().divides_well(part@),
    {
        let cuts: Vec<usize> = self.divide(part);
        push_sentences(part, cuts.as_slice(), index, byte, out);
    }

    /// Adds paragraph number `i` of `text`, which stands behind `index` characters, and
    /// the gap behind it, and gives the number of characters up to the end of that gap.
    fn push_paragraph_and_gap<'a>(
        &self,
        text: &'a str,
        gaps: &[(usize, usize)],
        i: usize,
        index: usize,
        out: &mut Vec<SentenceBoundary<'a>>,
    ) -> (r: usize)
        requires
            are_gaps(text@, as_spans(gaps@)),
            i < gaps@.len(),
            index == before(text@, paragraph_start(as_spans(gaps@), i as int)).len(),
        ensures
            views(final(out)@) == (views(old(out)@) + paragraph_sentences(
                self.rules(),
                text@,
                as_spans(gaps@),
                i as int,
            )).push(gap_boundary(text@, as_spans(gaps@)[i as int])),
            self.rules().divides_well(paragraph(text@, as_spans(gaps@), i as int)),
            r == before(text@, paragraph_start(as_spans(gaps@), i + 1)).len(),
    {
        let ghost spans = as_spans(gaps@);
        let (to, next) = gaps[i];
        let from: usize = if i == 0 {
            0
        } else {
            gaps[i - 1].1
        };
        let _limit: usize = byte_len(text);
        proof {
            assert(spans[i as int] == (to as int, next as int));
            if i > 0 {
                assert(spans[i - 1].1 == gaps@[i - 1].1);
            }
            lemma_paragraph(text@, spans, i as int);
            lemma_split(text@, to as int);
            lemma_size(before(text@, to as int));
        }
        let part = piece(text, from, to);
        self.push_paragraph(part, index, from, out);
        push_gap(text, to, next, index + part.unicode_len(), out)
    }

    /// Adds the last paragraph of `text`, which stands behind `index` characters.
    fn push_last_paragraph<'a>(
        &self,
        text: &'a str,
        gaps: &[(usize, usize)],
        index: usize,
        out: &mut Vec<SentenceBoundary<'a>>,
    )
        requires
            are_gaps(text@, as_spans(gaps@)),
            index == before(text@, paragraph_start(as_spans(gaps@), gaps@.len() as int)).len(),
        ensures
            views(final(out)@) == views(old(out)@) + paragraph_sentences(
                self.rules(),
                text@,
                as_spans(gaps@),
                gaps@.len() as int,
            ),
            self.rules().divides_well(paragraph(text@, as_spans(gaps@), gaps@.len() as int)),
    {
        let ghost spans = as_spans(gaps@);
        let n: usize = gaps.len();
        let from: usize = if n == 0 {
            0
        } else {
            gaps[n - 1].1
        };
        let _limit: usize = byte_len(text);
        proof {
            if n > 0 {
                assert(spans[n - 1].1 == gaps@[n - 1].1);
            }
            lemma_paragraph(text@, spans, n as int);
            lemma_size(text@);
            lemma_whole(text@);
        }
        self.push_paragraph(tail(text, from), index, from, out);
    }

    /// The sentences of `text`, with the gaps between its paragraphs, when those gaps
    /// are `gaps`.
    fn boundaries_between<'a>(&self, text: &'a str, gaps: &[(usize, usize)]) -> (r: Vec<
        SentenceBoundary<'a>,
    >)
        requires
            are_gaps(text@, as_spans(gaps@)),
        ensures
            views(r@) == boundaries(self.rules(), text@, as_spans(gaps@)),
            all_covered(self.rules(), text@, as_spans(gaps@), gaps@.len() as int + 1),
    {
        let ghost spans = as_spans(gaps@);
        let mut out: Vec<SentenceBoundary<'a>> = Vec::new();
        let mut index: usize = 0;
        let mut i: usize = 0;
        proof {
            lemma_whole(text@);
            assert(views(out@) =~= Seq::<Boundary>::empty());
            assert(gap_after(text@, spans, 0) =~= Seq::<Boundary>::empty());
        }
        while i < gaps.len()
            invariant
                spans == as_spans(gaps@),
                spans.len() == gaps@.len(),
                are_gaps(text@, spans),
                i <= gaps@.len(),
                index == before(text@, paragraph_start(spans, i as int)).len(),
                views(out@) == boundaries_upto(self.rules(), text@, spans, i as int) + gap_after(
                    text@,
                    spans,
                    i as int,
                ),
                all_covered(self.rules(), text@, spans, i as int),
            decreases gaps@.len() - i,
        {
            index = self.push_paragraph_and_gap(text, gaps, i, index, &mut out);
            proof {
                lemma_upto_step(self.rules(), text@, spans, i as int);
            }
            i += 1;
        }
        self.push_last_paragraph(text, gaps, index, &mut out);
        proof {
            lemma_upto_step(self.rules(), text@, spans, i as int);
        }
        out
    }

    /// The sentences of `text`, with the gaps between its paragraphs, and where they
    /// stand.
    ///
    /// The text is taken apart at empty lines into paragraphs, and each of them at the
    /// terminators that end a sentence and at the items of lists.
    fn get_sentence_boundaries<'a>(&self, text: &'a str) -> (r: Vec<SentenceBoundary<'a>>)
        ensures
            views(r@) == boundaries(self.rules(), text@, gaps_of(text@)),
            all_covered(self.rules(), text@, gaps_of(text@), gaps_of(text@).len() as int + 1),
            lined_up(text@, views(r@), 0, size(text@)),
            joined(texts(views(r@))) == text@,
            forall|i: int| 0 <= i < r@.len() ==> located(text@, #[trigger] views(r@)[i]),
            gaps_of(text@).len() == 0 && is_list(text@, self.rules().starts(text@)) && (no_marks(
                text@,
            ) || self.rules().keeps_out_of_items(text@)) ==> are_items(
                views(r@),
                self.rules().starts(text@),
            ),
    {
        let gaps: Vec<(usize, usize)> = self.patterns().paragraph_gap.find_iter(text);
        assert(as_spans(gaps@).len() == gaps@.len());
        proof {
            lemma_gaps_of(text@);
        }
        let r = self.boundaries_between(text, gaps.as_slice());
        proof {
            law_boundaries_make_up_text(self.rules(), text@, gaps_of(text@));
            if gaps_of(text@).len() == 0 && is_list(text@, self.rules().starts(text@)) && (no_marks(
                text@,
            ) || self.rules().keeps_out_of_items(text@)) {
                lemma_whole(text@);
                assert(self.rules().divides_well(paragraph(text@, gaps_of(text@), 0)));
                law_items_are_the_sentences(self.rules(), text@);
            }
        }
        r
    }

    /// The sentences of `text`, with the gaps between its paragraphs, as texts alone.
    fn segment<'a>(&self, text: &'a str) -> (r: Vec<&'a str>)
        ensures
            strings(r@) == texts(boundaries(self.rules(), text@, gaps_of(text@))),
            forall|i: int| 0 <= i < r@.len() ==> (#[trigger] r@[i])@.len() > 0,
            joined(strings(r@)) == text@,
    {
        let bs: Vec<SentenceBoundary<'a>> = self.get_sentence_boundaries(text);
        let ghost all = texts(views(bs@));
        let mut out: Vec<&'a str> = Vec::new();
        let mut i: usize = 0;
        proof {
            assert(strings(out@) =~= all.take(0));
        }
        while i < bs.len()
            invariant
                i <= bs@.len(),
                all == texts(views(bs@)),
                forall|k: int| 0 <= k < bs@.len() ==> located(text@, #[trigger] views(bs@)[k]),
                strings(out@) == all.take(i as int),
            decreases bs@.len() - i,
        {
            let sentence: &'a str = bs[i].text;
            let ghost was = strings(out@);
            proof {
                let b = views(bs@)[i as int];
                assert(located(text@, b));
                assert(all[i as int] == sentence@);
                lemma_between(text@, b.start_byte, b.end_byte);
                lemma_size(sentence@);
            }
            if byte_len(sentence) > 0 {
                out.push(sentence);
                assert(strings(out@) =~= was.push(sentence@));
            }
            assert(all.take(i + 1) =~= all.take(i as int).push(all[i as int]));
            i += 1;
        }
        proof {
            assert(all.take(i as int) =~= all);
            assert forall|k: int| 0 <= k < out@.len() implies (#[trigger] out@[k])@.len() > 0 by {
                assert(strings(out@)[k] == out@[k]@);
                let b = views(bs@)[k];
                assert(located(text@, b));
                lemma_between(text@, b.start_byte, b.end_byte);
                lemma_size(b.text);
            }
        }
        out
    }
}

} // verus!
