//! Spans of text in which punctuation ends no sentence, and the quotation marks
//! that they are found by.

use vstd::prelude::*;
use vstd::utf8::*;

use crate::chars::{
    ascii_upper, is_ascii_upper, is_white_space, strip_front, unicode_alphanumeric, white_space,
    White,
};
use crate::constants::{QUOTE_CLOSERS_BY_LEN, QUOTE_PAIRS};
use crate::order::{in_order, lemma_sorted, sort, sorted, Keyed};
use crate::pattern::{as_spans, has_inline_break, is_quoted, is_span, Patterns};
use crate::text::{
    as_positions, behind, byte_len, ends_with, find_all, first_char, has_at, head, last_char,
    lemma_occurrences, lemma_occurs, occurrences, occurs_at, piece, same, starts_with, tail,
    trim_front,
};
use crate::utf8::{
    after, before, between, is_cut, lemma_cut_ends, lemma_join, lemma_size, lemma_split, size,
};
use crate::words::is_among;

verus! {

/// What a skippable span of text is.
#[derive(Debug, Clone, Copy, PartialEq, Eq, Structural)]
pub enum SkippableRangeType {
    Quote,
    Parentheses,
    Email,
    ListItem,
}

/// A span of text in which punctuation ends no sentence.
#[derive(Debug, Clone, Copy)]
pub struct SkippableRange {
    pub start: usize,
    pub end: usize,
    pub range_type: SkippableRangeType,
}

impl SkippableRange {
    /// True for quoted text.
    pub open spec fn quote(&self) -> bool {
        self.range_type == SkippableRangeType::Quote
    }

    /// True when the range lies strictly around `position`.
    pub open spec fn around(&self, position: int) -> bool {
        self.start < position < self.end
    }

    /// True when the range starts and ends at cuts of `text`.
    pub open spec fn lies_in(&self, text: Seq<char>) -> bool {
        is_cut(text, self.start as int) && is_cut(text, self.end as int) && self.start <= self.end
    }

    /// True when only a closer lies between `boundary` and the end of quoted text.
    pub open spec fn closes_behind(&self, text: Seq<char>, boundary: int) -> bool {
        self.quote() && exists|i: int|
            #![trigger QUOTE_CLOSERS_BY_LEN@[i]]
            0 <= i < QUOTE_CLOSERS_BY_LEN@.len() && occurs_at(
                text,
                QUOTE_CLOSERS_BY_LEN@[i]@,
                boundary,
            ) && boundary + size(QUOTE_CLOSERS_BY_LEN@[i]@) == self.end
    }

    pub fn new(start: usize, end: usize, range_type: SkippableRangeType) -> (r: Self)
        ensures
            r.start == start,
            r.end == end,
            r.range_type == range_type,
    {
        SkippableRange { start, end, range_type }
    }

    /// True when `position` lies inside the range, at neither of its ends.
    pub fn contains(&self, position: usize) -> (r: bool)
        ensures
            r == self.around(position as int),
    {
        position > self.start && position < self.end
    }

    /// True for quoted text.
    pub fn is_quote(&self) -> (r: bool)
        ensures
            r == self.quote(),
    {
        self.range_type == SkippableRangeType::Quote
    }

    /// True when `boundary` stands right before the closer that ends this quote.
    pub fn is_inner_terminator(&self, text: &str, boundary: usize) -> (r: bool)
        requires
            self.quote() && boundary < self.end ==> is_cut(text@, self.end as int),
        ensures
            r == self.closes_behind(text@, boundary as int),
    {
        proof {
            lemma_marks();
        }
        if !self.is_quote() || boundary >= self.end {
            return false;
        }
        let left: usize = self.end - boundary;
        let mut i: usize = 0;
        while i < QUOTE_CLOSERS_BY_LEN.len()
            invariant
                i <= QUOTE_CLOSERS_BY_LEN@.len(),
                left == self.end - boundary,
                self.quote(),
                forall|j: int|
                    #![trigger QUOTE_CLOSERS_BY_LEN@[j]]
                    0 <= j < i ==> !(occurs_at(text@, QUOTE_CLOSERS_BY_LEN@[j]@, boundary as int)
                        && boundary + size(QUOTE_CLOSERS_BY_LEN@[j]@) == self.end),
            decreases QUOTE_CLOSERS_BY_LEN@.len() - i,
        {
            let closer: &'static str = QUOTE_CLOSERS_BY_LEN[i];
            if byte_len(closer) == left && has_at(text, closer, boundary) {
                assert(QUOTE_CLOSERS_BY_LEN@[i as int] == closer);
                return true;
            }
            i += 1;
        }
        false
    }
}

/// Every quotation mark has at least one character.
pub proof fn lemma_marks()
    ensures
        forall|i: int|
            0 <= i < QUOTE_PAIRS@.len() ==> (#[trigger] QUOTE_PAIRS@[i]).0@.len() > 0
                && QUOTE_PAIRS@[i].1@.len() > 0,
        forall|i: int|
            0 <= i < QUOTE_PAIRS@.len() ==> size((#[trigger] QUOTE_PAIRS@[i]).0@) > 0 && size(
                QUOTE_PAIRS@[i].1@,
            ) > 0,
        forall|i: int|
            0 <= i < QUOTE_CLOSERS_BY_LEN@.len() ==> (#[trigger] QUOTE_CLOSERS_BY_LEN@[i])@.len()
                > 0,
        forall|i: int|
            0 <= i < QUOTE_CLOSERS_BY_LEN@.len() ==> size((#[trigger] QUOTE_CLOSERS_BY_LEN@[i])@)
                > 0,
{
    reveal_strlit("''");
    reveal_strlit("``");
    reveal_strlit("\"");
    reveal_strlit("'");
    reveal_strlit("`");
    reveal_strlit("«");
    reveal_strlit("»");
    reveal_strlit("‘");
    reveal_strlit("’");
    reveal_strlit("‚");
    reveal_strlit("“");
    reveal_strlit("”");
    reveal_strlit("‛");
    reveal_strlit("„");
    reveal_strlit("‟");
    reveal_strlit("‹");
    reveal_strlit("›");
    reveal_strlit("《");
    reveal_strlit("》");
    reveal_strlit("「");
    reveal_strlit("」");
    assert forall|i: int| 0 <= i < QUOTE_PAIRS@.len() implies (#[trigger] QUOTE_PAIRS@[i]).0@.len()
        > 0 && QUOTE_PAIRS@[i].1@.len() > 0 by {}
    assert forall|i: int| 0 <= i < QUOTE_PAIRS@.len() implies size((#[trigger] QUOTE_PAIRS@[i]).0@)
        > 0 && size(QUOTE_PAIRS@[i].1@) > 0 by {
        lemma_size(QUOTE_PAIRS@[i].0@);
        lemma_size(QUOTE_PAIRS@[i].1@);
    }
    assert forall|i: int| 0 <= i < QUOTE_CLOSERS_BY_LEN@.len() implies (
    #[trigger] QUOTE_CLOSERS_BY_LEN@[i])@.len() > 0 by {}
    assert forall|i: int| 0 <= i < QUOTE_CLOSERS_BY_LEN@.len() implies size(
        (#[trigger] QUOTE_CLOSERS_BY_LEN@[i])@,
    ) > 0 by {
        lemma_size(QUOTE_CLOSERS_BY_LEN@[i]@);
    }
}

// Pairs of quotation marks.

/// True when pair number `i` opens and closes with the same mark.
pub open spec fn is_symmetric(i: int) -> bool {
    QUOTE_PAIRS@[i].0@ == QUOTE_PAIRS@[i].1@
}

/// True for the marks that both open and close: nothing tells by itself which of
/// the two such a mark does.
pub open spec fn symmetric_mark(mark: Seq<char>) -> bool {
    exists|i: int|
        0 <= i < QUOTE_PAIRS@.len() && #[trigger] is_symmetric(i) && QUOTE_PAIRS@[i].1@ == mark
}

/// True for the marks that both open and close.
pub fn is_symmetric_quote_closer(closer: &str) -> (r: bool)
    ensures
        r == symmetric_mark(closer@),
{
    let mut i: usize = 0;
    while i < QUOTE_PAIRS.len()
        invariant
            i <= QUOTE_PAIRS@.len(),
            forall|j: int|
                0 <= j < i ==> !(#[trigger] is_symmetric(j) && QUOTE_PAIRS@[j].1@ == closer@),
        decreases QUOTE_PAIRS@.len() - i,
    {
        let open: &'static str = QUOTE_PAIRS[i].0;
        let close: &'static str = QUOTE_PAIRS[i].1;
        if same(open, close) && same(close, closer) {
            assert(is_symmetric(i as int));
            return true;
        }
        i += 1;
    }
    false
}

/// True when `i` lies inside quoted text, its first position counted in.
pub open spec fn in_quote_range(ranges: Seq<SkippableRange>, i: int) -> bool {
    exists|k: int|
        0 <= k < ranges.len() && (#[trigger] ranges[k]).quote() && ranges[k].start <= i
            < ranges[k].end
}

/// True when `idx` lies inside quoted text, its first position counted in.
pub fn is_in_quote_range(ranges: &[SkippableRange], idx: usize) -> (r: bool)
    ensures
        r == in_quote_range(ranges@, idx as int),
{
    let mut k: usize = 0;
    while k < ranges.len()
        invariant
            k <= ranges@.len(),
            forall|j: int|
                0 <= j < k ==> !((#[trigger] ranges@[j]).quote() && ranges@[j].start <= idx
                    < ranges@[j].end),
        decreases ranges@.len() - k,
    {
        if ranges[k].is_quote() && idx >= ranges[k].start && idx < ranges[k].end {
            return true;
        }
        k += 1;
    }
    false
}

/// True when the mark at `at` stands between two letters or digits, as an apostrophe
/// does.
pub open spec fn contraction_quote(text: Seq<char>, at: int, token: Seq<char>) -> bool {
    let front = before(text, at);
    let back = after(text, at + size(token));
    &&& front.len() > 0 && unicode_alphanumeric(front.last())
    &&& back.len() > 0 && unicode_alphanumeric(back[0])
}

/// True when the mark `token` at `idx` is an apostrophe (`wasn't`, `o'clock`): it
/// stands between two letters or digits.
pub fn is_contraction_quote(text: &str, idx: usize, token: &str) -> (r: bool)
    requires
        is_cut(text@, idx as int),
        is_cut(text@, idx + size(token@)),
    ensures
        r == contraction_quote(text@, idx as int, token@),
{
    let prev_word: bool = match last_char(head(text, idx)) {
        Some(c) => c.is_alphanumeric(),
        None => false,
    };
    let next_word: bool = match first_char(behind(text, token, idx)) {
        Some(c) => c.is_alphanumeric(),
        None => false,
    };
    prev_word && next_word
}

/// True when the mark at `at` has white space, or nothing, before it and white space
/// behind it.
pub open spec fn opener_shape(text: Seq<char>, at: int, token: Seq<char>) -> bool {
    let front = before(text, at);
    let back = after(text, at + size(token));
    &&& front.len() == 0 || white_space(front.last())
    &&& back.len() > 0 && white_space(back[0])
}

/// True when the mark `token` at `idx` stands apart: white space, or nothing, before
/// it and white space behind it. The expression for guarded quotes leaves such an
/// opener out, since no word follows it at once.
pub fn is_opener_shape(text: &str, idx: usize, token: &str) -> (r: bool)
    requires
        is_cut(text@, idx as int),
        is_cut(text@, idx + size(token@)),
    ensures
        r == opener_shape(text@, idx as int, token@),
{
    let starts: bool = match last_char(head(text, idx)) {
        Some(c) => is_white_space(c),
        None => true,
    };
    let parted: bool = match first_char(behind(text, token, idx)) {
        Some(c) => is_white_space(c),
        None => false,
    };
    starts && parted
}

/// True when `t` starts with white space, and then a capital of ASCII follows.
pub open spec fn new_utterance(t: Seq<char>) -> bool {
    let rest = strip_front::<White>(t);
    &&& t.len() > 0 && white_space(t[0])
    &&& rest.len() > 0 && ascii_upper(rest[0])
}

/// True when something new is said from `from` on: white space and then a capital.
pub fn starts_new_utterance(text: &str, from: usize) -> (r: bool)
    requires
        is_cut(text@, from as int),
    ensures
        r == new_utterance(after(text@, from as int)),
{
    let back = tail(text, from);
    let parted: bool = match first_char(back) {
        Some(c) => is_white_space(c),
        None => false,
    };
    let capital: bool = match first_char(trim_front::<White>(back)) {
        Some(c) => is_ascii_upper(c),
        None => false,
    };
    parted && capital
}

/// True when the mark at `i` is neither part of a quote that has been found nor an
/// apostrophe.
pub open spec fn is_free(
    text: Seq<char>,
    token: Seq<char>,
    ranges: Seq<SkippableRange>,
    i: int,
) -> bool {
    !in_quote_range(ranges, i) && !contraction_quote(text, i, token)
}

/// The positions of the free marks `token`, from left to right.
pub open spec fn free_marks(
    text: Seq<char>,
    token: Seq<char>,
    ranges: Seq<SkippableRange>,
) -> Seq<int> {
    occurrences(text, token, 0).filter(|i: int| is_free(text, token, ranges, i))
}

/// Leaving out elements keeps the others apart.
proof fn lemma_filter_spaced(s: Seq<int>, keep: spec_fn(int) -> bool, gap: int)
    requires
        forall|i: int, j: int| 0 <= i < j < s.len() ==> #[trigger] s[i] + gap <= #[trigger] s[j],
    ensures
        forall|i: int, j: int|
            0 <= i < j < s.filter(keep).len() ==> #[trigger] s.filter(keep)[i] + gap
                <= #[trigger] s.filter(keep)[j],
        forall|i: int|
            0 <= i < s.filter(keep).len() ==> s.contains(#[trigger] s.filter(keep)[i]),
        s.filter(keep).len() <= s.len(),
    decreases s.len(),
{
    reveal(Seq::filter);
    if s.len() > 0 {
        let front = s.drop_last();
        assert forall|i: int, j: int| 0 <= i < j < front.len() implies #[trigger] front[i] + gap
            <= #[trigger] front[j] by {
            assert(front[i] == s[i] && front[j] == s[j]);
        }
        lemma_filter_spaced(front, keep, gap);
        let r = s.filter(keep);
        let f = front.filter(keep);
        assert forall|i: int| 0 <= i < r.len() implies s.contains(#[trigger] r[i]) by {
            if i < f.len() {
                assert(front.contains(f[i]));
                let k = front.index_of(f[i]);
                assert(s[k] == r[i]);
            } else {
                assert(s[s.len() - 1] == r[i]);
            }
        }
        assert forall|i: int, j: int| 0 <= i < j < r.len() implies #[trigger] r[i] + gap
            <= #[trigger] r[j] by {
            assert(f[i] == r[i]);
            if j == f.len() {
                assert(front.contains(f[i]));
                let k = front.index_of(f[i]);
                assert(s[k] + gap <= s[s.len() - 1]);
            } else {
                assert(f[j] == r[j]);
            }
        }
    }
}

/// Free marks are occurrences of the mark that do not overlap.
pub proof fn lemma_free_marks(text: Seq<char>, token: Seq<char>, ranges: Seq<SkippableRange>)
    ensures
        forall|i: int|
            0 <= i < free_marks(text, token, ranges).len() ==> occurs_at(
                text,
                token,
                #[trigger] free_marks(text, token, ranges)[i],
            ),
        forall|i: int, j: int|
            0 <= i < j < free_marks(text, token, ranges).len() ==> #[trigger] free_marks(
                text,
                token,
                ranges,
            )[i] + size(token) <= #[trigger] free_marks(text, token, ranges)[j],
{
    lemma_occurrences(text, token, 0);
    let all = occurrences(text, token, 0);
    lemma_filter_spaced(all, |i: int| is_free(text, token, ranges, i), size(token));
    let marks = free_marks(text, token, ranges);
    assert forall|i: int| 0 <= i < marks.len() implies occurs_at(
        text,
        token,
        #[trigger] marks[i],
    ) by {
        assert(all.contains(marks[i]));
        let k = all.index_of(marks[i]);
        assert(occurs_at(text, token, all[k]));
    }
}

/// The positions of the free marks `token`.
pub fn find_free_marks(text: &str, token: &str, ranges: &[SkippableRange]) -> (r: Vec<usize>)
    requires
        token@.len() > 0,
    ensures
        as_positions(r@) == free_marks(text@, token@, ranges@),
{
    let all: Vec<usize> = find_all(text, token);
    let ghost keep = |i: int| is_free(text@, token@, ranges@, i);
    let ghost positions = as_positions(all@);
    let mut out: Vec<usize> = Vec::new();
    let mut k: usize = 0;
    proof {
        reveal(Seq::filter);
        assert(positions.take(0).filter(keep) =~= Seq::<int>::empty());
        assert(as_positions(out@) =~= Seq::<int>::empty());
        lemma_occurrences(text@, token@, 0);
    }
    while k < all.len()
        invariant
            k <= all@.len(),
            positions == as_positions(all@),
            positions == occurrences(text@, token@, 0),
            token@.len() > 0,
            keep == (|i: int| is_free(text@, token@, ranges@, i)),
            as_positions(out@) == positions.take(k as int).filter(keep),
            forall|i: int|
                0 <= i < positions.len() ==> occurs_at(text@, token@, #[trigger] positions[i]),
        decreases all@.len() - k,
    {
        let at: usize = all[k];
        proof {
            reveal(Seq::filter);
            assert(positions[k as int] == at);
            lemma_occurs(text@, token@, at as int);
            assert(positions.take(k + 1).drop_last() =~= positions.take(k as int));
            assert(positions.take(k + 1).last() == at);
        }
        let ghost was = as_positions(out@);
        if !is_in_quote_range(ranges, at) && !is_contraction_quote(text, at, token) {
            out.push(at);
            assert(as_positions(out@) =~= was.push(at as int));
        }
        k += 1;
    }
    proof {
        assert(positions.take(k as int) =~= positions);
    }
    out
}

/// True when the mark at `boundary` closes something without having been paired: a
/// mark that only ever closes, one with an odd number of free marks before it, or
/// the only free one of its text.
pub open spec fn orphan_closer(
    text: Seq<char>,
    boundary: int,
    closer: Seq<char>,
    ranges: Seq<SkippableRange>,
) -> bool {
    let marks = free_marks(text, closer, ranges);
    let earlier = marks.filter(|i: int| i < boundary).len();
    ||| !symmetric_mark(closer)
    ||| earlier % 2 == 1
    ||| earlier == 0 && marks.len() == 1
}

/// True when the mark `closer` at `boundary` is an orphan.
///
/// A mark that only closes is one whenever it was left unpaired. Of a mark that both
/// opens and closes the free occurrences in the paragraph decide: an opener before
/// the boundary that nothing has closed, or no other occurrence at all.
pub fn is_orphan_closer(
    paragraph: &str,
    boundary: usize,
    closer: &str,
    skippable_ranges: &[SkippableRange],
) -> (r: bool)
    ensures
        r == orphan_closer(paragraph@, boundary as int, closer@, skippable_ranges@),
{
    if !is_symmetric_quote_closer(closer) {
        return true;
    }
    proof {
        lemma_marks();
        let i = choose|i: int|
            0 <= i < QUOTE_PAIRS@.len() && #[trigger] is_symmetric(i) && QUOTE_PAIRS@[i].1@
                == closer@;
        assert(QUOTE_PAIRS@[i].1@.len() > 0);
    }
    let marks: Vec<usize> = find_free_marks(paragraph, closer, skippable_ranges);
    let ghost positions = as_positions(marks@);
    let ghost earlier = |i: int| i < boundary;
    let mut before: usize = 0;
    let mut at_or_after: usize = 0;
    let mut k: usize = 0;
    proof {
        reveal(Seq::filter);
        assert(positions.take(0).filter(earlier) =~= Seq::<int>::empty());
    }
    while k < marks.len()
        invariant
            k <= marks@.len(),
            positions == as_positions(marks@),
            earlier == (|i: int| i < boundary),
            before == positions.take(k as int).filter(earlier).len(),
            before + at_or_after == k,
        decreases marks@.len() - k,
    {
        proof {
            reveal(Seq::filter);
            assert(positions[k as int] == marks@[k as int]);
            assert(positions.take(k + 1).drop_last() =~= positions.take(k as int));
        }
        if marks[k] < boundary {
            before += 1;
        } else {
            at_or_after += 1;
        }
        k += 1;
    }
    proof {
        assert(positions.take(k as int) =~= positions);
    }
    before % 2 == 1 || (before == 0 && at_or_after == 1)
}

/// True when `span` is enclosed in two marks that are the same.
pub open spec fn symmetric_span(span: Seq<char>) -> bool {
    exists|i: int|
        0 <= i < QUOTE_PAIRS@.len() && #[trigger] is_symmetric(i) && {
            let mark = QUOTE_PAIRS@[i].0@;
            &&& 2 * size(mark) <= size(span)
            &&& occurs_at(span, mark, 0)
            &&& occurs_at(span, mark, size(span) - size(mark))
        }
}

/// True for quoted text that is enclosed in two marks that are the same.
pub open spec fn symmetric_range(text: Seq<char>, range: SkippableRange) -> bool {
    range.quote() && symmetric_span(between(text, range.start as int, range.end as int))
}

/// True for quoted text whose opener and closer are the same mark. Such marks may
/// have been paired wrongly.
pub fn is_symmetric_quote_range(text: &str, range: &SkippableRange) -> (r: bool)
    requires
        range.quote() ==> range.lies_in(text@),
    ensures
        r == symmetric_range(text@, *range),
{
    if !range.is_quote() {
        return false;
    }
    let span = piece(text, range.start, range.end);
    let n: usize = byte_len(span);
    let mut i: usize = 0;
    while i < QUOTE_PAIRS.len()
        invariant
            i <= QUOTE_PAIRS@.len(),
            n == size(span@),
            range.quote(),
            span@ == between(text@, range.start as int, range.end as int),
            forall|j: int|
                0 <= j < i ==> !(#[trigger] is_symmetric(j) && {
                    let mark = QUOTE_PAIRS@[j].0@;
                    &&& 2 * size(mark) <= size(span@)
                    &&& occurs_at(span@, mark, 0)
                    &&& occurs_at(span@, mark, size(span@) - size(mark))
                }),
        decreases QUOTE_PAIRS@.len() - i,
    {
        let open: &'static str = QUOTE_PAIRS[i].0;
        let close: &'static str = QUOTE_PAIRS[i].1;
        let m: usize = byte_len(open);
        if same(open, close) && m <= n && m <= n - m && starts_with(span, open) && ends_with(
            span,
            close,
        ) {
            assert(is_symmetric(i as int));
            return true;
        }
        i += 1;
    }
    false
}

/// The first pair from number `k` on with one mark for both ends, and that mark at
/// `at`.
pub open spec fn symmetric_pair_at(text: Seq<char>, at: int, k: int) -> Option<int>
    decreases QUOTE_PAIRS@.len() - k,
{
    if k < 0 || QUOTE_PAIRS@.len() <= k {
        None
    } else if is_symmetric(k) && occurs_at(text, QUOTE_PAIRS@[k].0@, at) {
        Some(k)
    } else {
        symmetric_pair_at(text, at, k + 1)
    }
}

/// True when the symmetric mark at `at` occurs an odd number of times in `text`.
pub open spec fn odd_marks(text: Seq<char>, at: int) -> bool {
    match symmetric_pair_at(text, at, 0) {
        Some(k) => occurrences(text, QUOTE_PAIRS@[k].0@, 0).len() % 2 == 1,
        None => false,
    }
}

/// True when the symmetric mark that opens `range` occurs an odd number of times in
/// the paragraph. Then at least one occurrence is an orphan, and marks may have been
/// paired across the end of a sentence.
pub fn symmetric_token_count_is_odd(paragraph: &str, range: &SkippableRange) -> (r: bool)
    requires
        is_cut(paragraph@, range.start as int),
    ensures
        r == odd_marks(paragraph@, range.start as int),
{
    let mut k: usize = 0;
    proof {
        lemma_marks();
    }
    while k < QUOTE_PAIRS.len()
        invariant
            k <= QUOTE_PAIRS@.len(),
            forall|i: int|
                0 <= i < QUOTE_PAIRS@.len() ==> (#[trigger] QUOTE_PAIRS@[i]).0@.len() > 0,
            symmetric_pair_at(paragraph@, range.start as int, 0) == symmetric_pair_at(
                paragraph@,
                range.start as int,
                k as int,
            ),
        decreases QUOTE_PAIRS@.len() - k,
    {
        let open: &'static str = QUOTE_PAIRS[k].0;
        let close: &'static str = QUOTE_PAIRS[k].1;
        assert(QUOTE_PAIRS@[k as int].0@ == open@);
        if same(open, close) && has_at(paragraph, open, range.start) {
            let marks: Vec<usize> = find_all(paragraph, open);
            assert(as_positions(marks@).len() == marks@.len());
            return marks.len() % 2 == 1;
        }
        k += 1;
    }
    false
}

/// True when the two ranges overlap and neither lies in the other.
pub open spec fn crosses(a: SkippableRange, b: SkippableRange) -> bool {
    ||| a.start < b.start < a.end < b.end
    ||| b.start < a.start < b.end < a.end
}

/// True when the quote crosses text in brackets.
pub open spec fn crosses_parens(quote: SkippableRange, ranges: Seq<SkippableRange>) -> bool {
    exists|k: int|
        0 <= k < ranges.len() && (#[trigger] ranges[k]).range_type
            == SkippableRangeType::Parentheses && crosses(quote, ranges[k])
}

/// True when the quote and some text in brackets overlap in part: one end inside, the
/// other outside. Marks that were paired across the end of a sentence look like this.
pub fn quote_partially_overlaps_parens(quote: &SkippableRange, ranges: &[SkippableRange]) -> (r:
    bool)
    ensures
        r == crosses_parens(*quote, ranges@),
{
    let mut k: usize = 0;
    while k < ranges.len()
        invariant
            k <= ranges@.len(),
            forall|j: int|
                0 <= j < k ==> !((#[trigger] ranges@[j]).range_type
                    == SkippableRangeType::Parentheses && crosses(*quote, ranges@[j])),
        decreases ranges@.len() - k,
    {
        let p: SkippableRange = ranges[k];
        if p.range_type == SkippableRangeType::Parentheses && ((quote.start < p.start && p.start
            < quote.end && quote.end < p.end) || (p.start < quote.start && quote.start < p.end
            && p.end < quote.end)) {
            assert(crosses(*quote, ranges@[k as int]));
            return true;
        }
        k += 1;
    }
    false
}

// Quotes whose marks stand apart from the text.

/// The range from `start` to `end`.
pub open spec fn range(start: int, end: int, range_type: SkippableRangeType) -> SkippableRange {
    SkippableRange { start: start as usize, end: end as usize, range_type }
}

/// True when the marks at `opener` and `closer` enclose a quote: the first stands
/// apart, and the second does not rather open the next quote behind a full stop.
pub open spec fn makes_pair(text: Seq<char>, token: Seq<char>, opener: int, closer: int) -> bool {
    &&& opener_shape(text, opener, token)
    &&& !(new_utterance(after(text, closer + size(token))) && has_inline_break(
        between(text, opener + size(token), closer),
    ))
}

/// The quotes that the marks from number `k` on enclose. A mark is paired with its
/// neighbour or left alone.
pub open spec fn paired(text: Seq<char>, token: Seq<char>, marks: Seq<int>, k: int) -> Seq<
    SkippableRange,
>
    decreases marks.len() - k,
{
    if k < 0 || marks.len() <= k + 1 {
        Seq::empty()
    } else if makes_pair(text, token, marks[k], marks[k + 1]) {
        seq![range(marks[k], marks[k + 1] + size(token), SkippableRangeType::Quote)] + paired(
            text,
            token,
            marks,
            k + 2,
        )
    } else {
        paired(text, token, marks, k + 1)
    }
}

/// `ranges` and the quotes that the first `n` pairs of marks add: of guarded marks,
/// those that stand apart.
pub open spec fn with_padded_quotes(
    text: Seq<char>,
    ranges: Seq<SkippableRange>,
    n: int,
) -> Seq<SkippableRange>
    decreases n,
{
    if n <= 0 {
        ranges
    } else {
        let earlier = with_padded_quotes(text, ranges, n - 1);
        let mark = QUOTE_PAIRS@[n - 1].1@;
        if QUOTE_PAIRS@[n - 1].2 && is_symmetric(n - 1) {
            earlier + paired(text, mark, free_marks(text, mark, earlier), 0)
        } else {
            earlier
        }
    }
}

/// Adds the quotes that the free marks `token` enclose.
fn append_pairs(
    text: &str,
    token: &str,
    marks: &Vec<usize>,
    ranges: &mut Vec<SkippableRange>,
    patterns: &Patterns,
)
    requires
        patterns.wf(),
        token@.len() > 0,
        forall|i: int|
            0 <= i < marks@.len() ==> occurs_at(text@, token@, (#[trigger] marks@[i]) as int),
        forall|i: int, j: int|
            0 <= i < j < marks@.len() ==> #[trigger] marks@[i] + size(token@)
                <= #[trigger] marks@[j],
    ensures
        final(ranges)@ == old(ranges)@ + paired(text@, token@, as_positions(marks@), 0),
{
    let _limit: usize = byte_len(text);
    let n: usize = byte_len(token);
    let ghost positions = as_positions(marks@);
    let ghost was = ranges@;
    let mut k: usize = 0;
    proof {
        assert(ranges@ + paired(text@, token@, positions, 0) =~= was + paired(
            text@,
            token@,
            positions,
            0,
        ));
    }
    while k < marks.len() && 1 < marks.len() - k
        invariant
            n == size(token@),
            _limit == size(text@),
            k <= marks@.len(),
            patterns.wf(),
            token@.len() > 0,
            positions == as_positions(marks@),
            forall|i: int|
                0 <= i < marks@.len() ==> occurs_at(text@, token@, (#[trigger] marks@[i]) as int),
            forall|i: int, j: int|
                0 <= i < j < marks@.len() ==> #[trigger] marks@[i] + size(token@)
                    <= #[trigger] marks@[j],
            ranges@ + paired(text@, token@, positions, k as int) == was + paired(
                text@,
                token@,
                positions,
                0,
            ),
        decreases marks@.len() - k,
    {
        let opener: usize = marks[k];
        let closer: usize = marks[k + 1];
        proof {
            lemma_occurs(text@, token@, opener as int);
            lemma_occurs(text@, token@, closer as int);
            assert(positions[k as int] == opener && positions[k + 1] == closer);
        }
        let span = piece(text, opener + n, closer);
        if is_opener_shape(text, opener, token) && !(starts_new_utterance(text, closer + n)
            && patterns.inline_break.is_match(span)) {
            assert(makes_pair(text@, token@, opener as int, closer as int));
            let ghost now = ranges@;
            let new_range = SkippableRange::new(opener, closer + n, SkippableRangeType::Quote);
            ranges.push(new_range);
            proof {
                assert(new_range == range(
                    opener as int,
                    closer + size(token@),
                    SkippableRangeType::Quote,
                ));
                let rest = paired(text@, token@, positions, k + 2);
                assert(now + (seq![new_range] + rest) =~= now.push(new_range) + rest);
            }
            k += 2;
        } else {
            assert(!makes_pair(text@, token@, opener as int, closer as int));
            k += 1;
        }
    }
    proof {
        assert(paired(text@, token@, positions, k as int) =~= Seq::<SkippableRange>::empty());
        assert(ranges@ + Seq::<SkippableRange>::empty() =~= ranges@);
    }
}

/// Adds the quotes in guarded marks (`'…'`, `` `…` ``) that stand apart from the text,
/// which the expression for quotes leaves out.
///
/// The free occurrences of a mark are taken two by two. The first of the two must
/// stand apart. The second must not look like the opener of the next quote: white
/// space and a capital behind it, and the end of a sentence before it.
pub fn append_space_padded_quote_pairs(
    text: &str,
    ranges: &mut Vec<SkippableRange>,
    patterns: &Patterns,
)
    requires
        patterns.wf(),
    ensures
        final(ranges)@ == with_padded_quotes(text@, old(ranges)@, QUOTE_PAIRS@.len() as int),
{
    let ghost was = ranges@;
    let mut i: usize = 0;
    while i < QUOTE_PAIRS.len()
        invariant
            i <= QUOTE_PAIRS@.len(),
            patterns.wf(),
            ranges@ == with_padded_quotes(text@, was, i as int),
        decreases QUOTE_PAIRS@.len() - i,
    {
        let open: &'static str = QUOTE_PAIRS[i].0;
        let close: &'static str = QUOTE_PAIRS[i].1;
        let guard: bool = QUOTE_PAIRS[i].2;
        proof {
            lemma_marks();
            assert(QUOTE_PAIRS@[i as int] == (open, close, guard));
        }
        if guard && same(open, close) {
            let marks: Vec<usize> = find_free_marks(text, close, ranges.as_slice());
            proof {
                lemma_free_marks(text@, close@, ranges@);
                let positions = as_positions(marks@);
                assert forall|j: int| 0 <= j < marks@.len() implies occurs_at(
                    text@,
                    close@,
                    (#[trigger] marks@[j]) as int,
                ) by {
                    assert(positions[j] == marks@[j]);
                }
                assert forall|j: int, k: int| 0 <= j < k < marks@.len() implies #[trigger] marks@[j]
                    + size(close@) <= #[trigger] marks@[k] by {
                    assert(positions[j] == marks@[j] && positions[k] == marks@[k]);
                }
            }
            append_pairs(text, close, &marks, ranges, patterns);
        }
        i += 1;
    }
}

// All ranges of a text.

impl Keyed for SkippableRange {
    open spec fn key(&self) -> int {
        self.start as int
    }

    fn precedes(&self, other: &Self) -> bool {
        self.start <= other.start
    }
}

/// The ranges that matches cover.
pub open spec fn ranges_of(spans: Seq<(int, int)>, range_type: SkippableRangeType) -> Seq<
    SkippableRange,
> {
    spans.map_values(|m: (int, int)| range(m.0, m.1, range_type))
}

/// The ranges of `text`, by where they start, when the expressions for quotes,
/// brackets and addresses match at `quotes`, `parens` and `emails`.
pub open spec fn ranges_from(
    text: Seq<char>,
    quotes: Seq<(int, int)>,
    parens: Seq<(int, int)>,
    emails: Seq<(int, int)>,
) -> Seq<SkippableRange> {
    sorted(
        with_padded_quotes(
            text,
            ranges_of(quotes, SkippableRangeType::Quote),
            QUOTE_PAIRS@.len() as int,
        ) + ranges_of(parens, SkippableRangeType::Parentheses) + ranges_of(
            emails,
            SkippableRangeType::Email,
        ),
    )
}

/// Adds the ranges that the matches `spans` cover.
pub fn push_ranges(
    spans: &[(usize, usize)],
    range_type: SkippableRangeType,
    out: &mut Vec<SkippableRange>,
)
    ensures
        final(out)@ == old(out)@ + ranges_of(as_spans(spans@), range_type),
{
    let ghost was = out@;
    let ghost all = ranges_of(as_spans(spans@), range_type);
    let mut i: usize = 0;
    proof {
        assert(was + all.take(0) =~= was);
    }
    while i < spans.len()
        invariant
            i <= spans@.len(),
            all == ranges_of(as_spans(spans@), range_type),
            out@ == was + all.take(i as int),
        decreases spans@.len() - i,
    {
        let (start, end) = spans[i];
        out.push(SkippableRange::new(start, end, range_type));
        proof {
            assert(all[i as int] == SkippableRange { start, end, range_type });
            assert(all.take(i + 1) =~= all.take(i as int).push(all[i as int]));
        }
        i += 1;
    }
    proof {
        assert(all.take(i as int) =~= all);
    }
}

/// Puts the ranges of `text` together from the matches of the expressions for quotes,
/// brackets and addresses, and sorts them by where they start.
pub fn collect_ranges(
    text: &str,
    quotes: &[(usize, usize)],
    parens: &[(usize, usize)],
    emails: &[(usize, usize)],
    patterns: &Patterns,
) -> (r: Vec<SkippableRange>)
    requires
        patterns.wf(),
    ensures
        r@ == ranges_from(text@, as_spans(quotes@), as_spans(parens@), as_spans(emails@)),
        in_order(r@),
{
    let mut ranges: Vec<SkippableRange> = Vec::new();
    push_ranges(quotes, SkippableRangeType::Quote, &mut ranges);
    proof {
        let found = ranges_of(as_spans(quotes@), SkippableRangeType::Quote);
        assert(Seq::<SkippableRange>::empty() + found =~= found);
    }
    append_space_padded_quote_pairs(text, &mut ranges, patterns);
    push_ranges(parens, SkippableRangeType::Parentheses, &mut ranges);
    push_ranges(emails, SkippableRangeType::Email, &mut ranges);
    proof {
        lemma_sorted(ranges@);
    }
    sort(&mut ranges);
    ranges
}

/// True when every quote starts and ends at cuts of `text`.
pub open spec fn quotes_lie_in(text: Seq<char>, ranges: Seq<SkippableRange>) -> bool {
    forall|k: int|
        0 <= k < ranges.len() ==> (#[trigger] ranges[k]).quote() ==> ranges[k].lies_in(text)
}

/// True when every quote that ends at or before `boundary` starts and ends at cuts of
/// `text`.
pub open spec fn earlier_quotes_lie_in(
    text: Seq<char>,
    ranges: Seq<SkippableRange>,
    boundary: int,
) -> bool {
    forall|k: int|
        0 <= k < ranges.len() ==> (#[trigger] ranges[k]).quote() && ranges[k].end <= boundary
            ==> ranges[k].lies_in(text)
}

/// True when every range is a part of `text` that is not empty, and no list item.
pub open spec fn all_lie_in(text: Seq<char>, ranges: Seq<SkippableRange>) -> bool {
    forall|k: int|
        0 <= k < ranges.len() ==> (#[trigger] ranges[k]).lies_in(text) && ranges[k].start
            < ranges[k].end && ranges[k].range_type != SkippableRangeType::ListItem
}

/// Quotes whose marks stand apart are parts of the text.
proof fn lemma_paired(text: Seq<char>, token: Seq<char>, marks: Seq<int>, k: int)
    requires
        size(text) <= usize::MAX,
        token.len() > 0,
        forall|i: int| 0 <= i < marks.len() ==> occurs_at(text, token, #[trigger] marks[i]),
        forall|i: int, j: int|
            0 <= i < j < marks.len() ==> #[trigger] marks[i] + size(token) <= #[trigger] marks[j],
    ensures
        all_lie_in(text, paired(text, token, marks, k)),
    decreases marks.len() - k,
{
    if k < 0 || marks.len() <= k + 1 {
    } else if makes_pair(text, token, marks[k], marks[k + 1]) {
        lemma_paired(text, token, marks, k + 2);
        lemma_occurs(text, token, marks[k]);
        lemma_occurs(text, token, marks[k + 1]);
        let rest = paired(text, token, marks, k + 2);
        let first = range(marks[k], marks[k + 1] + size(token), SkippableRangeType::Quote);
        assert(all_lie_in(text, seq![first]));
        lemma_concat_lies_in(text, seq![first], rest);
    } else {
        lemma_paired(text, token, marks, k + 1);
    }
}

/// Putting two lists of ranges together keeps them parts of the text.
proof fn lemma_concat_lies_in(text: Seq<char>, a: Seq<SkippableRange>, b: Seq<SkippableRange>)
    requires
        all_lie_in(text, a),
        all_lie_in(text, b),
    ensures
        all_lie_in(text, a + b),
{
    let r = a + b;
    assert forall|k: int| 0 <= k < r.len() implies (#[trigger] r[k]).lies_in(text) && r[k].start
        < r[k].end && r[k].range_type != SkippableRangeType::ListItem by {
        if k < a.len() {
            assert(r[k] == a[k]);
        } else {
            assert(r[k] == b[k - a.len()]);
        }
    }
}

/// Putting two lists of ranges together keeps every quote between cuts.
pub proof fn lemma_quotes_concat(text: Seq<char>, a: Seq<SkippableRange>, b: Seq<SkippableRange>)
    requires
        quotes_lie_in(text, a),
        quotes_lie_in(text, b),
    ensures
        quotes_lie_in(text, a + b),
{
    assert forall|k: int| 0 <= k < (a + b).len() && (#[trigger] (a + b)[k]).quote() implies (a
        + b)[k].lies_in(text) by {
        if k < a.len() {
            assert((a + b)[k] == a[k]);
        } else {
            assert((a + b)[k] == b[k - a.len()]);
        }
    }
}

/// Sorting keeps every quote between cuts.
pub proof fn lemma_quotes_sorted(text: Seq<char>, ranges: Seq<SkippableRange>)
    requires
        quotes_lie_in(text, ranges),
    ensures
        quotes_lie_in(text, sorted(ranges)),
{
    lemma_sorted(ranges);
    let r = sorted(ranges);
    assert forall|k: int| 0 <= k < r.len() && (#[trigger] r[k]).quote() implies r[k].lies_in(
        text,
    ) by {
        assert(r.contains(r[k]));
        let i = ranges.index_of(r[k]);
        assert(ranges[i] == r[k]);
    }
}

proof fn lemma_padded_quotes(text: Seq<char>, ranges: Seq<SkippableRange>, n: int)
    requires
        size(text) <= usize::MAX,
        all_lie_in(text, ranges),
        n <= QUOTE_PAIRS@.len(),
    ensures
        all_lie_in(text, with_padded_quotes(text, ranges, n)),
    decreases n,
{
    if n > 0 {
        lemma_padded_quotes(text, ranges, n - 1);
        let earlier = with_padded_quotes(text, ranges, n - 1);
        let mark = QUOTE_PAIRS@[n - 1].1@;
        if QUOTE_PAIRS@[n - 1].2 && is_symmetric(n - 1) {
            lemma_marks();
            lemma_free_marks(text, mark, earlier);
            let marks = free_marks(text, mark, earlier);
            lemma_paired(text, mark, marks, 0);
            lemma_concat_lies_in(text, earlier, paired(text, mark, marks, 0));
        }
    }
}

/// True when every match is a part of `text` that is not empty.
pub open spec fn are_parts(text: Seq<char>, spans: Seq<(int, int)>) -> bool {
    forall|i: int|
        0 <= i < spans.len() ==> is_span(text, #[trigger] spans[i]) && spans[i].0 < spans[i].1
}

proof fn lemma_ranges_of(text: Seq<char>, spans: Seq<(int, int)>, range_type: SkippableRangeType)
    requires
        size(text) <= usize::MAX,
        are_parts(text, spans),
        range_type != SkippableRangeType::ListItem,
    ensures
        all_lie_in(text, ranges_of(spans, range_type)),
{
    let r = ranges_of(spans, range_type);
    assert forall|k: int| 0 <= k < r.len() implies (#[trigger] r[k]).lies_in(text) && r[k].start
        < r[k].end && r[k].range_type != SkippableRangeType::ListItem by {
        assert(is_span(text, spans[k]));
    }
}

/// The ranges before they are sorted.
spec fn unsorted_ranges(
    text: Seq<char>,
    quotes: Seq<(int, int)>,
    parens: Seq<(int, int)>,
    emails: Seq<(int, int)>,
) -> Seq<SkippableRange> {
    with_padded_quotes(
        text,
        ranges_of(quotes, SkippableRangeType::Quote),
        QUOTE_PAIRS@.len() as int,
    ) + ranges_of(parens, SkippableRangeType::Parentheses) + ranges_of(
        emails,
        SkippableRangeType::Email,
    )
}

/// When the matches are parts of the text, so are all ranges.
pub proof fn lemma_ranges_from(
    text: Seq<char>,
    quotes: Seq<(int, int)>,
    parens: Seq<(int, int)>,
    emails: Seq<(int, int)>,
)
    requires
        size(text) <= usize::MAX,
        are_parts(text, quotes),
        are_parts(text, parens),
        are_parts(text, emails),
    ensures
        all_lie_in(text, ranges_from(text, quotes, parens, emails)),
        in_order(ranges_from(text, quotes, parens, emails)),
{
    let found = ranges_of(quotes, SkippableRangeType::Quote);
    let n = QUOTE_PAIRS@.len() as int;
    lemma_ranges_of(text, quotes, SkippableRangeType::Quote);
    lemma_ranges_of(text, parens, SkippableRangeType::Parentheses);
    lemma_ranges_of(text, emails, SkippableRangeType::Email);
    lemma_padded_quotes(text, found, n);
    let a = with_padded_quotes(text, found, n);
    let b = ranges_of(parens, SkippableRangeType::Parentheses);
    let c = ranges_of(emails, SkippableRangeType::Email);
    lemma_concat_lies_in(text, a, b);
    lemma_concat_lies_in(text, a + b, c);
    let all = unsorted_ranges(text, quotes, parens, emails);
    lemma_sorted(all);
    let r = sorted(all);
    assert forall|k: int| 0 <= k < r.len() implies (#[trigger] r[k]).lies_in(text) && r[k].start
        < r[k].end && r[k].range_type != SkippableRangeType::ListItem by {
        assert(r.contains(r[k]));
        let i = all.index_of(r[k]);
        assert(all[i] == r[k]);
    }
}

/// True when `p` has none of the characters that quotation marks start with.
pub open spec fn no_marks(p: Seq<char>) -> bool {
    forall|i: int|
        0 <= i < QUOTE_PAIRS@.len() ==> !p.contains((#[trigger] QUOTE_PAIRS@[i]).0@[0])
            && !p.contains(QUOTE_PAIRS@[i].1@[0])
}

/// A token occurs only where its first character does.
proof fn lemma_first_occurs(p: Seq<char>, token: Seq<char>, at: int)
    requires
        token.len() > 0,
        occurs_at(p, token, at),
    ensures
        p.contains(token[0]),
{
    lemma_occurs(p, token, at);
    lemma_cut_ends(p);
    lemma_join(p, 0, at, at + size(token));
    lemma_split(p, at + size(token));
    let n = before(p, at).len() as int;
    assert(p[n] == token[0]);
}

/// Without quotation marks no closer occurs.
pub proof fn lemma_no_closer(p: Seq<char>, k: int, at: int)
    requires
        no_marks(p),
        0 <= k < QUOTE_CLOSERS_BY_LEN@.len(),
    ensures
        !occurs_at(p, QUOTE_CLOSERS_BY_LEN@[k]@, at),
{
    law_closers_are_listed_longest_first();
    lemma_marks();
    let closer = QUOTE_CLOSERS_BY_LEN@[k]@;
    let i = choose|i: int|
        0 <= i < QUOTE_PAIRS@.len() && (#[trigger] QUOTE_PAIRS@[i]).1@ == closer;
    if occurs_at(p, closer, at) {
        lemma_first_occurs(p, closer, at);
        assert(!p.contains(QUOTE_PAIRS@[i].1@[0]));
    }
}

proof fn lemma_no_padded_quotes(p: Seq<char>, ranges: Seq<SkippableRange>, n: int)
    requires
        no_marks(p),
        n <= QUOTE_PAIRS@.len(),
    ensures
        with_padded_quotes(p, ranges, n) == ranges,
    decreases n,
{
    if n > 0 {
        lemma_no_padded_quotes(p, ranges, n - 1);
        let mark = QUOTE_PAIRS@[n - 1].1@;
        lemma_marks();
        lemma_free_marks(p, mark, ranges);
        let marks = free_marks(p, mark, ranges);
        if marks.len() > 0 {
            assert(occurs_at(p, mark, marks[0]));
            lemma_first_occurs(p, mark, marks[0]);
            assert(!p.contains(QUOTE_PAIRS@[n - 1].1@[0]));
        }
        assert(ranges + paired(p, mark, marks, 0) =~= ranges);
    }
}

/// Without quotation marks there are no quotes.
pub proof fn lemma_no_marks(
    text: Seq<char>,
    quotes: Seq<(int, int)>,
    parens: Seq<(int, int)>,
    emails: Seq<(int, int)>,
)
    requires
        no_marks(text),
        forall|i: int| 0 <= i < quotes.len() ==> is_quoted(text, #[trigger] quotes[i]),
    ensures
        forall|k: int|
            0 <= k < ranges_from(text, quotes, parens, emails).len() ==> !(#[trigger] ranges_from(
                text,
                quotes,
                parens,
                emails,
            )[k]).quote(),
{
    if quotes.len() > 0 {
        lemma_marks();
        assert(is_quoted(text, quotes[0]));
        let i = choose|i: int|
            #![trigger QUOTE_PAIRS@[i]]
            0 <= i < QUOTE_PAIRS@.len() && {
                let open = QUOTE_PAIRS@[i].0@;
                let close = QUOTE_PAIRS@[i].1@;
                &&& quotes[0].0 + size(open) + size(close) <= quotes[0].1
                &&& occurs_at(text, open, quotes[0].0)
                &&& occurs_at(text, close, quotes[0].1 - size(close))
            };
        lemma_first_occurs(text, QUOTE_PAIRS@[i].0@, quotes[0].0);
    }
    lemma_no_padded_quotes(
        text,
        ranges_of(quotes, SkippableRangeType::Quote),
        QUOTE_PAIRS@.len() as int,
    );
    let all = unsorted_ranges(text, quotes, parens, emails);
    lemma_sorted(all);
    let r = sorted(all);
    assert forall|k: int| 0 <= k < r.len() implies !(#[trigger] r[k]).quote() by {
        assert(r.contains(r[k]));
        let i = all.index_of(r[k]);
        assert(all[i] == r[k]);
    }
}

/// The size of a text of one or two characters is that of its characters.
proof fn lemma_short(t: Seq<char>)
    ensures
        t.len() == 1 ==> size(t) == encode_scalar(t[0] as u32).len(),
        t.len() == 2 ==> size(t) == encode_scalar(t[0] as u32).len() + encode_scalar(
            t[1] as u32,
        ).len(),
{
    reveal_with_fuel(encode_utf8, 3);
    if t.len() == 2 {
        assert(t.drop_first()[0] == t[1]);
    }
}

/// The closers are those of the pairs, and longer closers come before shorter ones.
pub proof fn law_closers_are_listed_longest_first()
    ensures
        forall|i: int|
            0 <= i < QUOTE_PAIRS@.len() ==> is_among(
                QUOTE_CLOSERS_BY_LEN@,
                (#[trigger] QUOTE_PAIRS@[i]).1@,
            ),
        forall|k: int|
            0 <= k < QUOTE_CLOSERS_BY_LEN@.len() ==> exists|i: int|
                0 <= i < QUOTE_PAIRS@.len() && (#[trigger] QUOTE_PAIRS@[i]).1@ == (
                #[trigger] QUOTE_CLOSERS_BY_LEN@[k])@,
        forall|i: int, j: int|
            0 <= i <= j < QUOTE_CLOSERS_BY_LEN@.len() ==> size(
                (#[trigger] QUOTE_CLOSERS_BY_LEN@[j])@,
            ) <= size((#[trigger] QUOTE_CLOSERS_BY_LEN@[i])@),
{
    let c = QUOTE_CLOSERS_BY_LEN@;
    reveal_strlit("’");
    reveal_strlit("‚");
    reveal_strlit("”");
    reveal_strlit("‛");
    reveal_strlit("“");
    reveal_strlit("‟");
    reveal_strlit("›");
    reveal_strlit("》");
    reveal_strlit("」");
    reveal_strlit("''");
    reveal_strlit("``");
    reveal_strlit("»");
    reveal_strlit("\"");
    reveal_strlit("'");
    reveal_strlit("`");
    assert forall|i: int| 0 <= i < c.len() implies size((#[trigger] c[i])@) == if i < 9 {
        3int
    } else if i < 12 {
        2
    } else {
        1
    } by {
        lemma_short(c[i]@);
    }
    let p = QUOTE_PAIRS@;
    assert(p[0].1 == c[9]);
    assert(p[1].1 == c[10]);
    assert(p[2].1 == c[12]);
    assert(p[3].1 == c[13]);
    assert(p[4].1 == c[14]);
    assert(p[5].1 == c[11]);
    assert(p[6].1 == c[0]);
    assert(p[7].1 == c[1]);
    assert(p[8].1 == c[2]);
    assert(p[9].1 == c[3]);
    assert(p[10].1 == c[4]);
    assert(p[11].1 == c[5]);
    assert(p[12].1 == c[6]);
    assert(p[13].1 == c[7]);
    assert(p[14].1 == c[8]);
}

} // verus!
