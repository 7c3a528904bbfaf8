//! Quoted text, brackets and addresses.

use vstd::prelude::*;

use crate::chars::{
    ascii_upper, lemma_run_back, run_back, strip_back, unicode_alphanumeric, white_space, CharClass,
    White,
};
use crate::constants::{
    terminator, CONTINUE_AFTER_NONWORD_PATTERN, EMAIL_PATTERN, PARENS_PATTERN, QUOTES_PATTERN,
    QUOTE_CLOSERS_BY_LEN, QUOTE_PAIRS, Trailing,
};
use crate::languages::cuts::pushed;
use crate::languages::ranges::{
    crosses, crosses_parens, free_marks, in_quote_range, is_free, is_symmetric, lemma_marks,
    makes_pair, orphan_closer, paired, range, ranges_from, ranges_of, symmetric_mark,
    symmetric_pair_at, symmetric_range, with_padded_quotes, SkippableRange, SkippableRangeType,
};
use crate::languages::rules::{
    last_token, law_longer_token_has_dot, lemma_forbids, lemma_forbids_bounds, next_word,
    skippable_ranges, Rules,
};
use crate::laws::parts::{
    all_white, ends_with_word, is_listed_in, is_seen, law_behind_run, law_last_token,
    law_last_word_is_at_the_end, law_next_word, law_strip_front, lemma_front, lemma_literals,
    lemma_meet, lemma_meet_three, lemma_starts, no_white_first, starts,
};
use crate::laws::sentences::{
    around, ends_with_token, goes_on_with, is_opener, law_starter_follows, law_what_goes_on,
};
use crate::order::{lemma_sorted, sorted};
use crate::pattern::{
    has_inline_break, is_match_facts, regex_find_iter, regex_is_match, AsciiNonWord,
};
use crate::text::{ceil_cut, lemma_occurs, occurrences, occurs_at};
use crate::utf8::{between, is_cut, lemma_between, size};
use crate::words::{is_among, trimmed};

verus! {

/// True for the quotation marks that both open and close.
pub open spec fn is_two_sided(mark: Seq<char>) -> bool {
    exists|i: int|
        0 <= i < QUOTE_PAIRS@.len() && QUOTE_PAIRS@[i].0@ == mark && (#[trigger] QUOTE_PAIRS@[i]).1@
            == mark
}

/// The marks that both open and close are those of the pairs with one mark for both ends.
pub proof fn law_two_sided_marks(mark: Seq<char>)
    ensures
        symmetric_mark(mark) <==> is_two_sided(mark),
{
    if is_two_sided(mark) {
        let i = choose|i: int|
            0 <= i < QUOTE_PAIRS@.len() && QUOTE_PAIRS@[i].0@ == mark && (
            #[trigger] QUOTE_PAIRS@[i]).1@ == mark;
        assert(is_symmetric(i));
    }
    if symmetric_mark(mark) {
        let i = choose|i: int|
            0 <= i < QUOTE_PAIRS@.len() && #[trigger] is_symmetric(i) && QUOTE_PAIRS@[i].1@ == mark;
        assert(QUOTE_PAIRS@[i].0@ == mark && QUOTE_PAIRS@[i].1@ == mark);
    }
}

/// What lies between a boundary and the end of a quote is one of the closers exactly when
/// the boundary stands right before the closer.
pub proof fn law_right_before_closer(r: SkippableRange, p: Seq<char>, b: int)
    requires
        is_cut(p, b),
        is_cut(p, r.end as int),
        b <= r.end,
    ensures
        r.closes_behind(p, b) <==> r.range_type == SkippableRangeType::Quote && is_among(
            QUOTE_CLOSERS_BY_LEN@,
            between(p, b, r.end as int),
        ),
{
    lemma_between(p, b, r.end as int);
    lemma_marks();
    let x = between(p, b, r.end as int);
    if r.closes_behind(p, b) {
        let i = choose|i: int|
            #![trigger QUOTE_CLOSERS_BY_LEN@[i]]
            0 <= i < QUOTE_CLOSERS_BY_LEN@.len() && occurs_at(p, QUOTE_CLOSERS_BY_LEN@[i]@, b) && b
                + size(QUOTE_CLOSERS_BY_LEN@[i]@) == r.end;
        lemma_occurs(p, QUOTE_CLOSERS_BY_LEN@[i]@, b);
    }
    if r.quote() && is_among(QUOTE_CLOSERS_BY_LEN@, x) {
        let i = choose|i: int|
            0 <= i < QUOTE_CLOSERS_BY_LEN@.len() && (#[trigger] QUOTE_CLOSERS_BY_LEN@[i])@ == x;
        assert(occurs_at(p, QUOTE_CLOSERS_BY_LEN@[i]@, b));
    }
}

proof fn lemma_not_closing(r: SkippableRange, p: Seq<char>, b: int)
    requires
        r.closes_behind(p, b),
    ensures
        is_among(QUOTE_CLOSERS_BY_LEN@, between(p, b, r.end as int)),
{
    lemma_marks();
    let i = choose|i: int|
        #![trigger QUOTE_CLOSERS_BY_LEN@[i]]
        0 <= i < QUOTE_CLOSERS_BY_LEN@.len() && occurs_at(p, QUOTE_CLOSERS_BY_LEN@[i]@, b) && b
            + size(QUOTE_CLOSERS_BY_LEN@[i]@) == r.end;
    lemma_occurs(p, QUOTE_CLOSERS_BY_LEN@[i]@, b);
}

/// True when no quote around `b` has only its closer left behind `b`.
pub open spec fn before_no_closer(p: Seq<char>, ranges: Seq<SkippableRange>, b: int) -> bool {
    forall|j: int|
        0 <= j < ranges.len() && (#[trigger] ranges[j]).start < b < ranges[j].end
            && ranges[j].range_type == SkippableRangeType::Quote ==> !is_among(
            QUOTE_CLOSERS_BY_LEN@,
            between(p, b, ranges[j].end as int),
        )
}

proof fn lemma_stays(
    rules: Rules,
    p: Seq<char>,
    ranges: Seq<SkippableRange>,
    cuts: Seq<int>,
    m: (int, int),
    b: int,
    k: int,
)
    requires
        rules.boundary(p, m.0, m.1) == Some(b),
        0 <= k < ranges.len(),
        ranges[k].around(b),
        !rules.mispaired(p, ranges, ranges[k], m),
        before_no_closer(p, ranges, b),
    ensures
        rules.after_match(p, ranges, cuts, m) == cuts,
{
    lemma_forbids(rules, p, ranges, b, m, 0, k);
    lemma_forbids_bounds(rules, p, ranges, b, m, 0);
    let j = rules.forbids(p, ranges, b, m, 0)->0;
    if ranges[j].closes_behind(p, b) {
        lemma_not_closing(ranges[j], p, b);
    }
}

/// A terminator whose boundary would lie inside brackets, an address or a list item adds no
/// cut, unless it stands right before the closer of a quote.
pub proof fn law_brackets_are_not_divided(
    rules: Rules,
    p: Seq<char>,
    ranges: Seq<SkippableRange>,
    cuts: Seq<int>,
    m: (int, int),
    b: int,
    k: int,
)
    requires
        rules.boundary(p, m.0, m.1) == Some(b),
        0 <= k < ranges.len(),
        ranges[k].range_type != SkippableRangeType::Quote,
        ranges[k].start < b < ranges[k].end,
        before_no_closer(p, ranges, b),
    ensures
        rules.after_match(p, ranges, cuts, m) == cuts,
{
    lemma_stays(rules, p, ranges, cuts, m, b, k);
}

/// A terminator whose boundary would lie inside a quote that is enclosed in two different
/// marks adds no cut, unless it stands right before the closer.
pub proof fn law_one_sided_quotes_are_not_divided(
    rules: Rules,
    p: Seq<char>,
    ranges: Seq<SkippableRange>,
    cuts: Seq<int>,
    m: (int, int),
    b: int,
    k: int,
)
    requires
        rules.boundary(p, m.0, m.1) == Some(b),
        0 <= k < ranges.len(),
        ranges[k].start < b < ranges[k].end,
        forall|i: int|
            0 <= i < QUOTE_PAIRS@.len() && QUOTE_PAIRS@[i].0@ == (#[trigger] QUOTE_PAIRS@[i]).1@
                ==> !starts(
                between(p, ranges[k].start as int, ranges[k].end as int),
                QUOTE_PAIRS@[i].0@,
            ),
        before_no_closer(p, ranges, b),
    ensures
        rules.after_match(p, ranges, cuts, m) == cuts,
{
    let span = between(p, ranges[k].start as int, ranges[k].end as int);
    if symmetric_range(p, ranges[k]) {
        let i = choose|i: int|
            0 <= i < QUOTE_PAIRS@.len() && #[trigger] is_symmetric(i) && {
                let mark = QUOTE_PAIRS@[i].0@;
                &&& 2 * size(mark) <= size(span)
                &&& occurs_at(span, mark, 0)
                &&& occurs_at(span, mark, size(span) - size(mark))
            };
        lemma_starts(span, QUOTE_PAIRS@[i].0@);
        assert(QUOTE_PAIRS@[i].0@ == QUOTE_PAIRS@[i].1@);
    }
    lemma_stays(rules, p, ranges, cuts, m, b, k);
}

/// True when the quote overlaps brackets in part: one end inside, the other outside.
pub open spec fn overlaps_brackets(quote: SkippableRange, ranges: Seq<SkippableRange>) -> bool {
    exists|j: int|
        0 <= j < ranges.len() && (#[trigger] ranges[j]).range_type
            == SkippableRangeType::Parentheses && (quote.start < ranges[j].start < quote.end
            < ranges[j].end || ranges[j].start < quote.start < ranges[j].end < quote.end)
}

/// What makes a `.` a strong end of a sentence, from the text alone.
proof fn lemma_strong(
    ab: Set<Seq<char>>,
    st: Set<Seq<char>>,
    a: Seq<char>,
    word: Seq<char>,
    run: Seq<char>,
    w: Seq<char>,
    o: Seq<char>,
    e: Seq<char>,
    more: Seq<char>,
)
    requires
        ends_with_word(a, word),
        run.len() > 0,
        all_white(w),
        is_opener(o, e),
        is_seen(w + (o + e), more),
    ensures
        Rules::standard(ab, st).strong_break(
            around(a, run, w + (o + e), more),
            size(a),
            size(a) + size(run),
        ) <==> {
            &&& run == seq!['.']
            &&& word.len() > 0
            &&& !(word.len() == 1 && ascii_upper(word[0]))
            &&& !is_listed_in(ab, word)
            &&& !(last_token(a).contains('.') && is_listed_in(ab, last_token(a)))
            &&& (o.len() > 0 && st.contains(o)) || (is_two_sided(word) && (o + e).len() > 0
                && ascii_upper((o + e)[0]))
        },
{
    let rules = Rules::standard(ab, st);
    let next = w + (o + e);
    let p = around(a, run, next, more);
    assert(p =~= a + run + (next + more));
    lemma_meet_three(a, run, next + more);
    lemma_literals();
    law_last_word_is_at_the_end(a, word);
    law_two_sided_marks(word);
    law_longer_token_has_dot(a);
    law_starter_follows(rules, w, o, e);
    law_strip_front(w, o + e);
    if run == seq!['.'] {
        law_behind_run(a, run, next + more);
        assert(p =~= (a + run) + next + more);
        lemma_meet(a, run);
        law_next_word(a + run, next, more);
        assert(between(p, size(a), size(a) + size(run)).len() == 1);
        assert(ceil_cut(p, size(a) + 1) == size(a) + size(run));
    }
}

/// A terminator whose boundary would lie inside a quote that overlaps no brackets in part
/// adds no cut, unless it stands right before the closer, or the quote may have been paired
/// across the end of a sentence: the terminator is a `.` behind a word that is neither a
/// single capital nor an abbreviation, with or without dots in it, and a word follows that
/// opens sentences, or, behind a quotation mark, any word with a capital.
pub proof fn law_quoted_text_is_not_divided(
    ab: Set<Seq<char>>,
    st: Set<Seq<char>>,
    a: Seq<char>,
    word: Seq<char>,
    front: Seq<char>,
    token: Seq<char>,
    v: Seq<char>,
    run: Seq<char>,
    w: Seq<char>,
    o: Seq<char>,
    e: Seq<char>,
    more: Seq<char>,
    ranges: Seq<SkippableRange>,
    cuts: Seq<int>,
    b: int,
    k: int,
)
    requires
        ends_with_word(a, word),
        token.len() == 0 || ends_with_token(a, front, token, v),
        run.len() > 0,
        all_white(w),
        is_opener(o, e),
        is_seen(w + (o + e), more),
        Rules::standard(ab, st).boundary(
            around(a, run, w + (o + e), more),
            size(a),
            size(a) + size(run),
        ) == Some(b),
        0 <= k < ranges.len(),
        ranges[k].start < b < ranges[k].end,
        !overlaps_brackets(ranges[k], ranges),
        before_no_closer(around(a, run, w + (o + e), more), ranges, b),
        ({
            ||| run != seq!['.']
            ||| word.len() == 0
            ||| word.len() == 1 && ascii_upper(word[0])
            ||| is_listed_in(ab, word)
            ||| token.contains('.') && is_listed_in(ab, token)
            ||| (o.len() == 0 || !st.contains(o)) && !(is_two_sided(word) && (o + e).len() > 0
                && ascii_upper((o + e)[0]))
        }),
    ensures
        Rules::standard(ab, st).after_match(
            around(a, run, w + (o + e), more),
            ranges,
            cuts,
            (size(a), size(a) + size(run)),
        ) == cuts,
{
    let rules = Rules::standard(ab, st);
    let p = around(a, run, w + (o + e), more);
    let m = (size(a), size(a) + size(run));
    lemma_strong(ab, st, a, word, run, w, o, e, more);
    if token.len() > 0 {
        law_last_token(front, token, v);
    }
    if crosses_parens(ranges[k], ranges) {
        let j = choose|j: int|
            0 <= j < ranges.len() && (#[trigger] ranges[j]).range_type
                == SkippableRangeType::Parentheses && crosses(ranges[k], ranges[j]);
        assert(overlaps_brackets(ranges[k], ranges));
    }
    lemma_stays(rules, p, ranges, cuts, m, b, k);
}

/// The mark that a two-sided quote opens with: pair number `q`, where no pair before it has
/// its mark there.
pub open spec fn opens_with_mark(p: Seq<char>, r: SkippableRange, q: int) -> bool {
    &&& 0 <= q < QUOTE_PAIRS@.len()
    &&& QUOTE_PAIRS@[q].0@ == QUOTE_PAIRS@[q].1@
    &&& occurs_at(p, QUOTE_PAIRS@[q].0@, r.start as int)
    &&& forall|i: int| 0 <= i < q ==> !occurs_at(p, (#[trigger] QUOTE_PAIRS@[i]).0@, r.start as int)
}

proof fn lemma_pair_at(p: Seq<char>, at: int, from: int, q: int)
    requires
        0 <= from <= q < QUOTE_PAIRS@.len(),
        QUOTE_PAIRS@[q].0@ == QUOTE_PAIRS@[q].1@,
        occurs_at(p, QUOTE_PAIRS@[q].0@, at),
        forall|i: int| 0 <= i < q ==> !occurs_at(p, (#[trigger] QUOTE_PAIRS@[i]).0@, at),
    ensures
        symmetric_pair_at(p, at, from) == Some(q),
    decreases q - from,
{
    if from < q {
        assert(!occurs_at(p, QUOTE_PAIRS@[from].0@, at));
        lemma_pair_at(p, at, from + 1, q);
    }
}

/// A quote in two-sided marks whose mark occurs an even number of times, and which overlaps
/// no brackets in part, is not divided, unless the terminator stands right before its
/// closer.
pub proof fn law_evenly_marked_quotes_are_not_divided(
    rules: Rules,
    p: Seq<char>,
    ranges: Seq<SkippableRange>,
    cuts: Seq<int>,
    m: (int, int),
    b: int,
    k: int,
    q: int,
)
    requires
        rules.boundary(p, m.0, m.1) == Some(b),
        0 <= k < ranges.len(),
        ranges[k].start < b < ranges[k].end,
        opens_with_mark(p, ranges[k], q),
        occurrences(p, QUOTE_PAIRS@[q].0@, 0).len() % 2 == 0,
        !overlaps_brackets(ranges[k], ranges),
        before_no_closer(p, ranges, b),
    ensures
        rules.after_match(p, ranges, cuts, m) == cuts,
{
    lemma_pair_at(p, ranges[k].start as int, 0, q);
    if crosses_parens(ranges[k], ranges) {
        let j = choose|j: int|
            0 <= j < ranges.len() && (#[trigger] ranges[j]).range_type
                == SkippableRangeType::Parentheses && crosses(ranges[k], ranges[j]);
        assert(overlaps_brackets(ranges[k], ranges));
    }
    lemma_stays(rules, p, ranges, cuts, m, b, k);
}

/// True when the range is a quote that starts and ends with the mark of pair number `q`.
pub open spec fn is_enclosed(p: Seq<char>, r: SkippableRange, q: int) -> bool {
    let span = between(p, r.start as int, r.end as int);
    let mark = QUOTE_PAIRS@[q].0@;
    &&& r.range_type == SkippableRangeType::Quote
    &&& 2 * size(mark) <= size(span)
    &&& occurs_at(span, mark, 0)
    &&& occurs_at(span, mark, size(span) - size(mark))
}

/// A quote in two-sided marks is seen through, so that the sentence ends inside it, where it
/// overlaps brackets in part, or where its mark occurs an odd number of times and a `.` is a
/// strong end of a sentence.
pub proof fn law_mispaired_quotes_are_divided(
    ab: Set<Seq<char>>,
    st: Set<Seq<char>>,
    a: Seq<char>,
    word: Seq<char>,
    front: Seq<char>,
    token: Seq<char>,
    v: Seq<char>,
    run: Seq<char>,
    w: Seq<char>,
    o: Seq<char>,
    e: Seq<char>,
    more: Seq<char>,
    ranges: Seq<SkippableRange>,
    cuts: Seq<int>,
    b: int,
    q: int,
)
    requires
        ends_with_word(a, word),
        ends_with_token(a, front, token, v),
        run.len() > 0,
        all_white(w),
        is_opener(o, e),
        is_seen(w + (o + e), more),
        Rules::standard(ab, st).boundary(
            around(a, run, w + (o + e), more),
            size(a),
            size(a) + size(run),
        ) == Some(b),
        // Every range around the boundary is such a quote.
        forall|k: int|
            0 <= k < ranges.len() && (#[trigger] ranges[k]).start < b < ranges[k].end ==> {
                let p = around(a, run, w + (o + e), more);
                &&& opens_with_mark(p, ranges[k], q)
                &&& is_enclosed(p, ranges[k], q)
                &&& overlaps_brackets(ranges[k], ranges) || {
                    &&& occurrences(p, QUOTE_PAIRS@[q].0@, 0).len() % 2 == 1
                    &&& run == seq!['.']
                    &&& word.len() > 0
                    &&& !(word.len() == 1 && ascii_upper(word[0]))
                    &&& !is_listed_in(ab, word)
                    &&& !(token.contains('.') && is_listed_in(ab, token))
                    &&& (o.len() > 0 && st.contains(o)) || (is_two_sided(word) && (o + e).len()
                        > 0 && ascii_upper((o + e)[0]))
                }
            },
    ensures
        ({
            let rules = Rules::standard(ab, st);
            let p = around(a, run, w + (o + e), more);
            rules.after_match(p, ranges, cuts, (size(a), size(a) + size(run))) == pushed(
                cuts,
                rules.past_orphan(p, b, ranges),
            )
        }),
{
    let rules = Rules::standard(ab, st);
    let p = around(a, run, w + (o + e), more);
    let m = (size(a), size(a) + size(run));
    lemma_strong(ab, st, a, word, run, w, o, e, more);
    law_last_token(front, token, v);
    assert forall|k: int| 0 <= k < ranges.len() && (#[trigger] ranges[k]).around(b) implies rules.mispaired(
        p,
        ranges,
        ranges[k],
        m,
    ) by {
        lemma_pair_at(p, ranges[k].start as int, 0, q);
        assert(is_symmetric(q));
        assert(symmetric_range(p, ranges[k]));
        if overlaps_brackets(ranges[k], ranges) {
            let j = choose|j: int|
                0 <= j < ranges.len() && (#[trigger] ranges[j]).range_type
                    == SkippableRangeType::Parentheses && (ranges[k].start < ranges[j].start
                    < ranges[k].end < ranges[j].end || ranges[j].start < ranges[k].start
                    < ranges[j].end < ranges[k].end);
            assert(crosses(ranges[k], ranges[j]));
            assert(crosses_parens(ranges[k], ranges));
        }
    }
    lemma_all_mispaired(rules, p, ranges, b, m, 0);
}

proof fn lemma_all_mispaired(
    rules: Rules,
    p: Seq<char>,
    ranges: Seq<SkippableRange>,
    b: int,
    m: (int, int),
    k: int,
)
    requires
        0 <= k,
        forall|j: int|
            0 <= j < ranges.len() && (#[trigger] ranges[j]).around(b) ==> rules.mispaired(
                p,
                ranges,
                ranges[j],
                m,
            ),
    ensures
        rules.forbids(p, ranges, b, m, k) is None,
    decreases ranges.len() - k,
{
    if k < ranges.len() {
        if ranges[k].around(b) {
            assert(rules.mispaired(p, ranges, ranges[k], m));
        }
        lemma_all_mispaired(rules, p, ranges, b, m, k + 1);
    }
}

// Behind the closer of a quote.

/// A terminator right before the closer of a quote ends the sentence behind that closer and
/// what trails it, or not at all where the sentence goes on.
pub proof fn law_sentence_ends_behind_closer(
    rules: Rules,
    p: Seq<char>,
    ranges: Seq<SkippableRange>,
    cuts: Seq<int>,
    m: (int, int),
    b: int,
    k: int,
)
    requires
        rules.boundary(p, m.0, m.1) == Some(b),
        is_cut(p, b),
        0 <= k < ranges.len(),
        ranges[k].range_type == SkippableRangeType::Quote,
        ranges[k].start < b < ranges[k].end,
        is_cut(p, ranges[k].end as int),
        is_among(QUOTE_CLOSERS_BY_LEN@, between(p, b, ranges[k].end as int)),
        // No other range lies around the boundary, and the marks are not two-sided.
        forall|j: int|
            0 <= j < ranges.len() && j != k ==> !((#[trigger] ranges[j]).start < b < ranges[j].end),
        forall|i: int|
            0 <= i < QUOTE_PAIRS@.len() && QUOTE_PAIRS@[i].0@ == (#[trigger] QUOTE_PAIRS@[i]).1@
                ==> !starts(
                between(p, ranges[k].start as int, ranges[k].end as int),
                QUOTE_PAIRS@[i].0@,
            ),
    ensures
        ({
            let next = next_word(p, ranges[k].end as int);
            rules.after_match(p, ranges, cuts, m) == if rules.extend(next) >= 0 {
                pushed(cuts, ranges[k].end + size(next.take(rules.extend(next) as int)))
            } else {
                cuts
            }
        }),
{
    let span = between(p, ranges[k].start as int, ranges[k].end as int);
    if symmetric_range(p, ranges[k]) {
        let i = choose|i: int|
            0 <= i < QUOTE_PAIRS@.len() && #[trigger] is_symmetric(i) && {
                let mark = QUOTE_PAIRS@[i].0@;
                &&& 2 * size(mark) <= size(span)
                &&& occurs_at(span, mark, 0)
                &&& occurs_at(span, mark, size(span) - size(mark))
            };
        lemma_starts(span, QUOTE_PAIRS@[i].0@);
        assert(QUOTE_PAIRS@[i].0@ == QUOTE_PAIRS@[i].1@);
    }
    lemma_forbids(rules, p, ranges, b, m, 0, k);
    lemma_forbids_bounds(rules, p, ranges, b, m, 0);
    law_right_before_closer(ranges[k], p, b);
}

/// The same for two-sided marks that occur an even number of times and overlap no brackets
/// in part.
pub proof fn law_sentence_ends_behind_two_sided_closer(
    rules: Rules,
    p: Seq<char>,
    ranges: Seq<SkippableRange>,
    cuts: Seq<int>,
    m: (int, int),
    b: int,
    k: int,
    q: int,
)
    requires
        rules.boundary(p, m.0, m.1) == Some(b),
        is_cut(p, b),
        0 <= k < ranges.len(),
        ranges[k].range_type == SkippableRangeType::Quote,
        ranges[k].start < b < ranges[k].end,
        is_cut(p, ranges[k].end as int),
        is_among(QUOTE_CLOSERS_BY_LEN@, between(p, b, ranges[k].end as int)),
        forall|j: int|
            0 <= j < ranges.len() && j != k ==> !((#[trigger] ranges[j]).start < b < ranges[j].end),
        opens_with_mark(p, ranges[k], q),
        occurrences(p, QUOTE_PAIRS@[q].0@, 0).len() % 2 == 0,
        !overlaps_brackets(ranges[k], ranges),
    ensures
        ({
            let next = next_word(p, ranges[k].end as int);
            rules.after_match(p, ranges, cuts, m) == if rules.extend(next) >= 0 {
                pushed(cuts, ranges[k].end + size(next.take(rules.extend(next) as int)))
            } else {
                cuts
            }
        }),
{
    lemma_pair_at(p, ranges[k].start as int, 0, q);
    if crosses_parens(ranges[k], ranges) {
        let j = choose|j: int|
            0 <= j < ranges.len() && (#[trigger] ranges[j]).range_type
                == SkippableRangeType::Parentheses && crosses(ranges[k], ranges[j]);
        assert(overlaps_brackets(ranges[k], ranges));
    }
    lemma_forbids(rules, p, ranges, b, m, 0, k);
    lemma_forbids_bounds(rules, p, ranges, b, m, 0);
    law_right_before_closer(ranges[k], p, b);
}

/// True for what may trail behind a sentence: white space and terminators.
pub open spec fn trails(c: char) -> bool {
    white_space(c) || terminator(c)
}

/// A boundary is moved on past the white space and terminators that follow, at most 127
/// characters of them, unless the sentence goes on: behind white space with a lower case letter, a
/// digit or a comma, or, as `goes_on` tells, behind characters that belong to no word.
pub proof fn law_how_far_a_boundary_is_moved(
    ab: Set<Seq<char>>,
    st: Set<Seq<char>>,
    w: Seq<char>,
    y: Seq<char>,
    n: int,
    goes_on: bool,
)
    requires
        all_white(w),
        no_white_first(y),
        0 <= n <= (w + y).len(),
        forall|i: int| 0 <= i < n ==> trails(#[trigger] (w + y)[i]),
        n < (w + y).len() ==> !trails((w + y)[n]),
    ensures
        Rules::standard(ab, st).extend_with(w + y, goes_on) == if goes_on || y.len() > 0 && (
        goes_on_with(y[0]) || y[0] == ',') {
            -1int
        } else if n <= 127 {
            n
        } else {
            127
        },
{
    let x = w + y;
    law_strip_front(w, y);
    let t = trimmed(x);
    assert(t == strip_back::<White>(y));
    lemma_run_back::<White>(y, true);
    if y.len() > 0 {
        let k = run_back_len(y);
        if k == y.len() {
            assert(White::has(y[0]));
        }
        assert(t.len() > 0 && t[0] == y[0]);
        assert(Seq::<char>::empty() + t =~= t);
        law_what_goes_on(Seq::empty(), t);
    } else {
        assert(t =~= Seq::<char>::empty());
        assert(Seq::<char>::empty() + t =~= t);
        law_what_goes_on(Seq::empty(), t);
    }
    let a = x.take(n);
    let b = x.skip(n);
    assert(x =~= a + b);
    assert forall|i: int| 0 <= i < a.len() implies Trailing::has(#[trigger] a[i]) == true by {
        assert(trails(x[i]));
    }
    lemma_front::<Trailing>(a, b, true);
}

spec fn run_back_len(y: Seq<char>) -> int {
    run_back::<White>(y, true)
}

// Orphan closers.

/// A mark that only closes is an orphan wherever it was left unpaired.
pub proof fn law_one_sided_closer_is_an_orphan(
    p: Seq<char>,
    boundary: int,
    closer: Seq<char>,
    ranges: Seq<SkippableRange>,
)
    requires
        !is_two_sided(closer),
    ensures
        orphan_closer(p, boundary, closer, ranges),
{
    law_two_sided_marks(closer);
}

/// A mark stands free where it occurs outside the quotes that were found, and not between
/// two letters or digits.
pub proof fn law_free_marks(
    a: Seq<char>,
    token: Seq<char>,
    b: Seq<char>,
    ranges: Seq<SkippableRange>,
)
    ensures
        is_free(a + token + b, token, ranges, size(a)) <==> !(exists|k: int|
            0 <= k < ranges.len() && (#[trigger] ranges[k]).range_type
                == SkippableRangeType::Quote && ranges[k].start <= size(a) < ranges[k].end) && !(
        a.len() > 0 && unicode_alphanumeric(a.last()) && b.len() > 0 && unicode_alphanumeric(b[0])),
{
    lemma_meet_three(a, token, b);
    let i = size(a);
    if in_quote_range(ranges, i) {
        let k = choose|k: int|
            0 <= k < ranges.len() && (#[trigger] ranges[k]).quote() && ranges[k].start <= i
                < ranges[k].end;
        assert(ranges[k].range_type == SkippableRangeType::Quote);
    }
    if exists|k: int|
        0 <= k < ranges.len() && (#[trigger] ranges[k]).range_type == SkippableRangeType::Quote
            && ranges[k].start <= i < ranges[k].end {
        let k = choose|k: int|
            0 <= k < ranges.len() && (#[trigger] ranges[k]).range_type
                == SkippableRangeType::Quote && ranges[k].start <= i < ranges[k].end;
        assert(ranges[k].quote());
    }
}

/// The only free one of a two-sided mark is an orphan, wherever the boundary is before it;
/// and so is every such mark with an odd number of free ones before the boundary. With an
/// even number before it, and more than one in all, or with all of them before it, none is.
pub proof fn law_two_sided_orphans(
    p: Seq<char>,
    boundary: int,
    closer: Seq<char>,
    ranges: Seq<SkippableRange>,
    earlier: Seq<int>,
    later: Seq<int>,
)
    requires
        is_two_sided(closer),
        free_marks(p, closer, ranges) == earlier + later,
        forall|i: int| 0 <= i < earlier.len() ==> (#[trigger] earlier[i]) < boundary,
        forall|i: int| 0 <= i < later.len() ==> boundary <= (#[trigger] later[i]),
    ensures
        orphan_closer(p, boundary, closer, ranges) <==> earlier.len() % 2 == 1 || earlier.len() == 0
            && later.len() == 1,
{
    law_two_sided_marks(closer);
    let marks = free_marks(p, closer, ranges);
    assert forall|keep: spec_fn(int) -> bool|
        (forall|i: int| #[trigger] keep(i) == (i < boundary)) implies #[trigger] marks.filter(keep)
        == earlier by {
        lemma_filter_parts(earlier, later, keep, boundary);
    }
}

proof fn lemma_filter_parts(a: Seq<int>, b: Seq<int>, keep: spec_fn(int) -> bool, boundary: int)
    requires
        forall|i: int| #[trigger] keep(i) == (i < boundary),
        forall|i: int| 0 <= i < a.len() ==> (#[trigger] a[i]) < boundary,
        forall|i: int| 0 <= i < b.len() ==> boundary <= (#[trigger] b[i]),
    ensures
        (a + b).filter(keep) == a,
    decreases a.len() + b.len(),
{
    reveal(Seq::filter);
    let t = a + b;
    if b.len() > 0 {
        let c = b.drop_last();
        assert(t.drop_last() =~= a + c);
        assert(t.last() == b[b.len() - 1]);
        assert forall|i: int| 0 <= i < c.len() implies boundary <= (#[trigger] c[i]) by {
            assert(c[i] == b[i]);
        }
        lemma_filter_parts(a, c, keep, boundary);
    } else if a.len() > 0 {
        let c = a.drop_last();
        assert(t.drop_last() =~= c + b);
        assert(t.last() == a[a.len() - 1]);
        assert forall|i: int| 0 <= i < c.len() implies (#[trigger] c[i]) < boundary by {
            assert(c[i] == a[i]);
        }
        lemma_filter_parts(c, b, keep, boundary);
        assert(t.filter(keep) =~= a);
    } else {
        assert(t.filter(keep) =~= a);
    }
}

// Quotes whose marks stand apart.

/// Two marks enclose a quote when the first has white space, or nothing, before it and white
/// space behind it, unless the second rather opens the next quote: behind it stand white
/// space and a capital, and between the two marks one sentence ends and another starts.
pub proof fn law_marks_that_stand_apart(
    a: Seq<char>,
    token: Seq<char>,
    x: Seq<char>,
    w: Seq<char>,
    rest: Seq<char>,
)
    requires
        token.len() > 0,
        all_white(w),
        no_white_first(rest),
    ensures
        makes_pair(
            a + token + x + token + (w + rest),
            token,
            size(a),
            size(a) + size(token) + size(x),
        ) <==> (a.len() == 0 || white_space(a.last()))
            && white_space((x + token)[0]) && !(w.len() > 0 && rest.len() > 0 && ascii_upper(
            rest[0],
        ) && has_inline_break(x)),
{
    let b = w + rest;
    let t = a + token + x + token + b;
    let tail = x + token + b;
    assert(t =~= a + token + tail);
    lemma_meet_three(a, token, tail);
    assert(t =~= (a + token) + x + (token + b));
    lemma_meet(a, token);
    lemma_meet_three(a + token, x, token + b);
    assert(t =~= (a + token + x) + token + b);
    lemma_meet(a + token, x);
    lemma_meet_three(a + token + x, token, b);
    assert(tail[0] == (x + token)[0]);
    law_strip_front(w, rest);
    if w.len() > 0 {
        assert(b[0] == w[0]);
        assert(white_space(w[0]));
    } else {
        assert(b =~= rest);
    }
}

/// Pairs are made of neighbours, from left to right, and no mark belongs to two of them.
pub proof fn law_pairs_are_neighbours(text: Seq<char>, token: Seq<char>, marks: Seq<int>, k: int)
    requires
        0 <= k,
    ensures
        forall|i: int|
            0 <= i < paired(text, token, marks, k).len() ==> exists|j: int|
                k <= j && j + 1 < marks.len() && #[trigger] makes_pair(
                    text,
                    token,
                    marks[j],
                    marks[j + 1],
                ) && #[trigger] paired(text, token, marks, k)[i] == range(
                    marks[j],
                    marks[j + 1] + size(token),
                    SkippableRangeType::Quote,
                ),
        paired(text, token, marks, k).len() * 2 <= if k <= marks.len() {
            marks.len() - k
        } else {
            0
        },
        k + 1 < marks.len() && makes_pair(text, token, marks[k], marks[k + 1]) ==> paired(
            text,
            token,
            marks,
            k,
        ).len() > 0 && paired(text, token, marks, k)[0] == range(
            marks[k],
            marks[k + 1] + size(token),
            SkippableRangeType::Quote,
        ),
    decreases marks.len() - k,
{
    let r = paired(text, token, marks, k);
    if marks.len() <= k + 1 {
    } else if makes_pair(text, token, marks[k], marks[k + 1]) {
        law_pairs_are_neighbours(text, token, marks, k + 2);
        let rest = paired(text, token, marks, k + 2);
        assert forall|i: int| 0 <= i < r.len() implies exists|j: int|
            k <= j && j + 1 < marks.len() && #[trigger] makes_pair(
                text,
                token,
                marks[j],
                marks[j + 1],
            ) && #[trigger] r[i] == range(
                marks[j],
                marks[j + 1] + size(token),
                SkippableRangeType::Quote,
            ) by {
            if i > 0 {
                assert(r[i] == rest[i - 1]);
                let j = choose|j: int|
                    k + 2 <= j && j + 1 < marks.len() && #[trigger] makes_pair(
                        text,
                        token,
                        marks[j],
                        marks[j + 1],
                    ) && rest[i - 1] == range(
                        marks[j],
                        marks[j + 1] + size(token),
                        SkippableRangeType::Quote,
                    );
                assert(makes_pair(text, token, marks[j], marks[j + 1]));
            } else {
                assert(makes_pair(text, token, marks[k], marks[k + 1]));
            }
        }
    } else {
        law_pairs_are_neighbours(text, token, marks, k + 1);
        let rest = paired(text, token, marks, k + 1);
        assert forall|i: int| 0 <= i < r.len() implies exists|j: int|
            k <= j && j + 1 < marks.len() && #[trigger] makes_pair(
                text,
                token,
                marks[j],
                marks[j + 1],
            ) && #[trigger] r[i] == range(
                marks[j],
                marks[j + 1] + size(token),
                SkippableRangeType::Quote,
            ) by {
            assert(r[i] == rest[i]);
            let j = choose|j: int|
                k + 1 <= j && j + 1 < marks.len() && #[trigger] makes_pair(
                    text,
                    token,
                    marks[j],
                    marks[j + 1],
                ) && rest[i] == range(
                    marks[j],
                    marks[j + 1] + size(token),
                    SkippableRangeType::Quote,
                );
            assert(makes_pair(text, token, marks[j], marks[j + 1]));
        }
    }
}

/// The ranges of a text are the quotes, brackets and addresses that the expressions match,
/// and the quotes whose marks stand apart.
pub proof fn law_what_the_ranges_are(
    text: Seq<char>,
    quotes: Seq<(int, int)>,
    parens: Seq<(int, int)>,
    emails: Seq<(int, int)>,
    r: SkippableRange,
)
    ensures
        ranges_from(text, quotes, parens, emails).contains(r) <==> with_padded_quotes(
            text,
            ranges_of(quotes, SkippableRangeType::Quote),
            QUOTE_PAIRS@.len() as int,
        ).contains(r) || (exists|i: int|
            0 <= i < parens.len() && r == range(
                (#[trigger] parens[i]).0,
                parens[i].1,
                SkippableRangeType::Parentheses,
            )) || (exists|i: int|
            0 <= i < emails.len() && r == range(
                (#[trigger] emails[i]).0,
                emails[i].1,
                SkippableRangeType::Email,
            )),
        forall|i: int|
            0 <= i < quotes.len() ==> ranges_from(text, quotes, parens, emails).contains(
                range((#[trigger] quotes[i]).0, quotes[i].1, SkippableRangeType::Quote),
            ),
{
    let a = with_padded_quotes(
        text,
        ranges_of(quotes, SkippableRangeType::Quote),
        QUOTE_PAIRS@.len() as int,
    );
    let b = ranges_of(parens, SkippableRangeType::Parentheses);
    let c = ranges_of(emails, SkippableRangeType::Email);
    let all = a + b + c;
    lemma_sorted(all);
    assert(ranges_from(text, quotes, parens, emails) == sorted(all));
    lemma_padded_keeps(text, ranges_of(quotes, SkippableRangeType::Quote), QUOTE_PAIRS@.len() as int);
    if a.contains(r) {
        assert(all[a.index_of(r)] == r);
    }
    if exists|i: int|
        0 <= i < parens.len() && r == range(
            (#[trigger] parens[i]).0,
            parens[i].1,
            SkippableRangeType::Parentheses,
        ) {
        let i = choose|i: int|
            0 <= i < parens.len() && r == range(
                (#[trigger] parens[i]).0,
                parens[i].1,
                SkippableRangeType::Parentheses,
            );
        assert(b[i] == r);
        assert(all[a.len() + i] == r);
    }
    if exists|i: int|
        0 <= i < emails.len() && r == range(
            (#[trigger] emails[i]).0,
            emails[i].1,
            SkippableRangeType::Email,
        ) {
        let i = choose|i: int|
            0 <= i < emails.len() && r == range(
                (#[trigger] emails[i]).0,
                emails[i].1,
                SkippableRangeType::Email,
            );
        assert(c[i] == r);
        assert(all[a.len() + b.len() + i] == r);
    }
    if all.contains(r) {
        let i = all.index_of(r);
        if i < a.len() {
            assert(a[i] == r);
        } else if i < a.len() + b.len() {
            let j = i - a.len();
            assert(b[j] == r);
            assert(r == range(parens[j].0, parens[j].1, SkippableRangeType::Parentheses));
        } else {
            let j = i - a.len() - b.len();
            assert(c[j] == r);
            assert(r == range(emails[j].0, emails[j].1, SkippableRangeType::Email));
        }
    }
    let found = ranges_of(quotes, SkippableRangeType::Quote);
    assert forall|i: int| 0 <= i < quotes.len() implies sorted(all).contains(
        range((#[trigger] quotes[i]).0, quotes[i].1, SkippableRangeType::Quote),
    ) by {
        assert(a[i] == found[i]);
        assert(all[i] == found[i]);
        assert(all.contains(all[i]));
    }
}

/// Quotes whose marks stand apart are added behind what was found.
proof fn lemma_padded_keeps(text: Seq<char>, ranges: Seq<SkippableRange>, n: int)
    ensures
        with_padded_quotes(text, ranges, n).len() >= ranges.len(),
        forall|i: int|
            0 <= i < ranges.len() ==> #[trigger] with_padded_quotes(text, ranges, n)[i] == ranges[i],
    decreases n,
{
    if n > 0 {
        lemma_padded_keeps(text, ranges, n - 1);
        let earlier = with_padded_quotes(text, ranges, n - 1);
        let r = with_padded_quotes(text, ranges, n);
        assert forall|i: int| 0 <= i < ranges.len() implies #[trigger] r[i] == ranges[i] by {
            assert(r[i] == earlier[i]);
        }
    }
}

/// Of the marks, `'` and the backtick are paired where they stand apart, and no other, each
/// with the free ones of its kind.
pub proof fn law_which_marks_are_paired_apart(text: Seq<char>, ranges: Seq<SkippableRange>)
    ensures
        ({
            let first = ranges + paired(text, seq!['\''], free_marks(text, seq!['\''], ranges), 0);
            with_padded_quotes(text, ranges, QUOTE_PAIRS@.len() as int) == first + paired(
                text,
                seq!['`'],
                free_marks(text, seq!['`'], first),
                0,
            )
        }),
{
    reveal_strlit("'");
    reveal_strlit("`");
    assert("'"@ =~= seq!['\'']);
    assert("`"@ =~= seq!['`']);
    reveal_with_fuel(with_padded_quotes, 16);
    assert(QUOTE_PAIRS@[3].1@ == "'"@ && QUOTE_PAIRS@[3].0@ == "'"@);
    assert(QUOTE_PAIRS@[4].1@ == "`"@ && QUOTE_PAIRS@[4].0@ == "`"@);
    assert(is_symmetric(3) && is_symmetric(4));
    assert forall|i: int| 0 <= i < QUOTE_PAIRS@.len() && i != 3 && i != 4 implies !(
    #[trigger] QUOTE_PAIRS@[i]).2 by {}
}

/// What the expressions for quotes, brackets and addresses match in a paragraph is skipped:
/// each match is a range of its kind.
pub proof fn law_what_is_skipped(p: Seq<char>, i: int)
    ensures
        0 <= i < regex_find_iter(QUOTES_PATTERN@, p).len() ==> skippable_ranges(p).contains(
            range(
                regex_find_iter(QUOTES_PATTERN@, p)[i].0,
                regex_find_iter(QUOTES_PATTERN@, p)[i].1,
                SkippableRangeType::Quote,
            ),
        ),
        0 <= i < regex_find_iter(PARENS_PATTERN@, p).len() ==> skippable_ranges(p).contains(
            range(
                regex_find_iter(PARENS_PATTERN@, p)[i].0,
                regex_find_iter(PARENS_PATTERN@, p)[i].1,
                SkippableRangeType::Parentheses,
            ),
        ),
        0 <= i < regex_find_iter(EMAIL_PATTERN@, p).len() ==> skippable_ranges(p).contains(
            range(
                regex_find_iter(EMAIL_PATTERN@, p)[i].0,
                regex_find_iter(EMAIL_PATTERN@, p)[i].1,
                SkippableRangeType::Email,
            ),
        ),
{
    let quotes = regex_find_iter(QUOTES_PATTERN@, p);
    let parens = regex_find_iter(PARENS_PATTERN@, p);
    let emails = regex_find_iter(EMAIL_PATTERN@, p);
    if 0 <= i < quotes.len() {
        let r = range(quotes[i].0, quotes[i].1, SkippableRangeType::Quote);
        law_what_the_ranges_are(p, quotes, parens, emails, r);
    }
    if 0 <= i < parens.len() {
        let r = range(parens[i].0, parens[i].1, SkippableRangeType::Parentheses);
        law_what_the_ranges_are(p, quotes, parens, emails, r);
    }
    if 0 <= i < emails.len() {
        let r = range(emails[i].0, emails[i].1, SkippableRangeType::Email);
        law_what_the_ranges_are(p, quotes, parens, emails, r);
    }
}

// Within and behind quotes.

/// True when in `s`, with `a` before and `b` behind, one sentence ends and the next starts:
/// `.` or `!`, then spaces or tabs, then a capital.
pub open spec fn breaks_inside(
    s: Seq<char>,
    a: Seq<char>,
    e: char,
    v: Seq<char>,
    c: char,
    b: Seq<char>,
) -> bool {
    &&& s == a + seq![e] + v + seq![c] + b
    &&& e == '.' || e == '!'
    &&& v.len() > 0 && forall|i: int|
        0 <= i < v.len() ==> (#[trigger] v[i]) == ' ' || v[i] == '\t'
    &&& 'A' <= c <= 'Z'
}

/// A sentence ends and another starts within a text where `.` or `!`, spaces or tabs, and a
/// capital follow one another; a question does not count.
pub proof fn law_breaks_inside(s: Seq<char>)
    ensures
        has_inline_break(s) <==> exists|a: Seq<char>, e: char, v: Seq<char>, c: char, b: Seq<char>|
            #[trigger] breaks_inside(s, a, e, v, c, b),
{
    if has_inline_break(s) {
        let (i, j) = choose|i: int, j: int|
            #![trigger s[i], s[j]]
            0 <= i && i + 1 < j < s.len() && (s[i] == '.' || s[i] == '!') && ascii_upper(s[j])
                && forall|k: int| i < k < j ==> (#[trigger] s[k] == ' ' || s[k] == '\t');
        let a = s.take(i);
        let v = s.subrange(i + 1, j);
        let b = s.skip(j + 1);
        assert(s =~= a + seq![s[i]] + v + seq![s[j]] + b);
        assert forall|k: int| 0 <= k < v.len() implies (#[trigger] v[k]) == ' ' || v[k]
            == '\t' by {
            assert(v[k] == s[i + 1 + k]);
        }
        assert(breaks_inside(s, a, s[i], v, s[j], b));
    }
    if exists|a: Seq<char>, e: char, v: Seq<char>, c: char, b: Seq<char>| #[trigger]
        breaks_inside(s, a, e, v, c, b) {
        let (a, e, v, c, b) = choose|a: Seq<char>, e: char, v: Seq<char>, c: char, b: Seq<char>|
            #[trigger] breaks_inside(s, a, e, v, c, b);
        let i = a.len() as int;
        let j = a.len() as int + 1 + v.len();
        assert(s[i] == e);
        assert(s[j] == c);
        assert forall|k: int| i < k < j implies (#[trigger] s[k] == ' ' || s[k] == '\t') by {
            assert(s[k] == v[k - i - 1]);
        }
    }
}

/// True for the characters of ASCII that belong to no word.
pub open spec fn no_word(c: char) -> bool {
    c <= '\u{7F}' && !('a' <= c <= 'z') && !('A' <= c <= 'Z') && !('0' <= c <= '9') && c != '_'
}

/// Behind a quote the sentence goes on when a lower case letter or a digit follows, behind
/// whatever belongs to no word; a capital that follows is not taken for such.
pub proof fn law_sentence_goes_on_behind_quote(
    ab: Set<Seq<char>>,
    st: Set<Seq<char>>,
    x: Seq<char>,
    c: char,
    rest: Seq<char>,
)
    requires
        forall|i: int| 0 <= i < x.len() ==> no_word(#[trigger] x[i]),
        c <= '\u{7F}' && !no_word(c),
        is_match_facts(
            CONTINUE_AFTER_NONWORD_PATTERN@,
            x + seq![c] + rest,
            regex_is_match(CONTINUE_AFTER_NONWORD_PATTERN@, x + seq![c] + rest),
        ),
    ensures
        goes_on_with(c) ==> Rules::standard(ab, st).extend(x + seq![c] + rest) == -1,
        !goes_on_with(c) ==> Rules::standard(ab, st).extend(x + seq![c] + rest) == Rules::standard(
            ab,
            st,
        ).extend_with(x + seq![c] + rest, false),
{
    let t = x + seq![c] + rest;
    assert forall|i: int| 0 <= i < x.len() implies AsciiNonWord::has(#[trigger] x[i]) == true by {
        assert(no_word(x[i]));
    }
    let u = seq![c] + rest;
    assert(t =~= x + u);
    assert(u[0] == c);
    lemma_front::<AsciiNonWord>(x, u, true);
    assert(t[x.len() as int] == c);
}

} // verus!
