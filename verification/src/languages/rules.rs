//! What makes a terminator the end of a sentence.
//!
//! Everything that differs between languages is in [`Rules`]; the functions on it say
//! where the sentences of a paragraph end.

use vstd::prelude::*;
use vstd::utf8::*;

use crate::case::{unicode_lower_case, unicode_upper_case};
use crate::chars::{
    ascii_digit, ascii_upper, back_word, front_word, lemma_run_back, run_back, run_front,
    strip_back, strip_front, unicode_alphabetic, unicode_uppercase, white_space, CharClass,
    NameSeparator, TokenSeparator, White,
};
use crate::constants::{
    exclamation_word, CONTINUE_AFTER_NONWORD_PATTERN, EMAIL_PATTERN, NUMBERED_REFERENCE_PATTERN,
    PARENS_PATTERN, QUOTES_PATTERN, QUOTE_CLOSERS_BY_LEN, OpenerEnd, Trailing,
};
use crate::languages::cuts::{covers, pushed, with_cut, with_starts};
use crate::languages::list_markers::list_starts;
use crate::languages::phrases::{
    continues_behind_quote, ends_with_time, initial_first, single_ascii_upper, time_fronted,
};
use crate::languages::ranges::{
    crosses_parens, lemma_marks, lemma_no_closer, new_utterance, no_marks, odd_marks, orphan_closer,
    range, ranges_from, symmetric_mark, symmetric_range, SkippableRange, SkippableRangeType,
};
use crate::languages::terminators::folded;
use crate::order::{in_order, lemma_sorted, sorted, Keyed};
use crate::pattern::{
    continues_after_ellipsis, has_no_terminator, lower_or_digit, regex_find, regex_find_iter,
    regex_is_match, sentence_break_pattern,
};
use crate::text::{ceil_cut, floor_cut, lemma_ceil_cut, lemma_floor_cut, occurs_at};
use crate::utf8::{
    after, before, between, is_cut, lemma_between, lemma_cut_ends, lemma_encode_concat, lemma_join,
    lemma_size, lemma_step, size,
};
use crate::words::trimmed;

verus! {

/// How a language ends its sentences.
pub struct Rules {
    /// The abbreviations, without the mark at their end.
    pub abbreviations: Set<Seq<char>>,
    /// Words that, with a capital, nearly always open a sentence.
    pub starters: Set<Seq<char>>,
    /// The mark at the end of an abbreviation.
    pub abbreviation_char: Seq<char>,
    /// The expression for runs of terminators.
    pub break_pattern: Seq<char>,
    /// Whether the text behind a terminator goes on with the same sentence.
    pub continues: spec_fn(Seq<char>) -> bool,
    /// Where the items of the lists in a paragraph start.
    pub list_offsets: spec_fn(Seq<char>) -> Option<Seq<usize>>,
}

/// How many bytes behind a terminator are looked at.
pub const LOOKAHEAD: usize = 30;

/// How many characters the boundary behind a quote may be moved on.
pub const MAX_EXTEND: usize = 127;

/// True when `t` starts with a lower case letter or a digit, or, behind white space,
/// with a comma.
pub open spec fn continues_by_default(t: Seq<char>) -> bool {
    let rest = strip_front::<White>(t);
    ||| t.len() > 0 && lower_or_digit(t[0])
    ||| rest.len() > 0 && rest[0] == ','
}

/// The last word of `t`, taken apart at white space, `.` and `/`.
pub open spec fn last_word(t: Seq<char>) -> Seq<char> {
    back_word::<NameSeparator>(strip_back::<White>(t))
}

/// True when both texts end with the same character.
pub open spec fn ends_in(t: Seq<char>, w: Seq<char>) -> bool {
    t.len() > 0 && w.len() > 0 && t.last() == w.last()
}

/// The last word of `t`, taken apart at white space and `/`.
pub open spec fn last_token(t: Seq<char>) -> Seq<char> {
    back_word::<TokenSeparator>(strip_back::<White>(t))
}

pub open spec fn least(a: int, b: int) -> int {
    if a <= b {
        a
    } else {
        b
    }
}

/// The next words of `t` from `start` on, some thirty bytes of them.
pub open spec fn next_word(t: Seq<char>, start: int) -> Seq<char> {
    if size(t) <= start {
        Seq::empty()
    } else {
        between(t, floor_cut(t, start), ceil_cut(t, least(start + LOOKAHEAD, size(t))))
    }
}

/// Where the text behind the run of terminators from `start` to `end` starts.
pub open spec fn behind_run(t: Seq<char>, start: int, end: int) -> int {
    if between(t, start, end).len() >= 2 {
        end
    } else {
        ceil_cut(t, start + 1)
    }
}

/// True when a digit and `.` are followed at once by a letter and more that has a
/// digit in it, as in the move `7.Bg5`.
pub open spec fn code_follows(head: Seq<char>, next: Seq<char>) -> bool {
    &&& head.len() > 0 && ascii_digit(head.last())
    &&& next.len() > 0 && unicode_alphabetic(next[0])
    &&& exists|i: int| 0 <= i < next.len() && ascii_digit(#[trigger] next[i])
}

/// True when a time of day ends a sentence although it is written as an abbreviation:
/// a digit follows, or a capital, and no capital introduces it.
pub open spec fn time_ends_sentence(head: Seq<char>, next: Seq<char>) -> bool {
    let time = strip_back::<White>(head);
    let rest = strip_front::<White>(next);
    &&& ends_with_time(time)
    &&& rest.len() > 0
    &&& ascii_digit(rest[0]) || (unicode_uppercase(rest[0]) && !time_fronted(time))
}

/// The position behind the white space that starts at `at`.
pub open spec fn past_space(t: Seq<char>, at: int) -> int {
    let rest = after(t, at);
    at + size(rest.take(run_front::<White>(rest, true)))
}

/// The first orphan closer at `boundary`, from number `k` on.
pub open spec fn orphan_at(
    p: Seq<char>,
    boundary: int,
    ranges: Seq<SkippableRange>,
    k: int,
) -> Option<int>
    decreases QUOTE_CLOSERS_BY_LEN@.len() - k,
{
    if k < 0 || QUOTE_CLOSERS_BY_LEN@.len() <= k {
        None
    } else if occurs_at(p, QUOTE_CLOSERS_BY_LEN@[k]@, boundary) && orphan_closer(
        p,
        boundary,
        QUOTE_CLOSERS_BY_LEN@[k]@,
        ranges,
    ) {
        Some(k)
    } else {
        orphan_at(p, boundary, ranges, k + 1)
    }
}

/// True when a mark that both opens and closes is an orphan at `boundary`, and no range
/// starts there.
pub open spec fn symmetric_orphan_at(
    p: Seq<char>,
    boundary: int,
    ranges: Seq<SkippableRange>,
) -> bool {
    &&& !range_starts(ranges, boundary)
    &&& orphan_at(p, boundary, ranges, 0) matches Some(k) && symmetric_mark(
        QUOTE_CLOSERS_BY_LEN@[k]@,
    )
}

/// True when a quote in the marks `closer` ends at or before `boundary`.
pub open spec fn quoted_earlier(
    p: Seq<char>,
    boundary: int,
    closer: Seq<char>,
    ranges: Seq<SkippableRange>,
) -> bool {
    exists|k: int|
        0 <= k < ranges.len() && (#[trigger] ranges[k]).end <= boundary && symmetric_range(
            p,
            ranges[k],
        ) && occurs_at(p, closer, ranges[k].start as int)
}

/// True when the mark `closer` at `boundary` rather opens the next sentence: the mark
/// has been used for a quote before, and a capital follows.
pub open spec fn opens_next(
    p: Seq<char>,
    boundary: int,
    closer: Seq<char>,
    ranges: Seq<SkippableRange>,
) -> bool {
    &&& symmetric_mark(closer)
    &&& quoted_earlier(p, boundary, closer, ranges)
    &&& new_utterance(after(p, boundary + size(closer)))
}

/// True when a range starts at `at`.
pub open spec fn range_starts(ranges: Seq<SkippableRange>, at: int) -> bool {
    exists|k: int| 0 <= k < ranges.len() && (#[trigger] ranges[k]).start == at
}

/// The items that start at `starts`, each of which ends where the next starts, and
/// the last at `end`.
pub open spec fn list_ranges(starts: Seq<usize>, end: int) -> Seq<SkippableRange> {
    Seq::new(
        starts.len(),
        |i: int|
            range(
                starts[i] as int,
                if i + 1 < starts.len() {
                    starts[i + 1] as int
                } else {
                    end
                },
                SkippableRangeType::ListItem,
            ),
    )
}

/// `ranges` and the items that start at `starts`, by where they start.
pub open spec fn with_list(ranges: Seq<SkippableRange>, starts: Seq<usize>, end: int) -> Seq<
    SkippableRange,
> {
    if starts.len() == 0 {
        ranges
    } else {
        sorted(ranges + list_ranges(starts, end))
    }
}

/// The ranges of `p`.
pub open spec fn skippable_ranges(p: Seq<char>) -> Seq<SkippableRange> {
    ranges_from(
        p,
        regex_find_iter(QUOTES_PATTERN@, p),
        regex_find_iter(PARENS_PATTERN@, p),
        regex_find_iter(EMAIL_PATTERN@, p),
    )
}

impl Rules {
    /// The rules of a language that has word lists of its own, and nothing else.
    pub open spec fn standard(abbreviations: Set<Seq<char>>, starters: Set<Seq<char>>) -> Rules {
        Rules {
            abbreviations,
            starters,
            abbreviation_char: "."@,
            break_pattern: sentence_break_pattern(),
            continues: |t: Seq<char>| continues_by_default(t),
            list_offsets: |p: Seq<char>| Some(list_starts(p)),
        }
    }

    /// Where the items of the lists in `p` start; none for a language without lists.
    pub open spec fn starts(self, p: Seq<char>) -> Seq<usize> {
        match (self.list_offsets)(p) {
            Some(s) => s,
            None => Seq::empty(),
        }
    }

    /// True when the items of the lists in `p` start at cuts of it.
    pub open spec fn lists_lie_in(self, p: Seq<char>) -> bool {
        forall|i: int| 0 <= i < self.starts(p).len() ==> is_cut(p, #[trigger] self.starts(p)[i] as int)
    }

    /// True for an abbreviation, as it stands, in lower case or in upper case.
    pub open spec fn knows(self, w: Seq<char>) -> bool {
        ||| self.abbreviations.contains(w)
        ||| self.abbreviations.contains(unicode_lower_case(w))
        ||| self.abbreviations.contains(unicode_upper_case(w))
    }

    /// True when `w` before `separator` is an abbreviation.
    pub open spec fn abbreviation(self, w: Seq<char>, separator: Seq<char>) -> bool {
        self.abbreviation_char == separator && w.len() > 0 && self.knows(w)
    }

    /// True when the last token of `head` is an abbreviation, and longer than `tail`
    /// bytes.
    pub open spec fn multi_dot(self, head: Seq<char>, tail: int) -> bool {
        tail < size(last_token(head)) && self.knows(last_token(head))
    }

    /// True when the word before the initial `w`, which `head` ends with, starts with a
    /// capital of ASCII. White space behind the initial does not count.
    pub open spec fn name_before_initial(self, head: Seq<char>, w: Seq<char>) -> bool {
        let trimmed = strip_back::<White>(head);
        let whole = if ends_in(trimmed, w) {
            trimmed
        } else {
            head
        };
        let name = last_word(strip_back::<NameSeparator>(whole.drop_last()));
        name.len() > 0 && ascii_upper(name[0])
    }

    /// True when `w`, which `head` ends with, is the initial of a name.
    pub open spec fn name_initial(self, head: Seq<char>, w: Seq<char>, next: Seq<char>) -> bool {
        single_ascii_upper(w) && (self.name_before_initial(head, w) || initial_first(next))
    }

    /// True when the first word of `next` is one that opens sentences.
    pub open spec fn starter_follows(self, next: Seq<char>) -> bool {
        let w = front_word::<OpenerEnd>(strip_front::<White>(next));
        w.len() > 0 && self.starters.contains(w)
    }

    /// True when a sentence ends although an abbreviation or an initial does not end
    /// one: a word that opens sentences follows, and the abbreviation starts with a
    /// capital, has dots in it, or is listed just as it stands and no single letter.
    pub open spec fn overrides(self, head: Seq<char>, w: Seq<char>, next: Seq<char>) -> bool {
        &&& self.starter_follows(next)
        &&& {
            ||| w.len() > 0 && ascii_upper(w[0])
            ||| self.multi_dot(head, size(w))
            ||| w.len() > 1 && self.abbreviations.contains(w)
        }
    }

    /// True when the terminator from `start` to `end` is a `.` behind a plain word,
    /// and a word that opens sentences follows, or, behind a quotation mark, any word
    /// with a capital.
    pub open spec fn strong_break(self, p: Seq<char>, start: int, end: int) -> bool {
        let head = before(p, start);
        let w = last_word(head);
        let next = next_word(p, ceil_cut(p, start + 1));
        let rest = strip_front::<White>(next);
        &&& between(p, start, end) == "."@
        &&& w.len() > 0 && !single_ascii_upper(w)
        &&& !self.abbreviation(w, "."@) && !self.multi_dot(head, size(w))
        &&& (symmetric_mark(w) && rest.len() > 0 && ascii_upper(rest[0])) || self.starter_follows(
            next,
        )
    }

    /// True when the sentence goes on behind a terminator, or, for `long`, behind a run
    /// of more than one.
    pub open spec fn goes_on(self, head: Seq<char>, long: bool, next: Seq<char>) -> bool {
        if long {
            ||| continues_after_ellipsis(next)
            ||| head.len() > 0 && !white_space(head.last()) && next.len() > 0 && lower_or_digit(
                next[0],
            )
        } else {
            (self.continues)(next)
        }
    }

    /// True when the terminator ends an abbreviation or an initial, and no sentence.
    pub open spec fn suppressed(self, head: Seq<char>, run: Seq<char>, next: Seq<char>) -> bool {
        let w = last_word(head);
        if run == "."@ {
            (self.name_initial(head, w, next) || self.abbreviation(w, run)) && !self.overrides(
                head,
                w,
                next,
            )
        } else {
            self.abbreviation(w, run)
        }
    }

    /// True when the run of terminators between `head` and `next` ends no sentence.
    pub open spec fn ends_nothing(self, head: Seq<char>, run: Seq<char>, next: Seq<char>) -> bool {
        ||| self.goes_on(head, run.len() >= 2, next)
        ||| (run == "!"@ || run == "?"@) && continues_behind_quote(next)
        ||| run == "."@ && code_follows(head, next)
        ||| !(run == "."@ && time_ends_sentence(head, next)) && self.suppressed(head, run, next)
        ||| exclamation_word(last_word(head) + "!"@)
    }

    /// Where the sentence that the run of terminators from `start` to `end` closes
    /// ends, if it closes one. `reference` is the end of the reference numbers that
    /// follow at once.
    pub open spec fn boundary_with(
        self,
        t: Seq<char>,
        start: int,
        end: int,
        reference: Option<int>,
    ) -> Option<int> {
        let at = behind_run(t, start, end);
        let next = next_word(t, at);
        let spaces = run_front::<White>(next, true);
        match reference {
            Some(n) => Some(at + n),
            None => if self.ends_nothing(before(t, start), between(t, start, end), next) {
                None
            } else if spaces > 0 {
                Some(at + size(next.take(spaces)))
            } else {
                Some(end)
            },
        }
    }

    /// Where the sentence that the run of terminators from `start` to `end` closes
    /// ends, if it closes one.
    pub open spec fn boundary(self, t: Seq<char>, start: int, end: int) -> Option<int> {
        let next = next_word(t, behind_run(t, start, end));
        self.boundary_with(
            t,
            start,
            end,
            match regex_find(NUMBERED_REFERENCE_PATTERN@, next) {
                Some(m) => Some(m.1),
                None => None,
            },
        )
    }

    /// How many characters a boundary before `word` is moved on, or -1 for no boundary.
    /// `goes_on` tells that a lower case letter or a digit follows, behind characters that belong
    /// to no word.
    pub open spec fn extend_with(self, word: Seq<char>, goes_on: bool) -> i8 {
        if (self.continues)(trimmed(word)) || goes_on {
            (-1) as i8
        } else {
            least(run_front::<Trailing>(word, true), MAX_EXTEND as int) as i8
        }
    }

    /// How many characters a boundary before `word` is moved on, or -1 for no boundary.
    pub open spec fn extend(self, word: Seq<char>) -> i8 {
        self.extend_with(word, regex_is_match(CONTINUE_AFTER_NONWORD_PATTERN@, word))
    }

    /// The position behind the terminators that were found in the text from `at` on, if
    /// they stand right there, and behind the white space that follows them.
    pub open spec fn terminator_step(p: Seq<char>, at: int, found: Option<(int, int)>) -> Option<int> {
        match found {
            Some(m) => if m.0 == 0 && at < past_space(p, at + m.1) <= size(p) {
                Some(past_space(p, at + m.1))
            } else {
                None
            },
            None => None,
        }
    }

    /// The position behind all terminators, and the white space behind each, from `at`
    /// on.
    pub open spec fn past_terminators(self, p: Seq<char>, at: int) -> int
        decreases size(p) - at,
    {
        match Self::terminator_step(p, at, regex_find(self.break_pattern, after(p, at))) {
            Some(next) => self.past_terminators(p, next),
            None => at,
        }
    }

    /// `boundary`, moved on past an orphan closer that stands there.
    pub open spec fn past_orphan(
        self,
        p: Seq<char>,
        boundary: int,
        ranges: Seq<SkippableRange>,
    ) -> int {
        if range_starts(ranges, boundary) {
            boundary
        } else {
            match orphan_at(p, boundary, ranges, 0) {
                Some(k) => {
                    let closer = QUOTE_CLOSERS_BY_LEN@[k]@;
                    if opens_next(p, boundary, closer, ranges) {
                        boundary
                    } else {
                        self.past_terminators(p, past_space(p, boundary + size(closer)))
                    }
                },
                None => boundary,
            }
        }
    }

    /// True when the marks of a quote seem to have been paired across the end of the
    /// sentence that the terminator `m` closes.
    pub open spec fn mispaired(
        self,
        p: Seq<char>,
        ranges: Seq<SkippableRange>,
        quote: SkippableRange,
        m: (int, int),
    ) -> bool {
        &&& symmetric_range(p, quote)
        &&& {
            ||| crosses_parens(quote, ranges)
            ||| odd_marks(p, quote.start as int) && self.strong_break(p, m.0, m.1)
        }
    }

    /// The first range from number `k` on that forbids the boundary.
    pub open spec fn forbids(
        self,
        p: Seq<char>,
        ranges: Seq<SkippableRange>,
        boundary: int,
        m: (int, int),
        k: int,
    ) -> Option<int>
        decreases ranges.len() - k,
    {
        if k < 0 || ranges.len() <= k {
            None
        } else if ranges[k].around(boundary) && !self.mispaired(p, ranges, ranges[k], m) {
            Some(k)
        } else {
            self.forbids(p, ranges, boundary, m, k + 1)
        }
    }

    /// `cuts` and the boundary that the terminator `m` makes, if any.
    pub open spec fn after_match(
        self,
        p: Seq<char>,
        ranges: Seq<SkippableRange>,
        cuts: Seq<int>,
        m: (int, int),
    ) -> Seq<int> {
        match self.boundary(p, m.0, m.1) {
            None => cuts,
            Some(b) => match self.forbids(p, ranges, b, m, 0) {
                None => pushed(cuts, self.past_orphan(p, b, ranges)),
                Some(k) => {
                    let end = ranges[k].end as int;
                    let more = self.extend(next_word(p, end));
                    if ranges[k].closes_behind(p, b) && more >= 0 {
                        pushed(cuts, end + size(next_word(p, end).take(more as int)))
                    } else {
                        cuts
                    }
                },
            },
        }
    }

    /// The boundaries that the terminators `ms` make, from the start of `p` on.
    pub open spec fn found(
        self,
        p: Seq<char>,
        ranges: Seq<SkippableRange>,
        ms: Seq<(int, int)>,
    ) -> Seq<int>
        decreases ms.len(),
    {
        if ms.len() == 0 {
            seq![0]
        } else {
            self.after_match(p, ranges, self.found(p, ranges, ms.drop_last()), ms.last())
        }
    }

    /// Where the sentences of `p` start and end, when its terminators are `ms`, its
    /// ranges `ranges`, and list items start at `starts`.
    pub open spec fn cuts_with(
        self,
        p: Seq<char>,
        ms: Seq<(int, int)>,
        ranges: Seq<SkippableRange>,
        starts: Seq<usize>,
    ) -> Seq<int> {
        let cuts = with_starts(self.found(p, with_list(ranges, starts, size(p)), ms), starts);
        pushed(cuts, size(p))
    }

    /// Where the sentences of `p` start and end.
    pub open spec fn cuts(self, p: Seq<char>) -> Seq<int> {
        self.cuts_with(
            p,
            folded(p, regex_find_iter(self.break_pattern, p)),
            skippable_ranges(p),
            self.starts(p),
        )
    }
}

// What holds of all languages.

/// True when an item starts at `at`.
pub open spec fn is_start(starts: Seq<usize>, at: int) -> bool {
    exists|k: int| 0 <= k < starts.len() && #[trigger] starts[k] == at
}

/// True when `starts` are the starts of list items in `p`, from left to right.
pub open spec fn is_list(p: Seq<char>, starts: Seq<usize>) -> bool {
    &&& starts.len() > 0
    &&& forall|i: int, j: int| 0 <= i < j < starts.len() ==> #[trigger] starts[i] < #[trigger] starts[j]
    &&& forall|i: int| 0 <= i < starts.len() ==> #[trigger] starts[i] < size(p)
}

/// Where item number `i` ends: where the next starts, and the last at `end`.
pub open spec fn item_end(starts: Seq<usize>, end: int, i: int) -> int {
    if i + 1 < starts.len() {
        starts[i + 1] as int
    } else {
        end
    }
}

/// True when `at` lies inside an item, and not where one starts.
pub open spec fn inside_item(starts: Seq<usize>, end: int, at: int) -> bool {
    starts[0] <= at < end && !is_start(starts, at)
}

/// True when the range lies in one item, behind its start.
pub open spec fn within_item(starts: Seq<usize>, end: int, range: SkippableRange) -> bool {
    exists|i: int|
        0 <= i < starts.len() && #[trigger] starts[i] < range.start && range.end <= item_end(
            starts,
            end,
            i,
        )
}

/// True when from the first item on there is no cut before `end` but where an item starts.
pub open spec fn items_are_whole(cuts: Seq<int>, starts: Seq<usize>, end: int) -> bool {
    forall|i: int| 0 <= i < cuts.len() ==> !inside_item(starts, end, #[trigger] cuts[i])
}

impl Rules {
    /// The position behind the quote `range` and what trails it.
    pub open spec fn landing(self, p: Seq<char>, range: SkippableRange) -> int {
        let next = next_word(p, range.end as int);
        range.end + size(next.take(self.extend(next) as int))
    }

    /// True when no terminator of `ms` leads into an item from outside it: neither one that
    /// stands right before the closer of a quote which does not lie in one item, nor one
    /// before the first item that an orphan closer follows. `ranges` are the ranges of `p`,
    /// its items among them.
    pub open spec fn keeps_out_with(
        self,
        p: Seq<char>,
        ms: Seq<(int, int)>,
        ranges: Seq<SkippableRange>,
        starts: Seq<usize>,
    ) -> bool {
        forall|i: int|
            0 <= i < ms.len() ==> match self.boundary(p, (#[trigger] ms[i]).0, ms[i].1) {
                Some(b) => match self.forbids(p, ranges, b, ms[i], 0) {
                    Some(k) => ranges[k].closes_behind(p, b) && self.extend(
                        next_word(p, ranges[k].end as int),
                    ) >= 0 && !within_item(starts, size(p), ranges[k]) ==> !inside_item(
                        starts,
                        size(p),
                        self.landing(p, ranges[k]),
                    ),
                    None => b < starts[0] ==> !inside_item(
                        starts,
                        size(p),
                        self.past_orphan(p, b, ranges),
                    ),
                },
                None => true,
            }
    }

    /// True when nothing leads into an item of `p` from outside it.
    pub open spec fn keeps_out_of_items(self, p: Seq<char>) -> bool {
        self.keeps_out_with(
            p,
            folded(p, regex_find_iter(self.break_pattern, p)),
            with_list(skippable_ranges(p), self.starts(p), size(p)),
            self.starts(p),
        )
    }

    /// True when the sentences of `p` make up all of `p`, every item of a list starts one,
    /// from the first item on nothing else does (unless a quote or an orphan closer leads
    /// into an item, which takes a quotation mark), and `p` is one sentence if it has
    /// neither terminators nor lists.
    pub open spec fn divides_well(self, p: Seq<char>) -> bool {
        &&& covers(p, self.cuts(p))
        &&& forall|i: int|
            0 <= i < self.starts(p).len() ==> self.cuts(p).contains(
                (#[trigger] self.starts(p)[i]) as int,
            )
        &&& is_list(p, self.starts(p)) && self.keeps_out_of_items(p) ==> items_are_whole(
            self.cuts(p),
            self.starts(p),
            size(p),
        )
        &&& is_list(p, self.starts(p)) && no_marks(p) ==> self.keeps_out_of_items(p)
        &&& self.break_pattern == sentence_break_pattern() && has_no_terminator(p) && self.starts(
            p,
        ).len() == 0 ==> self.cuts(p) == pushed(seq![0], size(p))
    }
}

/// A paragraph without terminators and lists is one sentence.
pub proof fn law_without_terminators_one_sentence(
    rules: Rules,
    p: Seq<char>,
    ranges: Seq<SkippableRange>,
)
    ensures
        rules.cuts_with(p, Seq::empty(), ranges, Seq::empty()) == if size(p) > 0 {
            seq![0, size(p)]
        } else {
            seq![0]
        },
{
    let cuts = rules.cuts_with(p, Seq::empty(), ranges, Seq::empty());
    if size(p) > 0 {
        assert(cuts =~= seq![0, size(p)]);
    }
}

/// A `.` behind an abbreviation ends no sentence, unless a word that opens sentences
/// overrides that, the abbreviation is a time of day that ends one, or reference numbers
/// follow.
pub proof fn law_abbreviation_ends_no_sentence(rules: Rules, t: Seq<char>, start: int, end: int)
    requires
        between(t, start, end) == "."@,
        rules.abbreviation(last_word(before(t, start)), "."@),
        !rules.overrides(
            before(t, start),
            last_word(before(t, start)),
            next_word(t, behind_run(t, start, end)),
        ),
        !time_ends_sentence(before(t, start), next_word(t, behind_run(t, start, end))),
    ensures
        rules.boundary_with(t, start, end, None) is None,
{
}

/// What is listed as an abbreviation in lower or upper case, or as it stands, is one.
pub proof fn law_abbreviations_in_any_case(rules: Rules, w: Seq<char>)
    requires
        w.len() > 0,
        rules.abbreviations.contains(w) || rules.abbreviations.contains(unicode_lower_case(w))
            || rules.abbreviations.contains(unicode_upper_case(w)),
    ensures
        rules.abbreviation(w, rules.abbreviation_char),
{
}

/// The last token of a text is longer than its last word exactly when it has a dot in
/// it.
pub proof fn law_longer_token_has_dot(head: Seq<char>)
    ensures
        size(last_word(head)) < size(last_token(head)) <==> last_token(head).contains('.'),
{
    let t = strip_back::<White>(head);
    let n = run_back::<NameSeparator>(t, false);
    let m = run_back::<TokenSeparator>(t, false);
    lemma_run_back::<NameSeparator>(t, false);
    lemma_run_back::<TokenSeparator>(t, false);
    let word = last_word(head);
    let token = last_token(head);
    if m < n {
        assert(TokenSeparator::has(t[t.len() - m - 1]));
        assert(!NameSeparator::has(t[t.len() - m - 1]));
    }
    let front = token.take(m - n);
    assert(token =~= front + word);
    lemma_encode_concat(front, word);
    lemma_size(front);
    if n < m {
        assert(NameSeparator::has(t[t.len() - n - 1]));
        assert(!TokenSeparator::has(t[t.len() - n - 1]));
        assert(token[m - n - 1] == t[t.len() - n - 1]);
        assert(token[m - n - 1] == '.');
    } else if token.contains('.') {
        let i = token.index_of('.');
        assert(token[i] == t[t.len() - m + i]);
        assert(!NameSeparator::has(t[t.len() - m + i]));
    }
}

pub proof fn lemma_forbids(
    rules: Rules,
    p: Seq<char>,
    ranges: Seq<SkippableRange>,
    boundary: int,
    m: (int, int),
    from: int,
    k: int,
)
    requires
        0 <= from <= k < ranges.len(),
        ranges[k].around(boundary),
        !rules.mispaired(p, ranges, ranges[k], m),
    ensures
        rules.forbids(p, ranges, boundary, m, from) matches Some(j) && from <= j <= k
            && ranges[j].around(boundary),
    decreases k - from,
{
    if from < k && !(ranges[from].around(boundary) && !rules.mispaired(p, ranges, ranges[from], m)) {
        lemma_forbids(rules, p, ranges, boundary, m, from + 1, k);
    }
}

/// A terminator whose boundary would lie inside quoted text, brackets or an address adds
/// no boundary, unless the marks seem to have been paired across the end of a sentence
/// or the boundary stands right before the closer of a quote.
pub proof fn law_skipped_text_is_not_divided(
    rules: Rules,
    p: Seq<char>,
    ranges: Seq<SkippableRange>,
    cuts: Seq<int>,
    m: (int, int),
    b: int,
    k: int,
)
    requires
        rules.boundary(p, m.0, m.1) == Some(b),
        0 <= k < ranges.len(),
        ranges[k].around(b),
        !rules.mispaired(p, ranges, ranges[k], m),
        forall|j: int|
            0 <= j <= k && (#[trigger] ranges[j]).around(b) ==> !ranges[j].closes_behind(p, b),
    ensures
        rules.after_match(p, ranges, cuts, m) == cuts,
{
    lemma_forbids(rules, p, ranges, b, m, 0, k);
}

/// A terminator inside an item of a list adds no boundary, unless it stands right before
/// the closer of a quote that does not start behind the item.
pub proof fn law_items_are_not_divided(
    rules: Rules,
    p: Seq<char>,
    ranges: Seq<SkippableRange>,
    cuts: Seq<int>,
    m: (int, int),
    b: int,
    k: int,
)
    requires
        in_order(ranges),
        rules.boundary(p, m.0, m.1) == Some(b),
        0 <= k < ranges.len(),
        ranges[k].range_type == SkippableRangeType::ListItem,
        ranges[k].around(b),
        forall|j: int|
            0 <= j < ranges.len() && (#[trigger] ranges[j]).start <= ranges[k].start
                && ranges[j].around(b) ==> !ranges[j].closes_behind(p, b),
    ensures
        rules.after_match(p, ranges, cuts, m) == cuts,
{
    assert forall|j: int| 0 <= j <= k && (#[trigger] ranges[j]).around(b) implies !ranges[
        j
    ].closes_behind(p, b) by {
        assert(ranges[j].key() <= ranges[k].key());
    }
    law_skipped_text_is_not_divided(rules, p, ranges, cuts, m, b, k);
}

/// No more than thirty characters are looked at behind a terminator.
pub proof fn law_next_word_is_short(t: Seq<char>, start: int)
    requires
        0 <= start,
    ensures
        next_word(t, start).len() <= LOOKAHEAD,
{
    if start < size(t) {
        let end = least(start + LOOKAHEAD, size(t));
        lemma_floor_cut(t, start);
        lemma_ceil_cut(t, start);
        lemma_floor_cut(t, end);
        lemma_ceil_cut(t, end);
        lemma_cut_ends(t);
        let a = floor_cut(t, start);
        let b = ceil_cut(t, start);
        let c = floor_cut(t, end);
        let d = ceil_cut(t, end);
        lemma_gap(t, a, b, start);
        lemma_gap(t, c, d, end);
        if c < b {
            // One character holds both positions.
            assert(a == c && b == d);
        } else {
            lemma_join(t, a, b, d);
            lemma_join(t, b, c, d);
            lemma_between(t, b, c);
            lemma_size(between(t, b, c));
        }
    }
}

/// Between the two cuts around a position lies at most one character, and none if it is
/// a cut itself.
proof fn lemma_gap(t: Seq<char>, a: int, b: int, at: int)
    requires
        0 <= at <= size(t),
        a == floor_cut(t, at),
        b == ceil_cut(t, at),
    ensures
        a <= at <= b,
        is_cut(t, at) ==> a == at && b == at,
        !is_cut(t, at) ==> a < at < b,
        between(t, a, b).len() == if is_cut(t, at) {
            0int
        } else {
            1
        },
{
    lemma_floor_cut(t, at);
    lemma_ceil_cut(t, at);
    lemma_cut_ends(t);
    if is_cut(t, at) {
        lemma_between(t, at, at);
        lemma_size(between(t, at, at));
    } else {
        assert forall|k: int| a < k < b implies is_continuation_byte(#[trigger] encode_utf8(t)[k]) by {
            assert(!is_cut(t, k));
        }
        lemma_step(t, a, b);
    }
}

/// Behind the first item, and not where another starts, a position lies inside an item.
proof fn lemma_inside_item(starts: Seq<usize>, end: int, b: int, n: int) -> (k: int)
    requires
        0 < n <= starts.len(),
        starts[0] < b < end,
        !is_start(starts, b),
        n < starts.len() ==> b < starts[n],
    ensures
        0 <= k < n,
        list_ranges(starts, end)[k].start < b,
        k + 1 < starts.len() ==> b < starts[k + 1],
    decreases n,
{
    if starts[n - 1] < b {
        n - 1
    } else {
        assert(starts[n - 1] != b);
        lemma_inside_item(starts, end, b, n - 1)
    }
}

proof fn lemma_with_cut_elements(cuts: Seq<int>, at: int)
    ensures
        forall|i: int|
            0 <= i < with_cut(cuts, at).len() ==> (#[trigger] with_cut(cuts, at)[i]) == at
                || cuts.contains(with_cut(cuts, at)[i]),
    decreases cuts.len(),
{
    let r = with_cut(cuts, at);
    if cuts.len() == 0 || cuts.last() <= at {
        assert forall|i: int| 0 <= i < r.len() implies (#[trigger] r[i]) == at || cuts.contains(
            r[i],
        ) by {
            if i < cuts.len() {
                assert(cuts[i] == r[i]);
            }
        }
    } else {
        let front = cuts.drop_last();
        lemma_with_cut_elements(front, at);
        let f = with_cut(front, at);
        assert forall|i: int| 0 <= i < r.len() implies (#[trigger] r[i]) == at || cuts.contains(
            r[i],
        ) by {
            if i < f.len() {
                assert(f[i] == r[i]);
                if front.contains(f[i]) {
                    assert(cuts[front.index_of(f[i])] == r[i]);
                }
            } else {
                assert(cuts[cuts.len() - 1] == r[i]);
            }
        }
    }
}

proof fn lemma_with_starts_whole(cuts: Seq<int>, all: Seq<usize>, end: int, n: int)
    requires
        0 <= n <= all.len(),
        items_are_whole(cuts, all, end),
    ensures
        items_are_whole(with_starts(cuts, all.take(n)), all, end),
    decreases n,
{
    if n > 0 {
        lemma_with_starts_whole(cuts, all, end, n - 1);
        let starts = all.take(n);
        assert(starts.drop_last() =~= all.take(n - 1));
        let earlier = with_starts(cuts, all.take(n - 1));
        let at = all[n - 1] as int;
        lemma_with_cut_elements(earlier, at);
        let r = with_starts(cuts, starts);
        assert(r == with_cut(earlier, at));
        assert forall|i: int| 0 <= i < r.len() implies !inside_item(all, end, #[trigger] r[i]) by {
            if r[i] == at {
                assert(all[n - 1] == r[i]);
            } else {
                let k = earlier.index_of(r[i]);
                assert(earlier[k] == r[i]);
            }
        }
    }
}

/// A terminator adds a boundary only before the first item, where an item starts, or at
/// the end.
proof fn lemma_after_match_whole(
    rules: Rules,
    p: Seq<char>,
    ranges: Seq<SkippableRange>,
    starts: Seq<usize>,
    ms: Seq<(int, int)>,
    cuts: Seq<int>,
    i: int,
)
    requires
        size(p) <= usize::MAX,
        is_list(p, starts),
        in_order(ranges),
        forall|j: int|
            0 <= j < starts.len() ==> ranges.contains(#[trigger] list_ranges(starts, size(p))[j]),
        rules.keeps_out_with(p, ms, ranges, starts),
        0 <= i < ms.len(),
        items_are_whole(cuts, starts, size(p)),
    ensures
        items_are_whole(rules.after_match(p, ranges, cuts, ms[i]), starts, size(p)),
{
    let m = ms[i];
    if let Some(b) = rules.boundary(p, m.0, m.1) {
        match rules.forbids(p, ranges, b, m, 0) {
            None => {
                if inside_item(starts, size(p), b) {
                    assert(starts[0] != b);
                    let k = lemma_inside_item(starts, size(p), b, starts.len() as int);
                    let item = list_ranges(starts, size(p))[k];
                    assert(ranges.contains(item));
                    let j = ranges.index_of(item);
                    assert(ranges[j] == item);
                    lemma_forbids(rules, p, ranges, b, m, 0, j);
                }
                if is_start(starts, b) {
                    let k = choose|k: int| 0 <= k < starts.len() && #[trigger] starts[k] == b;
                    let item = list_ranges(starts, size(p))[k];
                    assert(ranges.contains(item));
                    let j = ranges.index_of(item);
                    assert(ranges[j].start == b);
                    assert(range_starts(ranges, b));
                } else if size(p) <= b {
                    lemma_no_orphan_behind(p, b, ranges, 0);
                }
                assert(!inside_item(starts, size(p), rules.past_orphan(p, b, ranges)));
            },
            Some(k) => {
                lemma_forbids_bounds(rules, p, ranges, b, m, 0);
                let quote = ranges[k];
                if quote.closes_behind(p, b) && within_item(starts, size(p), quote) {
                    // The item lies around the boundary too, and comes first.
                    let n = choose|n: int|
                        0 <= n < starts.len() && #[trigger] starts[n] < quote.start && quote.end
                            <= item_end(starts, size(p), n);
                    let item = list_ranges(starts, size(p))[n];
                    assert(ranges.contains(item));
                    let j = ranges.index_of(item);
                    assert(ranges[j] == item);
                    lemma_forbids(rules, p, ranges, b, m, 0, j);
                    assert(ranges[k].key() <= ranges[j].key());
                }
            },
        }
    }
}

/// No closer stands at or behind the end.
proof fn lemma_no_orphan_behind(p: Seq<char>, b: int, ranges: Seq<SkippableRange>, k: int)
    requires
        size(p) <= b,
        0 <= k,
    ensures
        orphan_at(p, b, ranges, k) is None,
    decreases QUOTE_CLOSERS_BY_LEN@.len() - k,
{
    if k < QUOTE_CLOSERS_BY_LEN@.len() {
        lemma_marks();
        assert(size(QUOTE_CLOSERS_BY_LEN@[k]@) > 0);
        lemma_no_orphan_behind(p, b, ranges, k + 1);
    }
}

pub proof fn lemma_forbids_bounds(
    rules: Rules,
    p: Seq<char>,
    ranges: Seq<SkippableRange>,
    boundary: int,
    m: (int, int),
    from: int,
)
    requires
        0 <= from,
    ensures
        rules.forbids(p, ranges, boundary, m, from) matches Some(k) ==> 0 <= k < ranges.len()
            && ranges[k].around(boundary),
    decreases ranges.len() - from,
{
    if from < ranges.len() {
        lemma_forbids_bounds(rules, p, ranges, boundary, m, from + 1);
    }
}

pub proof fn lemma_no_orphan(p: Seq<char>, b: int, ranges: Seq<SkippableRange>, k: int)
    requires
        no_marks(p),
        0 <= k,
    ensures
        orphan_at(p, b, ranges, k) is None,
    decreases QUOTE_CLOSERS_BY_LEN@.len() - k,
{
    if k < QUOTE_CLOSERS_BY_LEN@.len() {
        lemma_no_closer(p, k, b);
        lemma_no_orphan(p, b, ranges, k + 1);
    }
}

proof fn lemma_found_whole(
    rules: Rules,
    p: Seq<char>,
    ranges: Seq<SkippableRange>,
    starts: Seq<usize>,
    ms: Seq<(int, int)>,
    n: int,
)
    requires
        size(p) <= usize::MAX,
        is_list(p, starts),
        in_order(ranges),
        forall|i: int|
            0 <= i < starts.len() ==> ranges.contains(#[trigger] list_ranges(starts, size(p))[i]),
        rules.keeps_out_with(p, ms, ranges, starts),
        0 <= n <= ms.len(),
    ensures
        items_are_whole(rules.found(p, ranges, ms.take(n)), starts, size(p)),
    decreases n,
{
    if n == 0 {
        if starts[0] == 0 {
            assert(is_start(starts, 0));
        }
    } else {
        lemma_found_whole(rules, p, ranges, starts, ms, n - 1);
        assert(ms.take(n).drop_last() =~= ms.take(n - 1));
        lemma_after_match_whole(
            rules,
            p,
            ranges,
            starts,
            ms,
            rules.found(p, ranges, ms.take(n - 1)),
            n - 1,
        );
    }
}

/// The items are among the ranges, which are sorted.
pub proof fn lemma_with_list(ranges: Seq<SkippableRange>, starts: Seq<usize>, end: int)
    requires
        starts.len() > 0,
    ensures
        in_order(with_list(ranges, starts, end)),
        forall|i: int|
            0 <= i < starts.len() ==> with_list(ranges, starts, end).contains(
                #[trigger] list_ranges(starts, end)[i],
            ),
        forall|k: int|
            0 <= k < with_list(ranges, starts, end).len() && (#[trigger] with_list(
                ranges,
                starts,
                end,
            )[k]).quote() ==> ranges.contains(with_list(ranges, starts, end)[k]),
{
    let items = list_ranges(starts, end);
    let all = with_list(ranges, starts, end);
    lemma_sorted(ranges + items);
    assert forall|k: int| 0 <= k < all.len() && (#[trigger] all[k]).quote() implies ranges.contains(
        all[k],
    ) by {
        assert(all.contains(all[k]));
        let i = (ranges + items).index_of(all[k]);
        if i < ranges.len() {
            assert(ranges[i] == all[k]);
        } else {
            assert(items[i - ranges.len()] == all[k]);
        }
    }
    assert forall|i: int| 0 <= i < starts.len() implies all.contains(#[trigger] items[i]) by {
        assert((ranges + items)[ranges.len() + i] == items[i]);
        assert((ranges + items).contains(items[i]));
    }
}

/// From the first item of a list on, nothing but an item starts a sentence, whatever
/// terminators and quotes the items hold, as long as no quote and no orphan closer leads
/// into an item from outside it.
pub proof fn law_items_are_whole(
    rules: Rules,
    p: Seq<char>,
    ms: Seq<(int, int)>,
    ranges: Seq<SkippableRange>,
    starts: Seq<usize>,
)
    requires
        size(p) <= usize::MAX,
        is_list(p, starts),
        rules.keeps_out_with(p, ms, with_list(ranges, starts, size(p)), starts),
    ensures
        items_are_whole(rules.cuts_with(p, ms, ranges, starts), starts, size(p)),
{
    let all = with_list(ranges, starts, size(p));
    lemma_with_list(ranges, starts, size(p));
    lemma_found_whole(rules, p, all, starts, ms, ms.len() as int);
    assert(ms.take(ms.len() as int) =~= ms);
    lemma_with_starts_whole(rules.found(p, all, ms), starts, size(p), starts.len() as int);
    assert(starts.take(starts.len() as int) =~= starts);
}

/// Without quotation marks nothing leads into an item from outside it.
pub proof fn law_only_quotes_lead_into_items(
    rules: Rules,
    p: Seq<char>,
    ms: Seq<(int, int)>,
    ranges: Seq<SkippableRange>,
    starts: Seq<usize>,
)
    requires
        is_list(p, starts),
        no_marks(p),
        forall|k: int| 0 <= k < ranges.len() ==> !(#[trigger] ranges[k]).quote(),
    ensures
        rules.keeps_out_with(p, ms, with_list(ranges, starts, size(p)), starts),
{
    let all = with_list(ranges, starts, size(p));
    lemma_with_list(ranges, starts, size(p));
    assert forall|k: int| 0 <= k < all.len() implies !(#[trigger] all[k]).quote() by {
        if all[k].quote() {
            let i = ranges.index_of(all[k]);
            assert(ranges[i] == all[k]);
        }
    }
    assert forall|b: int| #[trigger] rules.past_orphan(p, b, all) == b by {
        lemma_no_orphan(p, b, all, 0);
    }
    assert forall|b: int, m: (int, int)| #[trigger]
        rules.forbids(p, all, b, m, 0) matches Some(k) ==> !all[k].quote() by {
        lemma_forbids_bounds(rules, p, all, b, m, 0);
    }
}

} // verus!
