//! Sentences, and where they stand in their text.

use vstd::prelude::*;
use vstd::string::*;
use vstd::utf8::*;

use crate::chars::{lemma_run_front, run_front, strip_back, CarriageReturn, CharClass, White};
use crate::constants::{is_terminator, terminator};
use crate::languages::cuts::covers;
use crate::languages::rules::{inside_item, is_list, is_start, Rules};
use crate::pattern::{are_spans, gap_length, gaps_from, is_paragraph_gap, is_span};
use crate::text::{as_positions, byte_len, head, piece, step_back, tail, trim_back};
use crate::utf8::{
    after, before, between, is_cut, lemma_between, lemma_cut_ends, lemma_encode_concat, lemma_join,
    lemma_nested, lemma_piece, lemma_size, lemma_split, lemma_take, lemma_whole, size,
};

verus! {

/// A sentence, or the gap between two paragraphs, and where it stands.
#[derive(Debug)]
pub struct SentenceBoundary<'a> {
    /// Where it starts, in characters.
    pub start_index: usize,
    /// Where it ends, in characters.
    pub end_index: usize,
    /// Where it starts, in bytes.
    pub start_byte: usize,
    /// Where it ends, in bytes.
    pub end_byte: usize,
    /// The text itself.
    pub text: &'a str,
    /// The terminator that it ends with, before any white space.
    pub boundary_symbol: Option<String>,
    /// True for the gap between two paragraphs.
    pub is_paragraph_break: bool,
}

/// What a [`SentenceBoundary`] says.
pub struct Boundary {
    pub start_index: int,
    pub end_index: int,
    pub start_byte: int,
    pub end_byte: int,
    pub text: Seq<char>,
    pub boundary_symbol: Option<Seq<char>>,
    pub is_paragraph_break: bool,
}

impl<'a> View for SentenceBoundary<'a> {
    type V = Boundary;

    open spec fn view(&self) -> Boundary {
        Boundary {
            start_index: self.start_index as int,
            end_index: self.end_index as int,
            start_byte: self.start_byte as int,
            end_byte: self.end_byte as int,
            text: self.text@,
            boundary_symbol: match self.boundary_symbol {
                Some(s) => Some(s@),
                None => None,
            },
            is_paragraph_break: self.is_paragraph_break,
        }
    }
}

/// What boundaries say, one by one.
pub open spec fn views(s: Seq<SentenceBoundary>) -> Seq<Boundary> {
    s.map_values(|b: SentenceBoundary| b@)
}

/// The terminator that `t` ends with, before any white space.
pub open spec fn final_symbol(t: Seq<char>) -> Option<Seq<char>> {
    let s = strip_back::<White>(t);
    if s.len() > 0 && terminator(s.last()) {
        Some(seq![s.last()])
    } else {
        None
    }
}

/// Sentence number `i` of the paragraph `p`, which stands behind `index` characters and
/// `byte` bytes.
pub open spec fn sentence(p: Seq<char>, cuts: Seq<int>, i: int, index: int, byte: int) -> Boundary {
    Boundary {
        start_index: index + before(p, cuts[i]).len(),
        end_index: index + before(p, cuts[i + 1]).len(),
        start_byte: byte + cuts[i],
        end_byte: byte + cuts[i + 1],
        text: between(p, cuts[i], cuts[i + 1]),
        boundary_symbol: final_symbol(before(p, cuts[i + 1])),
        is_paragraph_break: false,
    }
}

/// The sentences into which `cuts` divide the paragraph `p`, which stands behind `index`
/// characters and `byte` bytes.
pub open spec fn sentences(p: Seq<char>, cuts: Seq<int>, index: int, byte: int) -> Seq<Boundary> {
    Seq::new((cuts.len() - 1) as nat, |i: int| sentence(p, cuts, i, index, byte))
}

/// The terminator that `text` ends with, before any white space.
pub fn find_symbol(text: &str) -> (r: Option<String>)
    ensures
        match r {
            Some(s) => final_symbol(text@) == Some(s@),
            None => final_symbol(text@) is None,
        },
{
    let trimmed = trim_back::<White>(text);
    let n: usize = byte_len(trimmed);
    proof {
        lemma_size(trimmed@);
        lemma_cut_ends(trimmed@);
        lemma_whole(trimmed@);
    }
    if n == 0 {
        return None;
    }
    let (c, at) = step_back(trimmed, n);
    if is_terminator(c) {
        let symbol = tail(trimmed, at);
        assert(symbol@ =~= seq![c]);
        Some(symbol.to_owned())
    } else {
        None
    }
}

/// Adds the sentences into which `cuts` divide the paragraph, which stands behind
/// `index` characters and `byte` bytes.
pub fn push_sentences<'a>(
    paragraph: &'a str,
    cuts: &[usize],
    index: usize,
    byte: usize,
    out: &mut Vec<SentenceBoundary<'a>>,
)
    requires
        covers(paragraph@, as_positions(cuts@)),
        index + paragraph@.len() <= usize::MAX,
        byte + size(paragraph@) <= usize::MAX,
    ensures
        views(final(out)@) == views(old(out)@) + sentences(
            paragraph@,
            as_positions(cuts@),
            index as int,
            byte as int,
        ),
{
    let ghost p = paragraph@;
    let ghost positions = as_positions(cuts@);
    let ghost was = views(out@);
    let ghost all = sentences(p, positions, index as int, byte as int);
    let mut start_index: usize = index;
    let mut i: usize = 0;
    proof {
        lemma_whole(p);
        assert(was + all.take(0) =~= was);
        assert(positions[0] == 0);
    }
    while i < cuts.len() - 1
        invariant
            p == paragraph@,
            positions == as_positions(cuts@),
            covers(p, positions),
            all == sentences(p, positions, index as int, byte as int),
            i < cuts@.len(),
            index + p.len() <= usize::MAX,
            byte + size(p) <= usize::MAX,
            start_index == index + before(p, positions[i as int]).len(),
            views(out@) == was + all.take(i as int),
        decreases cuts@.len() - i,
    {
        let start: usize = cuts[i];
        let end: usize = cuts[i + 1];
        proof {
            assert(positions[i as int] == start && positions[i + 1] == end);
            assert(is_cut(p, positions[i as int]) && is_cut(p, positions[i + 1]));
            assert(positions[i as int] < positions[i + 1]);
            lemma_cut_ends(p);
            lemma_join(p, 0, start as int, end as int);
            lemma_split(p, end as int);
        }
        let text = piece(paragraph, start, end);
        let end_index: usize = start_index + text.unicode_len();
        let boundary_symbol: Option<String> = find_symbol(head(paragraph, end));
        let ghost now = views(out@);
        let boundary = SentenceBoundary {
            start_index,
            end_index,
            start_byte: byte + start,
            end_byte: byte + end,
            text,
            boundary_symbol,
            is_paragraph_break: false,
        };
        assert(boundary@ == all[i as int]);
        out.push(boundary);
        proof {
            assert(views(out@) =~= now.push(boundary@));
            assert(all.take(i + 1) =~= all.take(i as int).push(all[i as int]));
        }
        start_index = end_index;
        i += 1;
    }
    proof {
        assert(all.take(i as int) =~= all);
    }
}

// Paragraphs.

/// Where paragraph number `i` starts.
pub open spec fn paragraph_start(gaps: Seq<(int, int)>, i: int) -> int {
    if i == 0 {
        0
    } else {
        gaps[i - 1].1
    }
}

/// Where paragraph number `i` ends: at the next gap, or at the end of the text.
pub open spec fn paragraph_end(text: Seq<char>, gaps: Seq<(int, int)>, i: int) -> int {
    if i < gaps.len() {
        gaps[i].0
    } else {
        size(text)
    }
}

/// Paragraph number `i` of `text`, when the gaps between paragraphs are `gaps`.
pub open spec fn paragraph(text: Seq<char>, gaps: Seq<(int, int)>, i: int) -> Seq<char> {
    between(text, paragraph_start(gaps, i), paragraph_end(text, gaps, i))
}

/// The gap from `gap.0` to `gap.1`.
pub open spec fn gap_boundary(text: Seq<char>, gap: (int, int)) -> Boundary {
    Boundary {
        start_index: before(text, gap.0).len() as int,
        end_index: before(text, gap.1).len() as int,
        start_byte: gap.0,
        end_byte: gap.1,
        text: between(text, gap.0, gap.1),
        boundary_symbol: None,
        is_paragraph_break: true,
    }
}

/// The sentences of paragraph number `i`.
pub open spec fn paragraph_sentences(
    rules: Rules,
    text: Seq<char>,
    gaps: Seq<(int, int)>,
    i: int,
) -> Seq<Boundary> {
    let p = paragraph(text, gaps, i);
    let start = paragraph_start(gaps, i);
    sentences(p, rules.cuts(p), before(text, start).len() as int, start)
}

/// The sentences of paragraph number `i` and, but for the first, the gap before it.
pub open spec fn paragraph_boundaries(
    rules: Rules,
    text: Seq<char>,
    gaps: Seq<(int, int)>,
    i: int,
) -> Seq<Boundary> {
    if i > 0 {
        seq![gap_boundary(text, gaps[i - 1])] + paragraph_sentences(rules, text, gaps, i)
    } else {
        paragraph_sentences(rules, text, gaps, i)
    }
}

/// The first `n` paragraphs, with the gaps between them.
pub open spec fn boundaries_upto(
    rules: Rules,
    text: Seq<char>,
    gaps: Seq<(int, int)>,
    n: int,
) -> Seq<Boundary>
    decreases n,
{
    if n <= 0 {
        Seq::empty()
    } else {
        boundaries_upto(rules, text, gaps, n - 1) + paragraph_boundaries(rules, text, gaps, n - 1)
    }
}

/// The sentences of `text`, with the gaps between its paragraphs.
pub open spec fn boundaries(rules: Rules, text: Seq<char>, gaps: Seq<(int, int)>) -> Seq<Boundary> {
    boundaries_upto(rules, text, gaps, gaps.len() as int + 1)
}

/// The gaps between the paragraphs of `text`.
pub open spec fn gaps_of(text: Seq<char>) -> Seq<(int, int)> {
    gaps_from(text, 0)
}

/// True when `gaps` are gaps between paragraphs, one behind the other.
pub open spec fn are_gaps(text: Seq<char>, gaps: Seq<(int, int)>) -> bool {
    &&& are_spans(text, gaps)
    &&& forall|i: int|
        0 <= i < gaps.len() ==> is_paragraph_gap(between(text, (#[trigger] gaps[i]).0, gaps[i].1))
}

proof fn lemma_gaps_from(text: Seq<char>, at: int)
    requires
        is_cut(text, at),
    ensures
        are_gaps(text, gaps_from(after(text, at), at)),
        forall|i: int|
            0 <= i < gaps_from(after(text, at), at).len() ==> at <= (#[trigger] gaps_from(
                after(text, at),
                at,
            )[i]).0,
    decreases after(text, at).len(),
{
    let rest = after(text, at);
    let gaps = gaps_from(rest, at);
    if rest.len() == 0 {
    } else if 0 < gap_length(rest) <= rest.len() {
        let n = gap_length(rest);
        let to = at + size(rest.take(n));
        lemma_take(text, at, n);
        lemma_gaps_from(text, to);
        let more = gaps_from(after(text, to), to);
        lemma_run_front::<CarriageReturn>(rest.drop_first(), true);
        let gap = rest.take(n);
        assert(is_paragraph_gap(gap)) by {
            assert forall|i: int| 0 < i < gap.len() - 1 implies #[trigger] gap[i] == '\r' by {
                assert(gap[i] == rest.drop_first()[i - 1]);
            }
        }
        assert forall|i: int| 0 <= i < gaps.len() implies is_span(text, #[trigger] gaps[i]) && at
            <= gaps[i].0 && is_paragraph_gap(between(text, gaps[i].0, gaps[i].1)) by {
            if i > 0 {
                assert(gaps[i] == more[i - 1]);
            }
        }
        assert forall|i: int, j: int| 0 <= i < j < gaps.len() implies (#[trigger] gaps[i]).1 <= (
        #[trigger] gaps[j]).0 by {
            assert(gaps[j] == more[j - 1]);
            if i > 0 {
                assert(gaps[i] == more[i - 1]);
            }
        }
    } else {
        lemma_take(text, at, 1);
        assert(rest.skip(1) =~= rest.drop_first());
        let to = at + size(rest.take(1));
        lemma_gaps_from(text, to);
        let more = gaps_from(after(text, to), to);
        assert(gaps == more);
        assert forall|i: int| 0 <= i < gaps.len() implies at <= (#[trigger] gaps[i]).0 by {
            assert(to <= more[i].0);
        }
    }
}

/// The gaps between the paragraphs of a text are such gaps, one behind the other.
pub proof fn lemma_gaps_of(text: Seq<char>)
    ensures
        are_gaps(text, gaps_of(text)),
{
    lemma_cut_ends(text);
    lemma_whole(text);
    lemma_gaps_from(text, 0);
}

/// A paragraph starts and ends at cuts.
pub proof fn lemma_paragraph(text: Seq<char>, gaps: Seq<(int, int)>, i: int)
    requires
        are_gaps(text, gaps),
        0 <= i <= gaps.len(),
    ensures
        is_cut(text, paragraph_start(gaps, i)),
        is_cut(text, paragraph_end(text, gaps, i)),
        paragraph_start(gaps, i) <= paragraph_end(text, gaps, i),
        size(paragraph(text, gaps, i)) == paragraph_end(text, gaps, i) - paragraph_start(gaps, i),
        before(text, paragraph_end(text, gaps, i)).len() == before(
            text,
            paragraph_start(gaps, i),
        ).len() + paragraph(text, gaps, i).len(),
        i < gaps.len() ==> is_span(text, gaps[i]),
        i > 0 ==> is_span(text, gaps[i - 1]),
{
    lemma_cut_ends(text);
    if i > 0 {
        assert(is_span(text, gaps[i - 1]));
    }
    if i < gaps.len() {
        assert(is_span(text, gaps[i]));
        if i > 0 {
            assert(gaps[i - 1].1 <= gaps[i].0);
        }
    }
    lemma_between(text, paragraph_start(gaps, i), paragraph_end(text, gaps, i));
    lemma_join(text, 0, paragraph_start(gaps, i), paragraph_end(text, gaps, i));
}

/// Adds the gap from `from` to `to`, which stands behind `index` characters, and gives the
/// number of characters up to its end.
pub fn push_gap<'a>(
    text: &'a str,
    from: usize,
    to: usize,
    index: usize,
    out: &mut Vec<SentenceBoundary<'a>>,
) -> (r: usize)
    requires
        is_span(text@, (from as int, to as int)),
        index == before(text@, from as int).len(),
    ensures
        views(final(out)@) == views(old(out)@).push(
            gap_boundary(text@, (from as int, to as int)),
        ),
        r == before(text@, to as int).len(),
{
    let _limit: usize = byte_len(text);
    proof {
        lemma_cut_ends(text@);
        lemma_join(text@, 0, from as int, to as int);
        lemma_split(text@, to as int);
        lemma_size(before(text@, to as int));
    }
    let gap_text = piece(text, from, to);
    let end_index: usize = index + gap_text.unicode_len();
    let gap = SentenceBoundary {
        start_index: index,
        end_index,
        start_byte: from,
        end_byte: to,
        text: gap_text,
        boundary_symbol: None,
        is_paragraph_break: true,
    };
    let ghost was = views(out@);
    out.push(gap);
    proof {
        assert(gap@ == gap_boundary(text@, (from as int, to as int)));
        assert(views(out@) =~= was.push(gap@));
    }
    end_index
}

// What holds of all boundaries.

/// The texts of boundaries.
pub open spec fn texts(bs: Seq<Boundary>) -> Seq<Seq<char>> {
    bs.map_values(|b: Boundary| b.text)
}

/// Texts put together, one behind the other.
pub open spec fn joined(ts: Seq<Seq<char>>) -> Seq<char>
    decreases ts.len(),
{
    if ts.len() == 0 {
        Seq::empty()
    } else {
        joined(ts.drop_last()) + ts.last()
    }
}

/// True when the first `n` paragraphs are divided well.
pub open spec fn all_covered(rules: Rules, text: Seq<char>, gaps: Seq<(int, int)>, n: int) -> bool {
    forall|i: int|
        0 <= i < n ==> rules.divides_well(#[trigger] paragraph(text, gaps, i))
}

/// True when the boundary has the bytes and characters of `text` that it says it has.
pub open spec fn located(text: Seq<char>, b: Boundary) -> bool {
    &&& is_cut(text, b.start_byte)
    &&& is_cut(text, b.end_byte)
    &&& b.start_byte < b.end_byte
    &&& b.text == between(text, b.start_byte, b.end_byte)
    &&& b.start_index == before(text, b.start_byte).len()
    &&& b.end_index == before(text, b.end_byte).len()
}

/// True when each boundary stands where it says, starts where the one before it ends, the
/// first at `from`, and the last ends at `to`.
pub open spec fn lined_up(text: Seq<char>, bs: Seq<Boundary>, from: int, to: int) -> bool {
    &&& forall|i: int| 0 <= i < bs.len() ==> located(text, #[trigger] bs[i])
    &&& forall|i: int, j: int|
        #![trigger bs[i], bs[j]]
        0 <= i && i + 1 == j && j < bs.len() ==> bs[i].end_byte == bs[j].start_byte
    &&& if bs.len() == 0 {
        from == to
    } else {
        bs[0].start_byte == from && bs.last().end_byte == to
    }
}

/// Boundaries that go on where others end line up with them.
proof fn lemma_lined_up(
    text: Seq<char>,
    a: Seq<Boundary>,
    b: Seq<Boundary>,
    from: int,
    mid: int,
    to: int,
)
    requires
        lined_up(text, a, from, mid),
        lined_up(text, b, mid, to),
    ensures
        lined_up(text, a + b, from, to),
{
    let bs = a + b;
    assert forall|i: int| 0 <= i < bs.len() implies located(text, #[trigger] bs[i]) by {
        if i < a.len() {
            assert(bs[i] == a[i]);
        } else {
            assert(bs[i] == b[i - a.len()]);
        }
    }
    assert forall|i: int, j: int|
        #![trigger bs[i], bs[j]]
        0 <= i && i + 1 == j && j < bs.len() implies bs[i].end_byte == bs[j].start_byte by {
        if j < a.len() {
            assert(bs[i] == a[i] && bs[j] == a[j]);
        } else {
            assert(bs[j] == b[j - a.len()]);
            if j == a.len() {
                assert(bs[i] == a.last());
            } else {
                assert(bs[i] == b[i - a.len()]);
            }
        }
    }
    if bs.len() > 0 {
        if a.len() > 0 {
            assert(bs[0] == a[0]);
        } else {
            assert(bs[0] == b[0]);
        }
        if b.len() > 0 {
            assert(bs.last() == b.last());
        } else {
            assert(bs.last() == a.last());
        }
    }
}

/// Boundaries that line up make up the text between their ends.
proof fn lemma_lined_up_joined(text: Seq<char>, bs: Seq<Boundary>, from: int, to: int)
    requires
        lined_up(text, bs, from, to),
        is_cut(text, from),
    ensures
        joined(texts(bs)) == between(text, from, to),
        is_cut(text, to),
        from <= to,
    decreases bs.len(),
{
    if bs.len() == 0 {
        assert(texts(bs) =~= Seq::<Seq<char>>::empty());
        lemma_between(text, from, from);
        lemma_size(between(text, from, from));
        assert(between(text, from, from) =~= Seq::<char>::empty());
    } else {
        let front = bs.drop_last();
        let b = bs.last();
        assert(located(text, bs[bs.len() - 1]));
        assert(texts(bs).drop_last() =~= texts(front));
        assert(lined_up(text, front, from, b.start_byte)) by {
            assert forall|i: int| 0 <= i < front.len() implies located(text, #[trigger] front[i]) by {
                assert(front[i] == bs[i]);
            }
            assert forall|i: int, j: int|
                #![trigger front[i], front[j]]
                0 <= i && i + 1 == j && j < front.len() implies front[i].end_byte
                == front[j].start_byte by {
                assert(front[i] == bs[i] && front[j] == bs[j]);
            }
            if front.len() > 0 {
                assert(bs[bs.len() - 2].end_byte == bs[bs.len() - 1].start_byte);
            }
        }
        lemma_lined_up_joined(text, front, from, b.start_byte);
        lemma_join(text, from, b.start_byte, b.end_byte);
    }
}

/// The sentences of a paragraph stand in its text, one behind the other.
proof fn lemma_sentences(
    text: Seq<char>,
    from: int,
    to: int,
    cuts: Seq<int>,
)
    requires
        is_cut(text, from),
        is_cut(text, to),
        from <= to,
        covers(between(text, from, to), cuts),
    ensures
        lined_up(
            text,
            sentences(between(text, from, to), cuts, before(text, from).len() as int, from),
            from,
            to,
        ),
{
    let p = between(text, from, to);
    let bs = sentences(p, cuts, before(text, from).len() as int, from);
    lemma_between(text, from, to);
    lemma_nested(text, from, to);
    lemma_cut_ends(text);
    assert forall|k: int| 0 <= k < cuts.len() implies is_cut(text, from + #[trigger] cuts[k])
        && before(text, from + cuts[k]).len() == before(text, from).len() + before(
        p,
        cuts[k],
    ).len() by {
        assert(is_cut(p, cuts[k]));
        lemma_join(text, 0, from, from + cuts[k]);
        assert(between(p, 0, cuts[k]) == between(text, from + 0, from + cuts[k]));
    }
    assert forall|k: int| 0 <= k < bs.len() implies located(text, #[trigger] bs[k]) by {
        assert(cuts[k] < cuts[k + 1]);
        assert(is_cut(p, cuts[k]) && is_cut(p, cuts[k + 1]));
        assert(between(p, cuts[k], cuts[k + 1]) == between(
            text,
            from + cuts[k],
            from + cuts[k + 1],
        ));
    }
    if bs.len() == 0 {
        assert(cuts.len() == 1);
        assert(cuts[0] == cuts.last());
    }
}

/// The sentences of a paragraph make up the paragraph, and none of them is empty.
pub proof fn law_sentences_make_up_paragraph(p: Seq<char>, cuts: Seq<int>)
    requires
        covers(p, cuts),
    ensures
        joined(texts(sentences(p, cuts, 0, 0))) == p,
        lined_up(p, sentences(p, cuts, 0, 0), 0, size(p)),
{
    lemma_whole(p);
    lemma_cut_ends(p);
    lemma_sentences(p, 0, size(p), cuts);
    lemma_lined_up_joined(p, sentences(p, cuts, 0, 0), 0, size(p));
}

proof fn lemma_paragraph_boundaries(rules: Rules, text: Seq<char>, gaps: Seq<(int, int)>, i: int)
    requires
        are_gaps(text, gaps),
        0 <= i <= gaps.len(),
        rules.divides_well(paragraph(text, gaps, i)),
    ensures
        lined_up(
            text,
            paragraph_boundaries(rules, text, gaps, i),
            if i > 0 {
                gaps[i - 1].0
            } else {
                0
            },
            paragraph_end(text, gaps, i),
        ),
{
    lemma_paragraph(text, gaps, i);
    let from = paragraph_start(gaps, i);
    let to = paragraph_end(text, gaps, i);
    let p = paragraph(text, gaps, i);
    lemma_sentences(text, from, to, rules.cuts(p));
    if i > 0 {
        let gap = gap_boundary(text, gaps[i - 1]);
        assert(is_paragraph_gap(between(text, gaps[i - 1].0, gaps[i - 1].1)));
        lemma_between(text, gaps[i - 1].0, gaps[i - 1].1);
        lemma_size(between(text, gaps[i - 1].0, gaps[i - 1].1));
        assert(located(text, gap));
        assert(lined_up(text, seq![gap], gaps[i - 1].0, gaps[i - 1].1));
        lemma_lined_up(
            text,
            seq![gap],
            paragraph_sentences(rules, text, gaps, i),
            gaps[i - 1].0,
            from,
            to,
        );
    }
}

proof fn lemma_upto(rules: Rules, text: Seq<char>, gaps: Seq<(int, int)>, n: int)
    requires
        are_gaps(text, gaps),
        0 < n <= gaps.len() + 1,
        all_covered(rules, text, gaps, n),
    ensures
        lined_up(
            text,
            boundaries_upto(rules, text, gaps, n),
            0,
            paragraph_end(text, gaps, n - 1),
        ),
    decreases n,
{
    let more = paragraph_boundaries(rules, text, gaps, n - 1);
    lemma_paragraph_boundaries(rules, text, gaps, n - 1);
    if n > 1 {
        lemma_upto(rules, text, gaps, n - 1);
        lemma_lined_up(
            text,
            boundaries_upto(rules, text, gaps, n - 1),
            more,
            0,
            gaps[n - 2].0,
            paragraph_end(text, gaps, n - 1),
        );
    } else {
        assert(boundaries_upto(rules, text, gaps, 0) + more =~= more);
    }
}

/// The boundaries of a text stand where they say, each starts where the one before ends,
/// and together they make up the text.
pub proof fn law_boundaries_make_up_text(rules: Rules, text: Seq<char>, gaps: Seq<(int, int)>)
    requires
        are_gaps(text, gaps),
        all_covered(rules, text, gaps, gaps.len() as int + 1),
    ensures
        lined_up(text, boundaries(rules, text, gaps), 0, size(text)),
        joined(texts(boundaries(rules, text, gaps))) == text,
{
    lemma_upto(rules, text, gaps, gaps.len() as int + 1);
    lemma_cut_ends(text);
    lemma_lined_up_joined(text, boundaries(rules, text, gaps), 0, size(text));
    lemma_whole(text);
}

/// The gap before paragraph number `i`, for all but the first.
pub open spec fn gap_after(text: Seq<char>, gaps: Seq<(int, int)>, i: int) -> Seq<Boundary> {
    if i > 0 {
        seq![gap_boundary(text, gaps[i - 1])]
    } else {
        Seq::empty()
    }
}

/// One more paragraph, and the gap behind it.
pub proof fn lemma_upto_step(rules: Rules, text: Seq<char>, gaps: Seq<(int, int)>, i: int)
    requires
        0 <= i <= gaps.len(),
    ensures
        boundaries_upto(rules, text, gaps, i) + gap_after(text, gaps, i) + paragraph_sentences(
            rules,
            text,
            gaps,
            i,
        ) == boundaries_upto(rules, text, gaps, i + 1),
        i < gaps.len() ==> (boundaries_upto(rules, text, gaps, i) + gap_after(text, gaps, i)
            + paragraph_sentences(rules, text, gaps, i)).push(gap_boundary(text, gaps[i]))
            == boundaries_upto(rules, text, gaps, i + 1) + gap_after(text, gaps, i + 1),
{
    let a = boundaries_upto(rules, text, gaps, i);
    let own = paragraph_sentences(rules, text, gaps, i);
    assert(a + gap_after(text, gaps, i) + own =~= boundaries_upto(rules, text, gaps, i + 1));
    if i < gaps.len() {
        assert((a + gap_after(text, gaps, i) + own).push(gap_boundary(text, gaps[i]))
            =~= boundaries_upto(rules, text, gaps, i + 1) + gap_after(text, gaps, i + 1));
    }
}

/// True when, from the first item on, the boundaries start exactly where items do.
pub open spec fn are_items(bs: Seq<Boundary>, starts: Seq<usize>) -> bool {
    &&& forall|i: int|
        0 <= i < bs.len() && starts[0] <= (#[trigger] bs[i]).start_byte ==> is_start(
            starts,
            bs[i].start_byte,
        )
    &&& forall|k: int|
        0 <= k < starts.len() ==> exists|i: int|
            0 <= i < bs.len() && (#[trigger] bs[i]).start_byte == #[trigger] starts[k]
}

/// From the first item of a list on, the sentences of a paragraph are exactly the items,
/// whatever terminators and quotes they hold, as long as no quote and no orphan closer
/// leads into an item from outside it.
pub proof fn law_items_are_the_sentences(rules: Rules, text: Seq<char>)
    requires
        gaps_of(text).len() == 0,
        rules.divides_well(text),
        is_list(text, rules.starts(text)),
        rules.keeps_out_of_items(text),
    ensures
        are_items(boundaries(rules, text, gaps_of(text)), rules.starts(text)),
{
    let starts = rules.starts(text);
    let gaps = gaps_of(text);
    let bs = boundaries(rules, text, gaps);
    let cuts = rules.cuts(text);
    lemma_whole(text);
    reveal_with_fuel(boundaries_upto, 2);
    assert(paragraph(text, gaps, 0) == text);
    assert(bs =~= sentences(text, cuts, 0, 0));
    assert forall|i: int|
        0 <= i < bs.len() && starts[0] <= (#[trigger] bs[i]).start_byte implies is_start(
        starts,
        bs[i].start_byte,
    ) by {
        assert(cuts[i] < cuts[cuts.len() - 1]);
        assert(!inside_item(starts, size(text), cuts[i]));
    }
    assert forall|k: int| 0 <= k < starts.len() implies exists|i: int|
        0 <= i < bs.len() && (#[trigger] bs[i]).start_byte == #[trigger] starts[k] by {
        let i = cuts.index_of(starts[k] as int);
        assert(cuts.contains(starts[k] as int));
        assert(i < cuts.len() - 1);
        assert(bs[i].start_byte == starts[k]);
    }
}

// Two paragraphs.

proof fn lemma_gap_length_front(a: Seq<char>, b: Seq<char>)
    requires
        a.len() > 0,
        a.last() != '\n',
        a.last() != '\r',
    ensures
        gap_length(a + b) == gap_length(a),
        0 <= gap_length(a) < a.len(),
{
    let t = a + b;
    let x = a.drop_first();
    let y = t.drop_first();
    lemma_run_front::<CarriageReturn>(x, true);
    lemma_run_front::<CarriageReturn>(y, true);
    let n = run_front::<CarriageReturn>(x, true);
    let m = run_front::<CarriageReturn>(y, true);
    assert(forall|i: int| 0 <= i < x.len() ==> x[i] == y[i]);
    if x.len() > 0 {
        assert(x.last() == a.last());
        if n == x.len() {
            assert(CarriageReturn::has(x[n - 1]));
        }
        if m < n {
            assert(CarriageReturn::has(x[m]));
        } else if n < m {
            assert(CarriageReturn::has(y[n]));
        }
        assert(t[n + 1] == a[n + 1]);
    }
}

/// The gaps of two texts with two line feeds between them.
proof fn lemma_gaps_concat(a: Seq<char>, b: Seq<char>, at: int)
    requires
        a.len() > 0 ==> a.last() != '\n' && a.last() != '\r',
    ensures
        gaps_from(a + seq!['\n', '\n'] + b, at) == gaps_from(a, at) + seq![
            (at + size(a), at + size(a) + 2),
        ] + gaps_from(b, at + size(a) + 2),
    decreases a.len(),
{
    let lf = seq!['\n', '\n'];
    let t = a + lf + b;
    lemma_two_line_feeds();
    if a.len() == 0 {
        lemma_size(a);
        let x = t.drop_first();
        lemma_run_front::<CarriageReturn>(x, true);
        assert(x[0] == '\n');
        if run_front::<CarriageReturn>(x, true) > 0 {
            assert(CarriageReturn::has(x[0]));
        }
        assert(gap_length(t) == 2);
        assert(t.take(2) =~= lf);
        assert(t.skip(2) =~= b);
        assert(gaps_from(t, at) =~= gaps_from(a, at) + seq![(at + size(a), at + size(a) + 2)]
            + gaps_from(b, at + size(a) + 2));
    } else {
        assert(t =~= a + (lf + b));
        lemma_gap_length_front(a, lf + b);
        let n = if gap_length(a) > 0 {
            gap_length(a)
        } else {
            1
        };
        let rest = a.skip(n);
        assert(t.take(n) =~= a.take(n));
        assert(t.skip(n) =~= rest + lf + b);
        assert(t.skip(1) =~= t.drop_first());
        assert(a.skip(1) =~= a.drop_first());
        assert(a =~= a.take(n) + rest);
        lemma_encode_concat(a.take(n), rest);
        if rest.len() > 0 {
            assert(rest.last() == a.last());
        }
        lemma_gaps_concat(rest, b, at + size(a.take(n)));
        assert(gaps_from(t, at) =~= gaps_from(a, at) + seq![(at + size(a), at + size(a) + 2)]
            + gaps_from(b, at + size(a) + 2));
    }
}

/// `gaps`, moved on by `by` bytes.
spec fn moved(gaps: Seq<(int, int)>, by: int) -> Seq<(int, int)> {
    gaps.map_values(|g: (int, int)| (g.0 + by, g.1 + by))
}

proof fn lemma_gaps_moved(t: Seq<char>, at: int, by: int)
    ensures
        gaps_from(t, at + by) == moved(gaps_from(t, at), by),
    decreases t.len(),
{
    if t.len() == 0 {
        assert(moved(gaps_from(t, at), by) =~= gaps_from(t, at + by));
    } else if 0 < gap_length(t) <= t.len() {
        let n = gap_length(t);
        lemma_gaps_moved(t.skip(n), at + size(t.take(n)), by);
        assert(moved(gaps_from(t, at), by) =~= gaps_from(t, at + by));
    } else {
        lemma_gaps_moved(t.drop_first(), at + size(t.take(1)), by);
    }
}

/// The texts of a paragraph's sentences do not depend on where the paragraph stands.
proof fn lemma_sentence_texts(p: Seq<char>, cuts: Seq<int>, i: int, a: int, j: int, b: int)
    ensures
        texts(sentences(p, cuts, i, a)) == texts(sentences(p, cuts, j, b)),
{
    assert(texts(sentences(p, cuts, i, a)) =~= texts(sentences(p, cuts, j, b)));
}

/// The texts of `n` paragraphs are the same in two texts that have the same paragraphs
/// with the same gaps between them, from paragraph number `k` of the second text on.
proof fn lemma_same_texts(
    rules: Rules,
    s: Seq<char>,
    g: Seq<(int, int)>,
    t: Seq<char>,
    h: Seq<(int, int)>,
    k: int,
    n: int,
)
    requires
        0 <= k,
        0 <= n,
        forall|i: int| 0 <= i < n ==> #[trigger] paragraph(s, g, i) == paragraph(t, h, k + i),
        forall|i: int|
            0 <= i < n - 1 ==> between(s, (#[trigger] g[i]).0, g[i].1) == between(
                t,
                h[k + i].0,
                h[k + i].1,
            ),
    ensures
        n > 0 ==> texts(boundaries_upto(rules, t, h, k + n)) == texts(
            boundaries_upto(rules, t, h, k),
        ) + texts(gap_after(t, h, k)) + texts(boundaries_upto(rules, s, g, n)),
    decreases n,
{
    if n > 0 {
        let i = n - 1;
        lemma_same_texts(rules, s, g, t, h, k, i);
        let p = paragraph(s, g, i);
        assert(p == paragraph(t, h, k + i));
        lemma_sentence_texts(
            p,
            rules.cuts(p),
            before(s, paragraph_start(g, i)).len() as int,
            paragraph_start(g, i),
            before(t, paragraph_start(h, k + i)).len() as int,
            paragraph_start(h, k + i),
        );
        let own = texts(paragraph_sentences(rules, s, g, i));
        assert(own == texts(paragraph_sentences(rules, t, h, k + i)));
        let whole = texts(boundaries_upto(rules, t, h, k + n));
        let front = texts(boundaries_upto(rules, t, h, k + i));
        assert(whole =~= front + texts(gap_after(t, h, k + i)) + own);
        if i == 0 {
            assert(texts(boundaries_upto(rules, s, g, 1)) =~= own) by {
                reveal_with_fuel(boundaries_upto, 2);
            }
        } else {
            let gap = texts(gap_after(t, h, k + i));
            assert(gap =~= seq![between(s, g[i - 1].0, g[i - 1].1)]);
            assert(texts(boundaries_upto(rules, s, g, n)) =~= texts(
                boundaries_upto(rules, s, g, i),
            ) + gap + own);
        }
        assert(whole =~= texts(boundaries_upto(rules, t, h, k)) + texts(gap_after(t, h, k)) + texts(
            boundaries_upto(rules, s, g, n),
        ));
    }
}

/// The paragraphs of a piece of `t`, from `by` to `by + size(s)`, are paragraphs of `t` from
/// number `k` on, when the gaps are the same.
proof fn lemma_piece_paragraphs(
    s: Seq<char>,
    g: Seq<(int, int)>,
    t: Seq<char>,
    h: Seq<(int, int)>,
    by: int,
    k: int,
)
    requires
        are_gaps(s, g),
        is_cut(t, by),
        is_cut(t, by + size(s)),
        between(t, by, by + size(s)) == s,
        0 <= k,
        k + g.len() <= h.len(),
        forall|i: int| 0 <= i < g.len() ==> #[trigger] h[k + i] == (g[i].0 + by, g[i].1 + by),
        paragraph_start(h, k) == by,
        paragraph_end(t, h, k + g.len()) == by + size(s),
    ensures
        forall|i: int| 0 <= i < g.len() + 1 ==> #[trigger] paragraph(s, g, i) == paragraph(t, h, k + i),
        forall|i: int|
            0 <= i < g.len() ==> between(s, (#[trigger] g[i]).0, g[i].1) == between(
                t,
                h[k + i].0,
                h[k + i].1,
            ),
{
    lemma_nested(t, by, by + size(s));
    lemma_cut_ends(s);
    let n = g.len() as int;
    assert forall|i: int| 0 <= i < n + 1 implies #[trigger] paragraph(s, g, i) == paragraph(
        t,
        h,
        k + i,
    ) by {
        lemma_paragraph(s, g, i);
        if i > 0 {
            assert(h[k + (i - 1)] == (g[i - 1].0 + by, g[i - 1].1 + by));
        }
        if i < n {
            assert(h[k + i] == (g[i].0 + by, g[i].1 + by));
        }
        let from = paragraph_start(g, i);
        let to = paragraph_end(s, g, i);
        assert(between(s, from, to) == between(t, by + from, by + to));
    }
    assert forall|i: int| 0 <= i < n implies between(s, (#[trigger] g[i]).0, g[i].1) == between(
        t,
        h[k + i].0,
        h[k + i].1,
    ) by {
        assert(is_span(s, g[i]));
        assert(h[k + i] == (g[i].0 + by, g[i].1 + by));
        assert(between(s, g[i].0, g[i].1) == between(t, by + g[i].0, by + g[i].1));
    }
}

/// Two texts with two line feeds between them are pieces of the whole.
proof fn lemma_two_pieces(a: Seq<char>, b: Seq<char>)
    ensures
        ({
            let t = a + "\n\n"@ + b;
            let mid = size(a);
            &&& is_cut(t, mid) && is_cut(t, mid + 2)
            &&& size(t) == mid + 2 + size(b)
            &&& between(t, 0, mid) == a
            &&& between(t, mid, mid + 2) == "\n\n"@
            &&& between(t, mid + 2, size(t)) == b
        }),
{
    lemma_two_line_feeds();
    let lf = "\n\n"@;
    let t = a + lf + b;
    let mid = size(a);
    lemma_encode_concat(a, lf);
    lemma_encode_concat(a + lf, b);
    lemma_cut_ends(t);
    lemma_cut_ends(b);
    lemma_cut_ends(lf);
    assert(encode_utf8(t).subrange(0, mid) =~= encode_utf8(a));
    assert(encode_utf8(t).subrange(mid, mid + 2) =~= encode_utf8(lf));
    assert(encode_utf8(t).subrange(mid + 2, size(t)) =~= encode_utf8(b));
    lemma_piece(t, 0, mid, a);
    lemma_piece(t, mid, mid + 2, lf);
    lemma_piece(t, mid + 2, size(t), b);
    assert(encode_utf8(t)[mid] == encode_utf8(lf)[0]);
    if size(b) > 0 {
        assert(encode_utf8(t)[mid + 2] == encode_utf8(b)[0]);
    }
}

/// The gaps of two texts with two line feeds between them are those of the first, the one
/// between them, and those of the second.
proof fn lemma_gaps_of_two(a: Seq<char>, b: Seq<char>)
    requires
        a.len() > 0 ==> a.last() != '\n' && a.last() != '\r',
    ensures
        gaps_of(a + "\n\n"@ + b) == gaps_of(a) + seq![(size(a), size(a) + 2)] + moved(
            gaps_of(b),
            size(a) + 2,
        ),
{
    lemma_two_line_feeds();
    lemma_gaps_concat(a, b, 0);
    lemma_gaps_moved(b, 0, size(a) + 2);
}

/// The first paragraphs of two texts with two line feeds between them are those of the
/// first text.
proof fn lemma_first_texts(rules: Rules, a: Seq<char>, b: Seq<char>)
    requires
        a.len() > 0 ==> a.last() != '\n' && a.last() != '\r',
    ensures
        ({
            let t = a + "\n\n"@ + b;
            let n = gaps_of(a).len() as int + 1;
            texts(boundaries_upto(rules, t, gaps_of(t), n)) == texts(
                boundaries(rules, a, gaps_of(a)),
            )
        }),
{
    let t = a + "\n\n"@ + b;
    let g = gaps_of(a);
    let all = gaps_of(t);
    let n = g.len() as int;
    lemma_gaps_of_two(a, b);
    lemma_two_pieces(a, b);
    lemma_gaps_of(a);
    lemma_cut_ends(t);
    assert(all[n] == (size(a), size(a) + 2));
    assert forall|i: int| 0 <= i < n implies #[trigger] all[0 + i] == (g[i].0 + 0, g[i].1 + 0) by {}
    lemma_piece_paragraphs(a, g, t, all, 0, 0);
    lemma_same_texts(rules, a, g, t, all, 0, n + 1);
    assert(texts(boundaries_upto(rules, t, all, 0)) + texts(gap_after(t, all, 0)) + texts(
        boundaries_upto(rules, a, g, n + 1),
    ) =~= texts(boundaries_upto(rules, a, g, n + 1)));
}

/// The other paragraphs are those of the second text, with the gap before them.
proof fn lemma_second_texts(rules: Rules, a: Seq<char>, b: Seq<char>)
    requires
        a.len() > 0 ==> a.last() != '\n' && a.last() != '\r',
    ensures
        ({
            let t = a + "\n\n"@ + b;
            let n = gaps_of(a).len() as int + 1;
            texts(boundaries(rules, t, gaps_of(t))) == texts(
                boundaries_upto(rules, t, gaps_of(t), n),
            ) + seq!["\n\n"@] + texts(boundaries(rules, b, gaps_of(b)))
        }),
{
    let t = a + "\n\n"@ + b;
    let h = gaps_of(b);
    let all = gaps_of(t);
    let by = size(a) + 2;
    let n = gaps_of(a).len() as int;
    let m = h.len() as int;
    lemma_gaps_of_two(a, b);
    lemma_two_pieces(a, b);
    lemma_gaps_of(b);
    lemma_cut_ends(t);
    assert(all[n] == (size(a), by));
    assert forall|i: int| 0 <= i < m implies #[trigger] all[n + 1 + i] == (
        h[i].0 + by,
        h[i].1 + by,
    ) by {
        assert(all[n + 1 + i] == moved(h, by)[i]);
    }
    lemma_piece_paragraphs(b, h, t, all, by, n + 1);
    lemma_same_texts(rules, b, h, t, all, n + 1, m + 1);
    assert(texts(gap_after(t, all, n + 1)) =~= seq!["\n\n"@]);
}

/// The sentences of two texts with two line feeds between them are those of the first,
/// the gap, and those of the second. The first text must not end with a line feed or a
/// carriage return, which would belong to the gap.
pub proof fn law_paragraphs_are_divided_apart(rules: Rules, a: Seq<char>, b: Seq<char>)
    requires
        a.len() > 0 ==> a.last() != '\n' && a.last() != '\r',
    ensures
        ({
            let t = a + "\n\n"@ + b;
            texts(boundaries(rules, t, gaps_of(t))) == texts(boundaries(rules, a, gaps_of(a)))
                + seq!["\n\n"@] + texts(boundaries(rules, b, gaps_of(b)))
        }),
{
    lemma_first_texts(rules, a, b);
    lemma_second_texts(rules, a, b);
}

proof fn lemma_two_line_feeds()
    ensures
        "\n\n"@ == seq!['\n', '\n'],
        size(seq!['\n', '\n']) == 2,
{
    reveal_strlit("\n\n");
    let t = "\n\n"@;
    assert(t =~= seq!['\n', '\n']);
    reveal_with_fuel(encode_utf8, 3);
    assert(t.drop_first() =~= seq!['\n']);
    assert(t.drop_first().drop_first() =~= Seq::<char>::empty());
}

/// True when `t` is a piece of `text`.
pub open spec fn is_slice(text: Seq<char>, t: Seq<char>) -> bool {
    exists|m: (int, int)| #[trigger] is_span(text, m) && t == between(text, m.0, m.1)
}

/// Every sentence, and every gap, is a piece of the text just as it stands there.
pub proof fn law_boundaries_are_slices(rules: Rules, text: Seq<char>, gaps: Seq<(int, int)>)
    requires
        are_gaps(text, gaps),
        all_covered(rules, text, gaps, gaps.len() as int + 1),
    ensures
        forall|k: int|
            0 <= k < boundaries(rules, text, gaps).len() ==> is_slice(
                text,
                (#[trigger] boundaries(rules, text, gaps)[k]).text,
            ),
{
    law_boundaries_make_up_text(rules, text, gaps);
    let bs = boundaries(rules, text, gaps);
    assert forall|k: int| 0 <= k < bs.len() implies is_slice(text, (#[trigger] bs[k]).text) by {
        assert(located(text, bs[k]));
        let m = (bs[k].start_byte, bs[k].end_byte);
        assert(is_span(text, m));
    }
}

/// How many gaps between paragraphs are among `bs`.
pub open spec fn break_count(bs: Seq<Boundary>) -> int
    decreases bs.len(),
{
    if bs.len() == 0 {
        0
    } else {
        break_count(bs.drop_last()) + if bs.last().is_paragraph_break {
            1int
        } else {
            0
        }
    }
}

proof fn lemma_break_count_concat(a: Seq<Boundary>, b: Seq<Boundary>)
    ensures
        break_count(a + b) == break_count(a) + break_count(b),
    decreases b.len(),
{
    if b.len() == 0 {
        assert(a + b =~= a);
    } else {
        assert((a + b).drop_last() =~= a + b.drop_last());
        lemma_break_count_concat(a, b.drop_last());
    }
}

proof fn lemma_no_breaks(bs: Seq<Boundary>)
    requires
        forall|i: int| 0 <= i < bs.len() ==> !(#[trigger] bs[i]).is_paragraph_break,
    ensures
        break_count(bs) == 0,
    decreases bs.len(),
{
    if bs.len() > 0 {
        lemma_no_breaks(bs.drop_last());
        assert(!bs[bs.len() - 1].is_paragraph_break);
    }
}

proof fn lemma_upto_breaks(rules: Rules, text: Seq<char>, gaps: Seq<(int, int)>, n: int)
    ensures
        n > 0 ==> break_count(boundaries_upto(rules, text, gaps, n)) == n - 1,
    decreases n,
{
    if n > 0 {
        let i = n - 1;
        lemma_upto_breaks(rules, text, gaps, i);
        let own = paragraph_sentences(rules, text, gaps, i);
        lemma_no_breaks(own);
        lemma_break_count_concat(
            boundaries_upto(rules, text, gaps, i),
            paragraph_boundaries(rules, text, gaps, i),
        );
        if i > 0 {
            let gap = seq![gap_boundary(text, gaps[i - 1])];
            lemma_break_count_concat(gap, own);
            assert(gap.drop_last() =~= Seq::<Boundary>::empty());
            reveal_with_fuel(break_count, 2);
            assert(break_count(gap) == 1);
        }
    }
}

/// There are as many breaks between paragraphs among the boundaries as there are gaps.
pub proof fn law_one_break_for_each_gap(rules: Rules, text: Seq<char>, gaps: Seq<(int, int)>)
    ensures
        break_count(boundaries(rules, text, gaps)) == gaps.len(),
{
    lemma_upto_breaks(rules, text, gaps, gaps.len() as int + 1);
}

} // verus!
