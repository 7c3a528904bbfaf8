//! Where a paragraph is divided.

use vstd::prelude::*;

use crate::chars::{
    ascii_digit, ascii_upper, lemma_run_front, run_front, unicode_alphabetic, white_space,
    CharClass, Dot, Emphatic, HorizontalSpace, White,
};
use crate::constants::{
    terminator, EXCLAMATION_WORDS, NUMBERED_REFERENCE_PATTERN, QUOTE_PAIRS, Terminator,
};
use crate::languages::cuts::{divides, lemma_pushed, lemma_with_cut, pushed, with_starts};
use crate::languages::language::lemma_next_word;
use crate::languages::ranges::{no_marks, SkippableRange};
use crate::languages::rules::{
    is_start, lemma_forbids, lemma_forbids_bounds, lemma_no_orphan, lemma_with_list, next_word,
    skippable_ranges, with_list, Rules,
};
use crate::languages::terminators::{folded, is_blank, lemma_folded, lemma_groups, lemma_run_length};
use crate::laws::marks::{
    law_terminators_of_ascii, law_terminators_of_other_scripts, law_white_space_is_no_terminator,
};
use crate::laws::parts::{
    all_white, ends_with_word, is_listed_in, is_seen, law_behind_run, lemma_front, lemma_meet_three,
    starts,
};
use crate::laws::sentences::{around, has_no_digit, law_terminator_ends_sentence, lemma_mark_firsts};
use crate::pattern::{
    are_spans, find_facts, find_iter_facts, group_count, groups, is_span, regex_find,
    regex_find_iter, run_length, runs_from, sentence_break_pattern,
};
use crate::utf8::{
    after, before, between, is_cut, lemma_between, lemma_cut_ends, lemma_encode_concat, lemma_join,
    lemma_nested, lemma_size, lemma_split, lemma_take, lemma_whole, size,
};
use crate::words::is_among;

verus! {

/// True when no range lies strictly around `b`.
pub open spec fn is_open(ranges: Seq<SkippableRange>, b: int) -> bool {
    forall|k: int| 0 <= k < ranges.len() ==> !((#[trigger] ranges[k]).start < b < ranges[k].end)
}

/// True when the terminator number `i` ends a sentence at `x`, and no range lies around `x`.
pub open spec fn ends_at(
    rules: Rules,
    p: Seq<char>,
    ms: Seq<(int, int)>,
    ranges: Seq<SkippableRange>,
    i: int,
    x: int,
) -> bool {
    rules.boundary(p, ms[i].0, ms[i].1) == Some(x) && is_open(ranges, x)
}

pub proof fn lemma_no_forbidding(
    rules: Rules,
    p: Seq<char>,
    ranges: Seq<SkippableRange>,
    b: int,
    m: (int, int),
    k: int,
)
    requires
        0 <= k,
        is_open(ranges, b),
    ensures
        rules.forbids(p, ranges, b, m, k) is None,
    decreases ranges.len() - k,
{
    if k < ranges.len() {
        assert(!(ranges[k].start < b < ranges[k].end));
        lemma_no_forbidding(rules, p, ranges, b, m, k + 1);
    }
}

proof fn lemma_found_exact(
    rules: Rules,
    p: Seq<char>,
    ms: Seq<(int, int)>,
    ranges: Seq<SkippableRange>,
    n: int,
)
    requires
        no_marks(p),
        forall|k: int| 0 <= k < ranges.len() ==> !(#[trigger] ranges[k]).quote(),
        0 <= n <= ms.len(),
        forall|i: int, j: int, b: int, c: int|
            0 <= i < j < n && #[trigger] ends_at(rules, p, ms, ranges, i, b) && #[trigger] ends_at(
                rules,
                p,
                ms,
                ranges,
                j,
                c,
            ) ==> b <= c,
        forall|i: int, b: int|
            0 <= i < n && #[trigger] ends_at(rules, p, ms, ranges, i, b) ==> 0 <= b,
    ensures
        ({
            let cuts = rules.found(p, ranges, ms.take(n));
            &&& cuts.len() > 0
            &&& cuts.last() == 0 || exists|i: int| 0 <= i < n && #[trigger] ends_at(rules, p, ms, ranges, i, cuts.last())
            &&& forall|x: int| #[trigger] cuts.contains(x) <==> x == 0 || exists|i: int|
                0 <= i < n && #[trigger] ends_at(rules, p, ms, ranges, i, x)
        }),
    decreases n,
{
    if n == 0 {
        assert(rules.found(p, ranges, ms.take(0)) =~= seq![0]);
        assert forall|x: int| #[trigger] seq![0int].contains(x) <==> x == 0 by {
            assert(seq![0int][0] == 0);
        }
    } else {
        lemma_found_exact(rules, p, ms, ranges, n - 1);
        assert(ms.take(n).drop_last() =~= ms.take(n - 1));
        assert(ms.take(n).last() == ms[n - 1]);
        let m = ms[n - 1];
        let was = rules.found(p, ranges, ms.take(n - 1));
        let cuts = rules.found(p, ranges, ms.take(n));
        assert(cuts == rules.after_match(p, ranges, was, m));
        if let Some(b) = rules.boundary(p, m.0, m.1) {
            if is_open(ranges, b) {
                lemma_no_forbidding(rules, p, ranges, b, m, 0);
                lemma_no_orphan(p, b, ranges, 0);
                assert(cuts == pushed(was, b));
                assert(ends_at(rules, p, ms, ranges, n - 1, b));
                assert(was.last() <= b);
                assert forall|x: int| #[trigger] cuts.contains(x) <==> was.contains(x) || x == b by {
                    if was.contains(x) {
                        assert(cuts[was.index_of(x)] == x);
                    }
                    if was.last() < b {
                        assert(cuts[was.len() as int] == b);
                        if cuts.contains(x) && x != b {
                            let i = cuts.index_of(x);
                            assert(was[i] == x);
                        }
                    } else {
                        assert(was[was.len() - 1] == b);
                    }
                }
                assert(cuts.last() == b);
            } else {
                let k = choose|k: int|
                    0 <= k < ranges.len() && (#[trigger] ranges[k]).start < b < ranges[k].end;
                assert(!ranges[k].quote());
                lemma_forbids(rules, p, ranges, b, m, 0, k);
                lemma_forbids_bounds(rules, p, ranges, b, m, 0);
                assert(cuts == was);
            }
        }
        assert forall|x: int| #[trigger] cuts.contains(x) <==> x == 0 || exists|i: int|
            0 <= i < n && #[trigger] ends_at(rules, p, ms, ranges, i, x) by {
            if exists|i: int| 0 <= i < n && #[trigger] ends_at(rules, p, ms, ranges, i, x) {
                let i = choose|i: int| 0 <= i < n && #[trigger] ends_at(rules, p, ms, ranges, i, x);
                if i < n - 1 {
                    assert(was.contains(x));
                }
            }
            if was.contains(x) && x != 0 {
                let i = choose|i: int|
                    0 <= i < n - 1 && #[trigger] ends_at(rules, p, ms, ranges, i, x);
                assert(0 <= i < n && ends_at(rules, p, ms, ranges, i, x));
            }
        }
        if cuts == was && was.last() != 0 {
            let i = choose|i: int|
                0 <= i < n - 1 && #[trigger] ends_at(rules, p, ms, ranges, i, was.last());
            assert(0 <= i < n && ends_at(rules, p, ms, ranges, i, cuts.last()));
        }
    }
}

proof fn lemma_with_starts_exact(p: Seq<char>, cuts: Seq<int>, starts: Seq<usize>, n: int)
    requires
        divides(p, cuts),
        0 <= n <= starts.len(),
        forall|i: int| 0 <= i < starts.len() ==> is_cut(p, #[trigger] starts[i] as int),
    ensures
        divides(p, with_starts(cuts, starts.take(n))),
        forall|x: int| #[trigger]
            with_starts(cuts, starts.take(n)).contains(x) <==> cuts.contains(x) || exists|i: int|
                0 <= i < n && #[trigger] starts[i] == x,
    decreases n,
{
    if n > 0 {
        lemma_with_starts_exact(p, cuts, starts, n - 1);
        assert(starts.take(n).drop_last() =~= starts.take(n - 1));
        assert(is_cut(p, starts[n - 1] as int));
        lemma_with_cut(p, with_starts(cuts, starts.take(n - 1)), starts[n - 1] as int);
        let r = with_starts(cuts, starts.take(n));
        assert forall|x: int| #[trigger] r.contains(x) <==> cuts.contains(x) || exists|i: int|
            0 <= i < n && #[trigger] starts[i] == x by {
            let earlier = with_starts(cuts, starts.take(n - 1));
            if earlier.contains(x) && !cuts.contains(x) {
                let i = choose|i: int| 0 <= i < n - 1 && #[trigger] starts[i] == x;
                assert(0 <= i < n && starts[i] == x);
            }
            if exists|i: int| 0 <= i < n && #[trigger] starts[i] == x {
                let i = choose|i: int| 0 <= i < n && #[trigger] starts[i] == x;
                if i < n - 1 {
                    assert(earlier.contains(x));
                }
            }
        }
    }
}

/// A paragraph without quotation marks is divided at its two ends, where the items of lists
/// start, and where its terminators end a sentence outside of brackets, addresses and list
/// items; nowhere else.
pub proof fn law_where_a_paragraph_is_divided(
    rules: Rules,
    p: Seq<char>,
    ms: Seq<(int, int)>,
    ranges: Seq<SkippableRange>,
    starts: Seq<usize>,
)
    requires
        no_marks(p),
        forall|k: int|
            0 <= k < with_list(ranges, starts, size(p)).len() ==> !(#[trigger] with_list(
                ranges,
                starts,
                size(p),
            )[k]).quote(),
        forall|i: int| 0 <= i < starts.len() ==> is_cut(p, #[trigger] starts[i] as int),
        divides(p, rules.found(p, with_list(ranges, starts, size(p)), ms)),
        // Sentences end in the order of their terminators.
        forall|i: int, j: int, b: int, c: int|
            0 <= i < j < ms.len() && #[trigger] ends_at(
                rules,
                p,
                ms,
                with_list(ranges, starts, size(p)),
                i,
                b,
            ) && #[trigger] ends_at(rules, p, ms, with_list(ranges, starts, size(p)), j, c) ==> b
                <= c,
        forall|i: int, b: int|
            0 <= i < ms.len() && #[trigger] ends_at(
                rules,
                p,
                ms,
                with_list(ranges, starts, size(p)),
                i,
                b,
            ) ==> 0 <= b,
    ensures
        forall|x: int| #[trigger]
            rules.cuts_with(p, ms, ranges, starts).contains(x) <==> x == 0 || x == size(p)
                || is_start(starts, x) || exists|i: int|
                0 <= i < ms.len() && #[trigger] ends_at(
                    rules,
                    p,
                    ms,
                    with_list(ranges, starts, size(p)),
                    i,
                    x,
                ),
{
    let all = with_list(ranges, starts, size(p));
    lemma_found_exact(rules, p, ms, all, ms.len() as int);
    assert(ms.take(ms.len() as int) =~= ms);
    let found = rules.found(p, all, ms);
    lemma_with_starts_exact(p, found, starts, starts.len() as int);
    assert(starts.take(starts.len() as int) =~= starts);
    let cuts = with_starts(found, starts);
    let r = rules.cuts_with(p, ms, ranges, starts);
    assert(r == pushed(cuts, size(p)));
    assert(is_cut(p, cuts[cuts.len() - 1]));
    assert forall|x: int| #[trigger] r.contains(x) <==> cuts.contains(x) || x == size(p) by {
        if cuts.contains(x) {
            assert(r[cuts.index_of(x)] == x);
        }
        if cuts.last() < size(p) {
            assert(r[cuts.len() as int] == size(p));
            if r.contains(x) && x != size(p) {
                assert(cuts[r.index_of(x)] == x);
            }
        } else {
            assert(cuts[cuts.len() - 1] == size(p));
        }
    }
}

/// True when `m` is a part of `p` that starts with a terminator.
pub open spec fn is_run_in(p: Seq<char>, m: (int, int)) -> bool {
    &&& is_span(p, m)
    &&& m.0 < m.1
    &&& after(p, m.0).len() > 0
    &&& terminator(after(p, m.0)[0])
}

/// Runs of terminators start with terminators, and stand one behind the other.
pub proof fn law_runs_start_with_terminators(p: Seq<char>, at: int)
    requires
        is_cut(p, at),
    ensures
        are_spans(p, runs_from(after(p, at), at)),
        forall|i: int|
            0 <= i < runs_from(after(p, at), at).len() ==> is_run_in(
                p,
                #[trigger] runs_from(after(p, at), at)[i],
            ) && at <= runs_from(after(p, at), at)[i].0,
    decreases after(p, at).len(),
{
    let rest = after(p, at);
    let runs = runs_from(rest, at);
    if rest.len() == 0 {
    } else if terminator(rest[0]) && 0 < run_length(rest) <= rest.len() {
        let n = run_length(rest);
        let to = at + size(rest.take(n));
        lemma_take(p, at, n);
        law_runs_start_with_terminators(p, to);
        let later = runs_from(after(p, to), to);
        assert forall|i: int| 0 <= i < runs.len() implies is_run_in(p, #[trigger] runs[i]) && at
            <= runs[i].0 by {
            if i > 0 {
                assert(runs[i] == later[i - 1]);
            }
        }
        assert forall|i: int, j: int| 0 <= i < j < runs.len() implies (#[trigger] runs[i]).1 <= (
        #[trigger] runs[j]).0 by {
            assert(runs[j] == later[j - 1]);
            if i > 0 {
                assert(runs[i] == later[i - 1]);
            }
        }
    } else {
        lemma_take(p, at, 1);
        assert(rest.skip(1) =~= rest.drop_first());
        let to = at + size(rest.take(1));
        law_runs_start_with_terminators(p, to);
        let later = runs_from(after(p, to), to);
        assert(runs == later);
        assert forall|i: int| 0 <= i < runs.len() implies is_run_in(p, #[trigger] runs[i]) && at
            <= runs[i].0 by {
            assert(to <= later[i].0);
        }
    }
}

proof fn lemma_folded_runs(p: Seq<char>, ms: Seq<(int, int)>)
    requires
        are_spans(p, ms),
        forall|i: int| 0 <= i < ms.len() ==> is_run_in(p, #[trigger] ms[i]),
    ensures
        are_spans(p, folded(p, ms)),
        forall|i: int| 0 <= i < folded(p, ms).len() ==> is_run_in(p, #[trigger] folded(p, ms)[i]),
    decreases ms.len(),
{
    lemma_folded(p, ms);
    if ms.len() > 0 {
        let front = ms.drop_last();
        assert(are_spans(p, front)) by {
            assert forall|i: int| 0 <= i < front.len() implies is_span(p, #[trigger] front[i]) by {
                assert(is_span(p, ms[i]));
            }
            assert forall|i: int, j: int| 0 <= i < j < front.len() implies (#[trigger] front[i]).1
                <= (#[trigger] front[j]).0 by {
                assert(ms[i].1 <= ms[j].0);
            }
        }
        assert forall|i: int| 0 <= i < front.len() implies is_run_in(p, #[trigger] front[i]) by {
            assert(is_run_in(p, ms[i]));
        }
        lemma_folded_runs(p, front);
        let out = folded(p, front);
        let all = folded(p, ms);
        assert(is_run_in(p, ms[ms.len() - 1]));
        assert forall|i: int| 0 <= i < all.len() implies is_run_in(p, #[trigger] all[i]) by {
            assert(is_span(p, all[i]));
            if i < out.len() {
                assert(is_run_in(p, out[i]));
                if i == out.len() - 1 && all.len() == out.len() {
                    lemma_folded(p, front);
                    assert(front.len() > 0);
                    assert(ms[front.len() - 1].1 <= ms[ms.len() - 1].0);
                }
            }
        }
    }
}

/// Without reference numbers, a sentence ends behind its terminator and the white space
/// that follows, and so before the next terminator.
pub proof fn law_sentence_ends_before_next_terminator(
    rules: Rules,
    p: Seq<char>,
    m: (int, int),
    b: int,
    next: (int, int),
)
    requires
        is_run_in(p, m),
        rules.boundary_with(p, m.0, m.1, None) == Some(b),
    ensures
        is_cut(p, b),
        m.1 <= b,
        all_white(between(p, m.1, b)),
        is_run_in(p, next) && m.1 <= next.0 ==> b <= next.0,
{
    lemma_cut_ends(p);
    lemma_between(p, m.0, m.1);
    lemma_size(between(p, m.0, m.1));
    let a = before(p, m.0);
    let run = between(p, m.0, m.1);
    let rest = after(p, m.1);
    lemma_join(p, 0, m.0, m.1);
    lemma_split(p, m.1);
    lemma_split(p, m.0);
    assert(p =~= a + run + rest);
    law_behind_run(a, run, rest);
    let x = next_word(p, m.1);
    lemma_next_word(p, m.1);
    lemma_run_front::<White>(x, true);
    let n = run_front::<White>(x, true);
    let w = x.take(n);
    lemma_cut_ends(x);
    lemma_whole(x);
    lemma_take(x, 0, n);
    lemma_nested(p, m.1, m.1 + size(x));
    assert(is_cut(x, size(w)));
    if n == 0 {
        assert(w =~= Seq::<char>::empty());
        lemma_size(w);
    }
    assert(b == m.1 + size(w));
    assert(between(x, 0, size(w)) == between(p, m.1 + 0, m.1 + size(w)));
    assert(between(p, m.1, b) == w);
    assert forall|i: int| 0 <= i < w.len() implies white_space(#[trigger] w[i]) by {
        assert(White::has(x[i]));
    }
    if is_run_in(p, next) && m.1 <= next.0 && next.0 < b {
        // The terminator would be white space.
        lemma_join(p, m.1, next.0, b);
        lemma_join(p, next.0, b, size(p));
        lemma_between(p, next.0, b);
        lemma_size(between(p, next.0, b));
        let i = between(p, m.1, next.0).len() as int;
        let c = between(p, next.0, b)[0];
        assert(w[i] == c);
        assert(after(p, next.0)[0] == c);
        law_white_space_is_no_terminator(c);
    }
}

/// What the expressions for reference numbers and for runs of terminators find in `p` is
/// what they stand for.
pub open spec fn is_told_of(p: Seq<char>) -> bool {
    &&& find_iter_facts(
        sentence_break_pattern(),
        p,
        regex_find_iter(sentence_break_pattern(), p),
    )
    &&& forall|at: int|
        find_facts(
            NUMBERED_REFERENCE_PATTERN@,
            #[trigger] next_word(p, at),
            regex_find(NUMBERED_REFERENCE_PATTERN@, next_word(p, at)),
        )
}

/// Without `[` there are no reference numbers.
proof fn lemma_no_reference(rules: Rules, p: Seq<char>, m: (int, int))
    requires
        is_told_of(p),
        !p.contains('['),
        is_run_in(p, m),
    ensures
        rules.boundary(p, m.0, m.1) == rules.boundary_with(p, m.0, m.1, None),
{
    lemma_cut_ends(p);
    lemma_between(p, m.0, m.1);
    lemma_size(between(p, m.0, m.1));
    lemma_join(p, 0, m.0, m.1);
    lemma_split(p, m.1);
    lemma_split(p, m.0);
    assert(p =~= before(p, m.0) + between(p, m.0, m.1) + after(p, m.1));
    law_behind_run(before(p, m.0), between(p, m.0, m.1), after(p, m.1));
    let x = next_word(p, m.1);
    lemma_next_word(p, m.1);
    if regex_find(NUMBERED_REFERENCE_PATTERN@, x) is Some {
        lemma_whole(x);
        lemma_size(x);
        lemma_join(p, 0, m.1, m.1 + size(x));
        lemma_split(p, m.1 + size(x));
        let i = before(p, m.1).len() as int;
        assert(p[i] == x[0]);
    }
}

proof fn lemma_found_divides(
    rules: Rules,
    p: Seq<char>,
    ms: Seq<(int, int)>,
    ranges: Seq<SkippableRange>,
    n: int,
)
    requires
        is_told_of(p),
        no_marks(p),
        !p.contains('['),
        forall|k: int| 0 <= k < ranges.len() ==> !(#[trigger] ranges[k]).quote(),
        forall|i: int| 0 <= i < ms.len() ==> is_run_in(p, #[trigger] ms[i]),
        0 <= n <= ms.len(),
    ensures
        divides(p, rules.found(p, ranges, ms.take(n))),
    decreases n,
{
    lemma_cut_ends(p);
    if n == 0 {
        assert(rules.found(p, ranges, ms.take(0)) =~= seq![0]);
    } else {
        lemma_found_divides(rules, p, ms, ranges, n - 1);
        assert(ms.take(n).drop_last() =~= ms.take(n - 1));
        assert(ms.take(n).last() == ms[n - 1]);
        let m = ms[n - 1];
        let was = rules.found(p, ranges, ms.take(n - 1));
        assert(is_run_in(p, m));
        lemma_no_reference(rules, p, m);
        if let Some(b) = rules.boundary(p, m.0, m.1) {
            law_sentence_ends_before_next_terminator(rules, p, m, b, m);
            lemma_no_orphan(p, b, ranges, 0);
            lemma_forbids_bounds(rules, p, ranges, b, m, 0);
            lemma_pushed(p, was, b);
        }
    }
}

/// A paragraph without quotation marks and reference numbers is divided at its two ends,
/// where the items of lists start, and where a run of its terminators ends a sentence
/// outside of brackets, addresses and list items; nowhere else.
pub proof fn law_plain_paragraph_is_divided(rules: Rules, p: Seq<char>)
    requires
        rules.break_pattern == sentence_break_pattern(),
        is_told_of(p),
        no_marks(p),
        !p.contains('['),
        forall|k: int| 0 <= k < skippable_ranges(p).len() ==> !(#[trigger] skippable_ranges(p)[k]).quote(),
        rules.lists_lie_in(p),
    ensures
        forall|x: int| #[trigger]
            rules.cuts(p).contains(x) <==> x == 0 || x == size(p) || is_start(rules.starts(p), x)
                || exists|i: int|
                0 <= i < folded(p, runs_from(p, 0)).len() && #[trigger] ends_at(
                    rules,
                    p,
                    folded(p, runs_from(p, 0)),
                    with_list(skippable_ranges(p), rules.starts(p), size(p)),
                    i,
                    x,
                ),
{
    let runs = runs_from(p, 0);
    let ms = folded(p, runs);
    let starts = rules.starts(p);
    let ranges = skippable_ranges(p);
    let all = with_list(ranges, starts, size(p));
    lemma_cut_ends(p);
    lemma_whole(p);
    law_runs_start_with_terminators(p, 0);
    lemma_folded_runs(p, runs);
    assert forall|k: int| 0 <= k < all.len() implies !(#[trigger] all[k]).quote() by {
        if starts.len() > 0 {
            lemma_with_list(ranges, starts, size(p));
            if all[k].quote() {
                let i = ranges.index_of(all[k]);
                assert(ranges[i] == all[k]);
            }
        }
    }
    lemma_found_divides(rules, p, ms, all, ms.len() as int);
    assert(ms.take(ms.len() as int) =~= ms);
    assert forall|i: int, b: int|
        0 <= i < ms.len() && #[trigger] ends_at(rules, p, ms, all, i, b) implies 0 <= b by {
        assert(is_run_in(p, ms[i]));
        lemma_no_reference(rules, p, ms[i]);
        law_sentence_ends_before_next_terminator(rules, p, ms[i], b, ms[i]);
    }
    assert forall|i: int, j: int, b: int, c: int|
        0 <= i < j < ms.len() && #[trigger] ends_at(rules, p, ms, all, i, b) && #[trigger] ends_at(
            rules,
            p,
            ms,
            all,
            j,
            c,
        ) implies b <= c by {
        assert(is_run_in(p, ms[i]) && is_run_in(p, ms[j]));
        assert(ms[i].1 <= ms[j].0);
        lemma_no_reference(rules, p, ms[i]);
        lemma_no_reference(rules, p, ms[j]);
        law_sentence_ends_before_next_terminator(rules, p, ms[i], b, ms[j]);
        law_sentence_ends_before_next_terminator(rules, p, ms[j], c, ms[j]);
    }
    law_where_a_paragraph_is_divided(rules, p, ms, ranges, starts);
}

proof fn lemma_groups_hold<C: CharClass>(t: Seq<char>)
    ensures
        0 <= groups::<C>(t) <= t.len(),
        forall|i: int|
            0 <= i < groups::<C>(t) ==> C::has(#[trigger] t[i]) || HorizontalSpace::has(t[i]),
    decreases t.len(),
{
    lemma_groups::<C>(t);
    let n = run_front::<HorizontalSpace>(t, true);
    lemma_run_front::<HorizontalSpace>(t, true);
    if 0 < n < t.len() && C::has(t[n]) {
        let rest = t.skip(n + 1);
        lemma_groups_hold::<C>(rest);
        assert forall|i: int| 0 <= i < groups::<C>(t) implies C::has(#[trigger] t[i])
            || HorizontalSpace::has(t[i]) by {
            if i > n {
                assert(rest[i - n - 1] == t[i]);
            }
        }
    }
}

/// A run of terminators holds terminators, spaces and tabs, and nothing else.
pub proof fn law_what_a_run_holds(t: Seq<char>)
    requires
        t.len() > 0,
        terminator(t[0]),
    ensures
        0 < run_length(t) <= t.len(),
        forall|i: int|
            0 <= i < run_length(t) ==> terminator(#[trigger] t[i]) || t[i] == ' ' || t[i] == '\t',
{
    lemma_run_length(t);
    let rest = t.drop_first();
    lemma_groups_hold::<Dot>(rest);
    lemma_groups_hold::<Emphatic>(rest);
    lemma_run_front::<Terminator>(t, true);
    law_terminators_of_ascii('.');
    law_terminators_of_ascii('!');
    law_terminators_of_ascii('?');
    law_terminators_of_other_scripts();
    assert forall|i: int| 0 <= i < run_length(t) implies terminator(#[trigger] t[i]) || t[i] == ' '
        || t[i] == '\t' by {
        if i > 0 {
            assert(rest[i - 1] == t[i]);
        }
    }
}

/// True when `x` starts with `n` spaces and tabs, and then ends or goes on with another
/// character that is no terminator.
pub open spec fn blanks_then_other(x: Seq<char>, n: int) -> bool {
    &&& 0 <= n <= x.len()
    &&& forall|i: int| 0 <= i < n ==> #[trigger] x[i] == ' ' || x[i] == '\t'
    &&& n < x.len() ==> !terminator(x[n]) && x[n] != ' ' && x[n] != '\t'
}

/// True when the first character of `x` that is neither space nor tab is no terminator.
pub open spec fn no_terminator_next(x: Seq<char>) -> bool {
    exists|n: int| #[trigger] blanks_then_other(x, n)
}

/// A terminator that stands alone is a run of its own.
pub proof fn law_single_terminator_is_a_run(a: Seq<char>, c: char, rest: Seq<char>, at: int)
    requires
        terminator(c),
        a.len() > 0 ==> !terminator(a.last()) && a.last() != ' ' && a.last() != '\t',
        no_terminator_next(rest),
    ensures
        runs_from(a + seq![c] + rest, at).contains((at + size(a), at + size(a) + size(seq![c]))),
    decreases a.len(),
{
    let t = a + seq![c] + rest;
    if a.len() == 0 {
        assert(t =~= seq![c] + rest);
        assert(t.drop_first() =~= rest);
        assert(t[0] == c);
        let n = choose|n: int| #[trigger] blanks_then_other(rest, n);
        let g = rest.take(n);
        let r = rest.skip(n);
        assert(rest =~= g + r);
        lemma_front::<HorizontalSpace>(g, r, true);
        assert(run_front::<HorizontalSpace>(rest, true) == n);
        law_terminators_of_ascii('.');
        law_terminators_of_ascii('!');
        law_terminators_of_ascii('?');
        law_terminators_of_other_scripts();
        law_white_space_is_no_terminator(' ');
        law_white_space_is_no_terminator('\t');
        assert(group_count::<Dot>(rest) == 0);
        assert(group_count::<Emphatic>(rest) == 0);
        if rest.len() > 0 {
            assert(!terminator(rest[0])) by {
                if n > 0 {
                    assert(rest[0] == ' ' || rest[0] == '\t');
                }
            }
        }
        lemma_front::<Terminator>(seq![c], rest, true);
        assert(run_length(t) == 1);
        assert(t.take(1) =~= seq![c]);
        lemma_size(a);
        assert(runs_from(t, at)[0] == (at, at + size(seq![c])));
    } else {
        let n = if terminator(t[0]) {
            law_what_a_run_holds(t);
            run_length(t)
        } else {
            1
        };
        assert(t[a.len() - 1] == a.last());
        assert(n <= a.len());
        let b = a.skip(n);
        assert(t.take(n) =~= a.take(n));
        assert(t.skip(n) =~= b + seq![c] + rest);
        assert(t.skip(1) =~= t.drop_first());
        assert(a =~= a.take(n) + b);
        lemma_encode_concat(a.take(n), b);
        if b.len() > 0 {
            assert(b.last() == a.last());
        }
        let next = at + size(a.take(n));
        law_single_terminator_is_a_run(b, c, rest, next);
        let later = runs_from(t.skip(n), next);
        let m = (at + size(a), at + size(a) + size(seq![c]));
        let i = later.index_of(m);
        assert(later[i] == m);
        if terminator(t[0]) {
            assert(runs_from(t, at)[i + 1] == m);
        } else {
            assert(runs_from(t, at)[i] == m);
        }
    }
}

/// A run with no space between it and its neighbours, or with more than spaces and tabs,
/// stays as it is.
proof fn lemma_folded_keeps(p: Seq<char>, ms: Seq<(int, int)>, i: int)
    requires
        are_spans(p, ms),
        forall|k: int| 0 <= k < ms.len() ==> (#[trigger] ms[k]).0 < ms[k].1,
        0 <= i < ms.len(),
        i > 0 ==> !is_blank(between(p, ms[i - 1].1, ms[i].0)),
        i + 1 < ms.len() ==> !is_blank(between(p, ms[i].1, ms[i + 1].0)),
    ensures
        folded(p, ms).contains(ms[i]),
        i == ms.len() - 1 ==> folded(p, ms).last() == ms[i],
    decreases ms.len(),
{
    let front = ms.drop_last();
    assert(are_spans(p, front)) by {
        assert forall|k: int| 0 <= k < front.len() implies is_span(p, #[trigger] front[k]) by {
            assert(is_span(p, ms[k]));
        }
        assert forall|k: int, j: int| 0 <= k < j < front.len() implies (#[trigger] front[k]).1 <= (
        #[trigger] front[j]).0 by {
            assert(ms[k].1 <= ms[j].0);
        }
    }
    assert forall|k: int| 0 <= k < front.len() implies (#[trigger] front[k]).0 < front[k].1 by {
        assert(ms[k].0 < ms[k].1);
    }
    let out = folded(p, front);
    let all = folded(p, ms);
    lemma_folded(p, front);
    if i == ms.len() - 1 {
        assert(all[out.len() as int] == ms[i]);
    } else {
        lemma_folded_keeps(p, front, i);
        let k = out.index_of(ms[i]);
        assert(out[k] == ms[i]);
        if i == ms.len() - 2 {
            assert(all =~= out.push(ms.last()));
            assert(all[k] == ms[i]);
        } else if k < out.len() - 1 {
            assert(all[k] == ms[i]);
        } else {
            // Another run stands behind it.
            assert(front.len() - 1 > i);
            assert(out.last().1 == front.last().1);
            assert(ms[i].1 <= ms[front.len() - 1].0);
            assert(is_span(p, ms[front.len() - 1]));
            assert(ms[front.len() - 1].0 < ms[front.len() - 1].1);
            assert(false);
        }
    }
}

/// A single terminator behind an ordinary word divides the paragraph behind the white space
/// that follows, where something new follows that.
pub proof fn law_paragraph_is_divided_behind_mark(
    ab: Set<Seq<char>>,
    st: Set<Seq<char>>,
    a: Seq<char>,
    word: Seq<char>,
    c: char,
    w: Seq<char>,
    rest: Seq<char>,
    more: Seq<char>,
)
    requires
        terminator(c),
        ends_with_word(a, word),
        !is_among(EXCLAMATION_WORDS@, word.push('!')),
        a.len() > 0 ==> !terminator(a.last()) && a.last() != ' ' && a.last() != '\t',
        all_white(w),
        rest.len() == 0 ==> more.len() == 0,
        rest.len() > 0 ==> ascii_upper(rest[0]),
        is_seen(w + rest, more),
        c == '.' ==> {
            &&& word.len() > 0 ==> !is_listed_in(ab, word)
            &&& !(word.len() == 1 && ascii_upper(word[0]))
            &&& a.len() == 0 || !ascii_digit(a.last()) || !unicode_alphabetic((w + rest)[0])
                || has_no_digit(w + rest)
        },
        // No quotation marks, brackets, addresses, reference numbers or lists.
        ({
            let p = around(a, seq![c], w + rest, more);
            &&& is_told_of(p)
            &&& no_marks(p)
            &&& !p.contains('[')
            &&& skippable_ranges(p).len() == 0
            &&& Rules::standard(ab, st).starts(p).len() == 0
        }),
    ensures
        Rules::standard(ab, st).cuts(around(a, seq![c], w + rest, more)).contains(
            size(a) + size(seq![c]) + size(w),
        ),
{
    let rules = Rules::standard(ab, st);
    let p = around(a, seq![c], w + rest, more);
    let b = size(a) + size(seq![c]) + size(w);
    lemma_mark_firsts();
    assert forall|i: int| 0 <= i < QUOTE_PAIRS@.len() implies !starts(
        rest,
        (#[trigger] QUOTE_PAIRS@[i]).0@,
    ) by {
        if starts(rest, QUOTE_PAIRS@[i].0@) {
            assert(rest.take(QUOTE_PAIRS@[i].0@.len() as int)[0] == rest[0]);
        }
    }
    law_terminator_ends_sentence(ab, st, a, word, c, w, rest, more);
    // The terminator is a run of its own.
    let x = w + rest + more;
    assert(p =~= a + seq![c] + x);
    let n = run_front::<HorizontalSpace>(x, true);
    lemma_run_front::<HorizontalSpace>(x, true);
    assert(no_terminator_next(x)) by {
        assert forall|i: int| 0 <= i < n implies #[trigger] x[i] == ' ' || x[i] == '\t' by {
            assert(HorizontalSpace::has(x[i]));
        }
        if n < x.len() {
            if n < w.len() {
                assert(x[n] == w[n]);
                law_white_space_is_no_terminator(x[n]);
            } else {
                assert(rest.len() > 0);
                if n > w.len() {
                    assert(HorizontalSpace::has(x[w.len() as int]));
                    assert(x[w.len() as int] == rest[0]);
                }
                assert(x[n] == rest[0]);
                law_terminators_of_ascii(rest[0]);
            }
        }
        assert(blanks_then_other(x, n));
    }
    law_single_terminator_is_a_run(a, c, x, 0);
    let runs = runs_from(p, 0);
    let m = (size(a), size(a) + size(seq![c]));
    let i = runs.index_of(m);
    assert(runs[i] == m);
    lemma_cut_ends(p);
    lemma_whole(p);
    law_runs_start_with_terminators(p, 0);
    lemma_meet_three(a, seq![c], x);
    if i > 0 {
        assert(is_run_in(p, runs[i - 1]));
        assert(runs[i - 1].1 <= runs[i].0);
        let gap = between(p, runs[i - 1].1, m.0);
        lemma_join(p, 0, runs[i - 1].1, m.0);
        if gap.len() > 0 {
            assert(gap.last() == a.last());
            if is_blank(gap) {
                assert(HorizontalSpace::has(gap[gap.len() - 1]));
            }
        }
    }
    if i + 1 < runs.len() {
        let next = runs[i + 1];
        assert(is_run_in(p, next));
        assert(runs[i].1 <= next.0);
        let gap = between(p, m.1, next.0);
        lemma_join(p, m.1, next.0, size(p));
        if is_blank(gap) {
            // The first character behind the spaces would be a terminator.
            assert(x =~= gap + after(p, next.0));
            let k = gap.len() as int;
            assert(x[k] == after(p, next.0)[0]);
            law_white_space_is_no_terminator(' ');
            law_white_space_is_no_terminator('\t');
            if n < k {
                assert(HorizontalSpace::has(gap[n]));
                assert(x[n] == gap[n]);
            } else if n > k {
                assert(HorizontalSpace::has(x[k]));
            } else {
                let q = choose|q: int| #[trigger] blanks_then_other(x, q);
                if q < k {
                    assert(HorizontalSpace::has(x[q]));
                } else if q > k {
                    assert(x[k] == ' ' || x[k] == '\t');
                }
            }
        }
    }
    assert forall|k: int| 0 <= k < runs.len() implies (#[trigger] runs[k]).0 < runs[k].1 by {
        assert(is_run_in(p, runs[k]));
    }
    lemma_folded_keeps(p, runs, i);
    let ms = folded(p, runs);
    let j = ms.index_of(m);
    assert(ms[j] == m);
    lemma_folded_runs(p, runs);
    assert(is_run_in(p, ms[j]));
    lemma_no_reference(rules, p, m);
    let all = with_list(skippable_ranges(p), rules.starts(p), size(p));
    assert(ends_at(rules, p, ms, all, j, b));
    law_plain_paragraph_is_divided(rules, p);
}

} // verus!
