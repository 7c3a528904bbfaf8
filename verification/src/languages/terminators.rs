//! Runs of terminators.

use vstd::prelude::*;

use crate::chars::{lemma_run_front, run_front, CharClass, Dot, Emphatic, HorizontalSpace};
use crate::constants::{terminator, Terminator};
use crate::pattern::{
    are_spans, as_spans, find_iter_facts, groups, has_no_terminator, is_span, regex_find_iter,
    run_length, runs_from, sentence_break_pattern, Pattern,
};
use crate::text::{byte_len, front_run, last_char, piece, same};
use crate::utf8::{after, between, lemma_join, lemma_size, lemma_split, lemma_whole, size};

verus! {

/// True when `t` is not empty and holds spaces and tabs alone.
pub open spec fn is_blank(t: Seq<char>) -> bool {
    t.len() > 0 && forall|i: int| 0 <= i < t.len() ==> HorizontalSpace::has(#[trigger] t[i])
}

/// True when the match `m` is a single `.` that belongs to the match `last`: only
/// spaces and tabs lie in between, and `last` ends with `!`, `?` or `…`.
pub open spec fn joins(text: Seq<char>, last: (int, int), m: (int, int)) -> bool {
    let run = between(text, last.0, last.1);
    &&& run.len() > 0 && Emphatic::has(run.last())
    &&& between(text, m.0, m.1) == seq!['.']
    &&& is_blank(between(text, last.1, m.0))
}

/// The matches `ms`, with every `.` that belongs to the match before it put into that
/// match.
pub open spec fn folded(text: Seq<char>, ms: Seq<(int, int)>) -> Seq<(int, int)>
    decreases ms.len(),
{
    if ms.len() == 0 {
        ms
    } else {
        let out = folded(text, ms.drop_last());
        if out.len() > 0 && joins(text, out.last(), ms.last()) {
            out.drop_last().push((out.last().0, ms.last().1))
        } else {
            out.push(ms.last())
        }
    }
}

/// Folding keeps matches apart and in order.
pub proof fn lemma_folded(text: Seq<char>, ms: Seq<(int, int)>)
    requires
        are_spans(text, ms),
    ensures
        are_spans(text, folded(text, ms)),
        ms.len() == 0 <==> folded(text, ms).len() == 0,
        ms.len() > 0 ==> folded(text, ms).last().1 == ms.last().1,
        ms.len() > 0 ==> folded(text, ms)[0].0 == ms[0].0,
    decreases ms.len(),
{
    if ms.len() > 0 {
        let front = ms.drop_last();
        lemma_folded(text, front);
        let out = folded(text, front);
        let all = folded(text, ms);
        let m = ms.last();
        assert(is_span(text, ms[ms.len() - 1]));
        if front.len() > 0 {
            assert(ms[front.len() - 1].1 <= ms[ms.len() - 1].0);
            assert(out.last().1 <= m.0);
            assert(is_span(text, out[out.len() - 1]));
        }
        assert forall|i: int| 0 <= i < all.len() implies is_span(text, #[trigger] all[i]) by {
            if i < out.len() {
                assert(is_span(text, out[i]));
            }
        }
        assert forall|i: int, j: int| 0 <= i < j < all.len() implies (#[trigger] all[i]).1 <= (
        #[trigger] all[j]).0 by {
            assert(all[i] == out[i]);
            if j < out.len() {
                assert(out[i].1 <= out[j].0);
            } else {
                assert(out[i].1 <= out.last().1) by {
                    if i < out.len() - 1 {
                        assert(out[i].1 <= out[out.len() - 1].0);
                    }
                }
            }
        }
    }
}

/// True when `t` is not empty and holds spaces and tabs alone.
fn blank(t: &str) -> (r: bool)
    ensures
        r == is_blank(t@),
{
    let n: usize = byte_len(t);
    let at: usize = front_run::<HorizontalSpace>(t, true);
    proof {
        lemma_size(t@);
        lemma_whole(t@);
        let k = run_front::<HorizontalSpace>(t@, true);
        lemma_run_front::<HorizontalSpace>(t@, true);
        lemma_split(t@, at as int);
        lemma_size(after(t@, at as int));
        if is_blank(t@) && k < t@.len() {
            assert(HorizontalSpace::has(t@[k]));
        }
    }
    n > 0 && at == n
}

/// Puts every single `.` that stands, behind spaces or tabs, after a run that ends
/// with `!`, `?` or `…` into that run, so that no sentence is made of it alone. A
/// longer run of dots is left apart: it may be an ellipsis.
pub fn fold_matches(text: &str, matches: &[(usize, usize)]) -> (r: Vec<(usize, usize)>)
    requires
        are_spans(text@, as_spans(matches@)),
    ensures
        as_spans(r@) == folded(text@, as_spans(matches@)),
        are_spans(text@, as_spans(r@)),
{
    let mut out: Vec<(usize, usize)> = Vec::new();
    let ghost all = as_spans(matches@);
    let mut k: usize = 0;
    proof {
        assert(as_spans(out@) =~= folded(text@, all.take(0)));
    }
    while k < matches.len()
        invariant
            k <= matches@.len(),
            all == as_spans(matches@),
            are_spans(text@, all),
            as_spans(out@) == folded(text@, all.take(k as int)),
        decreases matches@.len() - k,
    {
        let (start, end) = matches[k];
        let ghost was = as_spans(out@);
        proof {
            assert(all[k as int] == (start as int, end as int));
            assert(is_span(text@, all[k as int]));
            assert(all.take(k + 1).drop_last() =~= all.take(k as int));
            assert(are_spans(text@, all.take(k as int))) by {
                assert forall|i: int| 0 <= i < k implies is_span(
                    text@,
                    #[trigger] all.take(k as int)[i],
                ) by {
                    assert(is_span(text@, all[i]));
                }
                assert forall|i: int, j: int| 0 <= i < j < k implies (#[trigger] all.take(
                    k as int,
                )[i]).1 <= (#[trigger] all.take(k as int)[j]).0 by {
                    assert(all[i].1 <= all[j].0);
                }
            }
            lemma_folded(text@, all.take(k as int));
            if k > 0 {
                assert(all[k - 1].1 <= all[k as int].0);
            }
        }
        let mut fold: bool = false;
        let n: usize = out.len();
        if n > 0 {
            let last: (usize, usize) = out[n - 1];
            assert(was[n - 1] == (last.0 as int, last.1 as int));
            assert(is_span(text@, was[n - 1]));
            let run = piece(text, last.0, last.1);
            let is_emphatic: bool = match last_char(run) {
                Some(c) => Emphatic::test(c),
                None => false,
            };
            if is_emphatic && same(piece(text, start, end), ".") && blank(
                piece(text, last.1, start),
            ) {
                fold = true;
            }
            proof {
                reveal_strlit(".");
                assert("."@ =~= seq!['.']);
                assert(fold == joins(text@, was.last(), (start as int, end as int)));
            }
            if fold {
                out.pop();
                out.push((last.0, end));
                assert(as_spans(out@) =~= was.drop_last().push((last.0 as int, end as int)));
            }
        }
        if !fold {
            out.push((start, end));
            assert(as_spans(out@) =~= was.push((start as int, end as int)));
        }
        k += 1;
    }
    proof {
        assert(all.take(k as int) =~= all);
        lemma_folded(text@, all);
    }
    out
}

/// Without terminators there are no runs of them.
proof fn lemma_no_runs(t: Seq<char>, at: int)
    requires
        has_no_terminator(t),
    ensures
        runs_from(t, at).len() == 0,
    decreases t.len(),
{
    if t.len() > 0 {
        let rest = t.drop_first();
        assert forall|i: int| 0 <= i < rest.len() implies !terminator(#[trigger] rest[i]) by {
            assert(rest[i] == t[i + 1]);
        }
        lemma_no_runs(rest, at + size(t.take(1)));
    }
}

pub proof fn lemma_groups<C: CharClass>(t: Seq<char>)
    ensures
        0 <= groups::<C>(t) <= t.len(),
    decreases t.len(),
{
    let n = run_front::<HorizontalSpace>(t, true);
    if 0 < n < t.len() && C::has(t[n]) {
        lemma_groups::<C>(t.skip(n + 1));
    }
}

/// A run has at least one character, and no more than there are.
pub proof fn lemma_run_length(t: Seq<char>)
    requires
        t.len() > 0,
        terminator(t[0]),
    ensures
        0 < run_length(t) <= t.len(),
{
    lemma_groups::<Dot>(t.drop_first());
    lemma_groups::<Emphatic>(t.drop_first());
    lemma_run_front::<Terminator>(t, true);
    lemma_run_front::<Terminator>(t.drop_first(), true);
}

/// The first run stands at the front exactly when a terminator does, and is not empty.
pub proof fn lemma_first_run(t: Seq<char>, at: int)
    ensures
        runs_from(t, at).len() > 0 ==> {
            let m = runs_from(t, at)[0];
            &&& at <= m.0 < m.1
            &&& m.0 == at <==> terminator(t[0])
        },
        t.len() > 0 && terminator(t[0]) ==> runs_from(t, at).len() > 0,
    decreases t.len(),
{
    if t.len() > 0 {
        lemma_size(t.take(1));
        if terminator(t[0]) {
            lemma_run_length(t);
            lemma_size(t.take(run_length(t)));
        } else {
            lemma_first_run(t.drop_first(), at + size(t.take(1)));
        }
    }
}

/// Finds the runs of terminators in `text`, each with the `.` that may follow it on
/// its own.
pub fn find_terminator_matches(text: &str, pattern: &Pattern) -> (r: Vec<(usize, usize)>)
    ensures
        as_spans(r@) == folded(text@, regex_find_iter(pattern.source(), text@)),
        are_spans(text@, as_spans(r@)),
        find_iter_facts(pattern.source(), text@, regex_find_iter(pattern.source(), text@)),
        pattern.source() == sentence_break_pattern() && has_no_terminator(text@) ==> r@.len() == 0,
{
    let matches: Vec<(usize, usize)> = pattern.find_iter(text);
    proof {
        lemma_folded(text@, as_spans(matches@));
        if has_no_terminator(text@) {
            lemma_no_runs(text@, 0);
        }
    }
    fold_matches(text, matches.as_slice())
}

/// Where a `.` follows a run that it belongs to, the two are one: no two neighbours are
/// left that belong together.
pub proof fn law_no_dot_is_left_apart(text: Seq<char>, ms: Seq<(int, int)>)
    requires
        are_spans(text, ms),
    ensures
        forall|i: int, j: int|
            #![trigger folded(text, ms)[i], folded(text, ms)[j]]
            0 <= i && i + 1 == j && j < folded(text, ms).len() ==> !joins(
                text,
                folded(text, ms)[i],
                folded(text, ms)[j],
            ),
    decreases ms.len(),
{
    if ms.len() > 0 {
        let front = ms.drop_last();
        let m = ms.last();
        law_no_dot_is_left_apart(text, front);
        lemma_folded(text, front);
        let out = folded(text, front);
        let all = folded(text, ms);
        assert(is_span(text, ms[ms.len() - 1]));
        assert forall|i: int, j: int|
            #![trigger all[i], all[j]]
            0 <= i && i + 1 == j && j < all.len() implies !joins(text, all[i], all[j]) by {
            assert(all[i] == out[i]);
            if j < out.len() - 1 {
                assert(all[j] == out[j]);
            } else if j == out.len() - 1 {
                if joins(text, out.last(), m) {
                    let last = out.last();
                    assert(is_span(text, out[out.len() - 1]));
                    assert(last.1 <= m.0) by {
                        assert(ms[ms.len() - 2].1 <= ms[ms.len() - 1].0);
                    }
                    lemma_join(text, last.0, last.1, m.0);
                    lemma_join(text, last.0, m.0, m.1);
                    assert(between(text, last.0, m.1).len() >= 2);
                    assert(seq!['.'].len() == 1);
                } else {
                    assert(all[j] == out[j]);
                }
            }
        }
    }
}

} // verus!
