//! The positions at which a paragraph is divided into sentences.

use vstd::prelude::*;

use crate::text::as_positions;
use crate::utf8::{is_cut, size};

verus! {

/// `cuts` and `boundary`, if that lies behind all of them.
pub open spec fn pushed(cuts: Seq<int>, boundary: int) -> Seq<int> {
    if cuts.last() < boundary {
        cuts.push(boundary)
    } else {
        cuts
    }
}

/// `cuts`, which increase, and `at` in its place among them.
pub open spec fn with_cut(cuts: Seq<int>, at: int) -> Seq<int>
    decreases cuts.len(),
{
    if cuts.len() == 0 || cuts.last() < at {
        cuts.push(at)
    } else if cuts.last() == at {
        cuts
    } else {
        with_cut(cuts.drop_last(), at).push(cuts.last())
    }
}

/// `cuts`, which increase, and all of `starts`, each in its place.
pub open spec fn with_starts(cuts: Seq<int>, starts: Seq<usize>) -> Seq<int>
    decreases starts.len(),
{
    if starts.len() == 0 {
        cuts
    } else {
        with_cut(with_starts(cuts, starts.drop_last()), starts.last() as int)
    }
}

/// True when `cuts` start at the start of `p`, increase, and are cuts of `p`.
pub open spec fn divides(p: Seq<char>, cuts: Seq<int>) -> bool {
    &&& cuts.len() > 0
    &&& cuts[0] == 0
    &&& forall|i: int| 0 <= i < cuts.len() ==> is_cut(p, #[trigger] cuts[i])
    &&& forall|i: int, j: int| 0 <= i < j < cuts.len() ==> #[trigger] cuts[i] < #[trigger] cuts[j]
}

/// True when `cuts` divide all of `p`, up to its end.
pub open spec fn covers(p: Seq<char>, cuts: Seq<int>) -> bool {
    divides(p, cuts) && cuts.last() == size(p)
}

/// A cut behind all others goes on dividing the paragraph.
pub proof fn lemma_pushed(p: Seq<char>, cuts: Seq<int>, boundary: int)
    requires
        divides(p, cuts),
        is_cut(p, boundary),
    ensures
        divides(p, pushed(cuts, boundary)),
        pushed(cuts, boundary).last() >= boundary,
{
    let r = pushed(cuts, boundary);
    assert forall|i: int, j: int| 0 <= i < j < r.len() implies #[trigger] r[i] < #[trigger] r[j] by {
        if j == cuts.len() && i < cuts.len() - 1 {
            assert(cuts[i] < cuts[cuts.len() - 1]);
        }
    }
}

/// A cut that is put in its place goes on dividing the paragraph; it and all others
/// are there, and nothing else.
pub proof fn lemma_with_cut(p: Seq<char>, cuts: Seq<int>, at: int)
    requires
        divides(p, cuts),
        is_cut(p, at),
    ensures
        divides(p, with_cut(cuts, at)),
        forall|x: int| #[trigger] with_cut(cuts, at).contains(x) <==> cuts.contains(x) || x == at,
        with_cut(cuts, at).last() == if cuts.last() < at {
            at
        } else {
            cuts.last()
        },
    decreases cuts.len(),
{
    let r = with_cut(cuts, at);
    if cuts.last() < at {
        lemma_pushed(p, cuts, at);
        assert forall|x: int| #[trigger] r.contains(x) <==> cuts.contains(x) || x == at by {
            if cuts.contains(x) {
                assert(r[cuts.index_of(x)] == x);
            }
            assert(r[cuts.len() as int] == at);
        }
    } else if cuts.last() == at {
        assert(cuts[cuts.len() - 1] == at);
    } else {
        assert(is_cut(p, cuts[cuts.len() - 1]));
        assert(cuts.len() > 1);
        let front = cuts.drop_last();
        assert(divides(p, front)) by {
            assert forall|i: int| 0 <= i < front.len() implies is_cut(p, #[trigger] front[i]) by {
                assert(is_cut(p, cuts[i]));
            }
            assert forall|i: int, j: int| 0 <= i < j < front.len() implies #[trigger] front[i]
                < #[trigger] front[j] by {
                assert(cuts[i] < cuts[j]);
            }
        }
        lemma_with_cut(p, front, at);
        let f = with_cut(front, at);
        assert(front.last() < cuts.last()) by {
            assert(cuts[cuts.len() - 2] < cuts[cuts.len() - 1]);
        }
        assert forall|i: int| 0 <= i < r.len() implies is_cut(p, #[trigger] r[i]) by {
            if i < f.len() {
                assert(is_cut(p, f[i]));
            }
        }
        assert forall|i: int, j: int| 0 <= i < j < r.len() implies #[trigger] r[i]
            < #[trigger] r[j] by {
            if j < f.len() {
                assert(f[i] < f[j]);
            } else if i < f.len() - 1 {
                assert(f[i] < f[f.len() - 1]);
            }
        }
        assert forall|x: int| #[trigger] r.contains(x) <==> cuts.contains(x) || x == at by {
            if r.contains(x) {
                let i = r.index_of(x);
                if i < f.len() {
                    assert(f[i] == x);
                    assert(f.contains(x));
                    if front.contains(x) {
                        assert(cuts[front.index_of(x)] == x);
                    }
                } else {
                    assert(cuts[cuts.len() - 1] == x);
                }
            }
            if cuts.contains(x) || x == at {
                if x == cuts.last() {
                    assert(r[r.len() - 1] == x);
                } else {
                    if cuts.contains(x) {
                        assert(front[cuts.index_of(x)] == x);
                    }
                    assert(f.contains(x));
                    assert(r[f.index_of(x)] == x);
                }
            }
        }
        assert(r[0] == f[0]);
    }
}

/// Adds `boundary` only if it lies behind the last boundary. Behind a quote a boundary
/// can be moved past later terminators; this keeps the boundaries increasing.
pub fn push_if_increasing(boundaries: &mut Vec<usize>, boundary: usize)
    requires
        old(boundaries)@.len() > 0,
    ensures
        as_positions(final(boundaries)@) == pushed(
            as_positions(old(boundaries)@),
            boundary as int,
        ),
{
    let ghost was = as_positions(boundaries@);
    let n: usize = boundaries.len();
    assert(was.last() == boundaries@[n - 1]);
    if boundary > boundaries[n - 1] {
        boundaries.push(boundary);
        assert(as_positions(boundaries@) =~= was.push(boundary as int));
    }
}

/// Puts `at` in its place among increasing boundaries, unless it is there already.
pub fn insert_boundary(boundaries: &mut Vec<usize>, at: usize)
    ensures
        as_positions(final(boundaries)@) == with_cut(as_positions(old(boundaries)@), at as int),
{
    let ghost all = as_positions(boundaries@);
    let mut j: usize = boundaries.len();
    proof {
        assert(all.take(j as int) =~= all);
        assert(with_cut(all, at as int) =~= with_cut(all.take(j as int), at as int) + all.skip(
            j as int,
        ));
    }
    while 0 < j && boundaries[j - 1] > at
        invariant
            j <= boundaries@.len(),
            all == as_positions(boundaries@),
            with_cut(all, at as int) == with_cut(all.take(j as int), at as int) + all.skip(
                j as int,
            ),
        decreases j,
    {
        proof {
            let front = all.take(j as int);
            assert(front.last() == boundaries@[j - 1]);
            assert(front.drop_last() =~= all.take(j - 1));
            assert(with_cut(all.take(j - 1), at as int).push(all[j - 1]) + all.skip(j as int)
                =~= with_cut(all.take(j - 1), at as int) + all.skip(j - 1));
        }
        j -= 1;
    }
    proof {
        if j > 0 {
            assert(all.take(j as int).last() == boundaries@[j - 1]);
        }
        assert(all.take(j as int) + all.skip(j as int) =~= all);
        assert(all.take(j as int).push(at as int) + all.skip(j as int) =~= all.insert(
            j as int,
            at as int,
        ));
    }
    if j == 0 || boundaries[j - 1] != at {
        boundaries.insert(j, at);
        assert(as_positions(boundaries@) =~= all.insert(j as int, at as int));
    }
}

} // verus!
