//! Which of the places where an item may start are items.

use vstd::prelude::*;

use crate::languages::list_markers::{
    accepted, as_roman, ascending, best_of, count_of, distinct, has_roman, last_of, lemma_best_of,
    positions_of, promoted, pruned, winner, TIER2, Candidate, MarkerFamily,
};
use crate::laws::markers::numeral;
use crate::order::{in_order, law_sorting_keeps_what_is_in_order, Keyed};

verus! {

/// True when the candidates stand at least four bytes apart, one behind the other.
pub open spec fn far_apart(s: Seq<Candidate>) -> bool {
    forall|i: int, j: int|
        0 <= i < j < s.len() ==> (#[trigger] s[i]).pos + 4 <= (#[trigger] s[j]).pos
}

/// True when all candidates are of the family `f`.
pub open spec fn all_of(s: Seq<Candidate>, f: MarkerFamily) -> bool {
    forall|i: int| 0 <= i < s.len() ==> (#[trigger] s[i]).family == f
}

/// Where the candidates stand.
pub open spec fn places(s: Seq<Candidate>) -> Seq<usize> {
    Seq::new(s.len(), |i: int| s[i].pos)
}

proof fn lemma_distinct_same(s: Seq<Candidate>)
    requires
        far_apart(s),
    ensures
        distinct(s) == s,
    decreases s.len(),
{
    if s.len() > 0 {
        let front = s.drop_last();
        assert(far_apart(front)) by {
            assert forall|i: int, j: int| 0 <= i < j < front.len() implies (#[trigger] front[i]).pos
                + 4 <= (#[trigger] front[j]).pos by {
                assert(front[i] == s[i] && front[j] == s[j]);
            }
        }
        lemma_distinct_same(front);
        if front.len() > 0 {
            assert(front.last() == s[s.len() - 2]);
            assert(s[s.len() - 2].pos + 4 <= s[s.len() - 1].pos);
        }
        assert(front.push(s.last()) =~= s);
    }
}

proof fn lemma_last_place(s: Seq<Candidate>, f: MarkerFamily)
    ensures
        last_of(s, f) matches Some(p) ==> exists|i: int|
            0 <= i < s.len() && (#[trigger] s[i]).family == f && s[i].pos == p,
    decreases s.len(),
{
    if s.len() > 0 {
        let front = s.drop_last();
        lemma_last_place(front, f);
        if s.last().family == f {
            assert(s[s.len() - 1].family == f);
        } else if last_of(front, f) is Some {
            let i = choose|i: int|
                0 <= i < front.len() && (#[trigger] front[i]).family == f && front[i].pos
                    == last_of(front, f)->0;
            assert(s[i] == front[i]);
        }
    }
}

proof fn lemma_pruned_same(s: Seq<Candidate>)
    requires
        far_apart(s),
    ensures
        pruned(s) == s,
    decreases s.len(),
{
    if s.len() > 0 {
        let front = s.drop_last();
        assert(far_apart(front)) by {
            assert forall|i: int, j: int| 0 <= i < j < front.len() implies (#[trigger] front[i]).pos
                + 4 <= (#[trigger] front[j]).pos by {
                assert(front[i] == s[i] && front[j] == s[j]);
            }
        }
        lemma_pruned_same(front);
        lemma_last_place(front, s.last().family);
        if let Some(p) = last_of(front, s.last().family) {
            let i = choose|i: int|
                0 <= i < front.len() && (#[trigger] front[i]).family == s.last().family
                    && front[i].pos == p;
            assert(s[i] == front[i]);
            assert(s[i].pos + 4 <= s[s.len() - 1].pos);
        }
        assert(front.push(s.last()) =~= s);
    }
}

proof fn lemma_uniform(s: Seq<Candidate>, f: MarkerFamily)
    requires
        all_of(s, f),
    ensures
        count_of(s, f) == s.len(),
        forall|g: MarkerFamily| g != f ==> #[trigger] count_of(s, g) == 0,
        positions_of(s, f) == places(s),
    decreases s.len(),
{
    if s.len() > 0 {
        let front = s.drop_last();
        assert(all_of(front, f)) by {
            assert forall|i: int| 0 <= i < front.len() implies (#[trigger] front[i]).family == f by {
                assert(front[i] == s[i]);
            }
        }
        lemma_uniform(front, f);
        assert(s[s.len() - 1].family == f);
        assert(places(front).push(s.last().pos) =~= places(s));
        assert forall|g: MarkerFamily| g != f implies #[trigger] count_of(s, g) == 0 by {
            assert(count_of(front, g) == 0);
        }
    } else {
        assert(positions_of(s, f) =~= places(s));
    }
}

proof fn lemma_in_order(s: Seq<Candidate>)
    requires
        far_apart(s),
    ensures
        in_order(s),
        ascending(s),
{
    assert forall|i: int, j: int| 0 <= i <= j < s.len() implies (#[trigger] s[i]).key() <= (
    #[trigger] s[j]).key() by {
        if i < j {
            assert(s[i].pos + 4 <= s[j].pos);
        }
    }
}

/// The winner among candidates of one family.
proof fn lemma_uniform_winner(s: Seq<Candidate>, f: MarkerFamily)
    requires
        all_of(s, f),
        f != MarkerFamily::Tier1,
    ensures
        winner(s) == if s.len() >= 2 {
            Some(f)
        } else {
            None
        },
{
    lemma_uniform(s, f);
    lemma_best_of(s, 5);
    if s.len() >= 2 {
        assert(TIER2@[f.index() - 1] == f);
        let g = best_of(s, 5)->0;
        if g != f {
            assert(count_of(s, g) == 0);
        }
    } else if best_of(s, 5) is Some {
        let g = best_of(s, 5)->0;
        if g != f {
            assert(count_of(s, g) == 0);
        }
    }
}

/// Two or more candidates of one family, far enough apart, are a list, and each of them is
/// an item. A single one is a list only when it is unmistakable and starts a line.
pub proof fn law_candidates_of_one_family(s: Seq<Candidate>, f: MarkerFamily)
    requires
        far_apart(s),
        all_of(s, f),
    ensures
        accepted(s) == if s.len() >= 2 || (s.len() == 1 && f == MarkerFamily::Tier1
            && s[0].line_start) {
            places(s)
        } else {
            Seq::empty()
        },
{
    lemma_in_order(s);
    law_sorting_keeps_what_is_in_order(s);
    lemma_distinct_same(s);
    assert(promoted(s) =~= s) by {
        if has_roman(s) {
            assert(f == MarkerFamily::Roman);
            assert forall|i: int| 0 <= i < s.len() implies as_roman(#[trigger] s[i]) == s[i] by {
                assert(s[i].family == f);
            }
        }
    }
    lemma_pruned_same(s);
    lemma_uniform(s, f);
    if f == MarkerFamily::Tier1 {
        lemma_best_of(s, 5);
        if s.len() == 0 {
            if best_of(s, 5) is Some {
                let g = best_of(s, 5)->0;
                assert(count_of(s, g) == 0);
            }
        } else {
            assert(s[0].family == f);
            if s.len() == 1 && !s[0].line_start && best_of(s, 5) is Some {
                let g = best_of(s, 5)->0;
                assert(count_of(s, g) == 0);
            }
        }
    } else {
        lemma_uniform_winner(s, f);
    }
}

/// True for a single letter that may be a Roman numeral.
pub open spec fn single_numeral(c: Candidate) -> bool {
    (c.family == MarkerFamily::LetterDot || c.family == MarkerFamily::LetterParen) && numeral(
        c.first_byte as char,
    )
}

/// Beside one longer Roman number, single letters that may be Roman numerals are items of
/// the same list: `i.`, `ii.`, `iii.`, `iv.`, `v.`
pub proof fn law_single_letters_among_roman_numbers(s: Seq<Candidate>, k: int)
    requires
        far_apart(s),
        s.len() >= 2,
        0 <= k < s.len(),
        s[k].family == MarkerFamily::Roman,
        forall|i: int|
            0 <= i < s.len() ==> (#[trigger] s[i]).family == MarkerFamily::Roman || single_numeral(
                s[i],
            ),
    ensures
        accepted(s) == places(s),
{
    lemma_in_order(s);
    law_sorting_keeps_what_is_in_order(s);
    lemma_distinct_same(s);
    assert(has_roman(s));
    let p = promoted(s);
    assert forall|i: int| 0 <= i < p.len() implies (#[trigger] p[i]).family == MarkerFamily::Roman
        && p[i].pos == s[i].pos by {
        assert(p[i] == as_roman(s[i]));
        assert(s[i].family == MarkerFamily::Roman || single_numeral(s[i]));
    }
    assert(far_apart(p)) by {
        assert forall|i: int, j: int| 0 <= i < j < p.len() implies (#[trigger] p[i]).pos + 4 <= (
        #[trigger] p[j]).pos by {
            assert(s[i].pos + 4 <= s[j].pos);
        }
    }
    lemma_pruned_same(p);
    lemma_uniform_winner(p, MarkerFamily::Roman);
    lemma_uniform(p, MarkerFamily::Roman);
    assert(places(p) =~= places(s));
}

/// A candidate that comes less than four bytes behind another of its family is no item:
/// where it is the only other one, there is no list.
pub proof fn law_items_have_content(a: Candidate, b: Candidate)
    requires
        a.family == b.family,
        a.family != MarkerFamily::Tier1,
        a.pos < b.pos < a.pos + 4,
    ensures
        accepted(seq![a, b]) == Seq::<usize>::empty(),
{
    let s = seq![a, b];
    let f = a.family;
    assert(in_order(s));
    law_sorting_keeps_what_is_in_order(s);
    let one = seq![a];
    assert(s.drop_last() =~= one);
    assert(one.drop_last() =~= Seq::<Candidate>::empty());
    lemma_distinct_same(one);
    assert(distinct(s) =~= s);
    assert(promoted(s) =~= s) by {
        if has_roman(s) {
            assert(f == MarkerFamily::Roman);
        }
    }
    lemma_pruned_same(one);
    assert(last_of(one, f) == Some(a.pos as int));
    assert(pruned(s) =~= one);
    lemma_uniform_winner(one, f);
}

/// Where the candidates of a family stand.
proof fn lemma_positions(s: Seq<Candidate>, f: MarkerFamily, p: usize)
    ensures
        positions_of(s, f).contains(p) <==> exists|i: int|
            0 <= i < s.len() && (#[trigger] s[i]).family == f && s[i].pos == p,
    decreases s.len(),
{
    if s.len() > 0 {
        let front = s.drop_last();
        lemma_positions(front, f, p);
        let q = positions_of(front, f);
        let r = positions_of(s, f);
        if r.contains(p) {
            let i = r.index_of(p);
            if i < q.len() {
                assert(q[i] == p);
                let k = choose|k: int|
                    0 <= k < front.len() && (#[trigger] front[k]).family == f && front[k].pos == p;
                assert(s[k] == front[k]);
            } else {
                assert(s[s.len() - 1].family == f);
            }
        }
        if exists|i: int| 0 <= i < s.len() && (#[trigger] s[i]).family == f && s[i].pos == p {
            let i = choose|i: int|
                0 <= i < s.len() && (#[trigger] s[i]).family == f && s[i].pos == p;
            if i < s.len() - 1 {
                assert(front[i] == s[i]);
                let k = q.index_of(p);
                assert(r[k] == p);
            } else {
                assert(r[r.len() - 1] == p);
            }
        }
    } else {
        assert(!positions_of(s, f).contains(p));
    }
}

/// With an unmistakable marker at the start of a line, the items are all the unmistakable
/// ones, and nothing else is an item.
pub proof fn law_unmistakable_markers_win(s: Seq<Candidate>, k: int, p: usize)
    requires
        far_apart(s),
        0 <= k < s.len(),
        s[k].family == MarkerFamily::Tier1,
        s[k].line_start,
    ensures
        accepted(s).contains(p) <==> exists|i: int|
            0 <= i < s.len() && (#[trigger] s[i]).family == MarkerFamily::Tier1 && s[i].pos == p,
{
    lemma_in_order(s);
    law_sorting_keeps_what_is_in_order(s);
    lemma_distinct_same(s);
    let r = promoted(s);
    assert(far_apart(r)) by {
        assert forall|i: int, j: int| 0 <= i < j < r.len() implies (#[trigger] r[i]).pos + 4 <= (
        #[trigger] r[j]).pos by {
            assert(s[i].pos + 4 <= s[j].pos);
        }
    }
    lemma_pruned_same(r);
    assert(r[k].family == MarkerFamily::Tier1 && r[k].line_start);
    lemma_positions(r, MarkerFamily::Tier1, p);
    if exists|i: int|
        0 <= i < s.len() && (#[trigger] s[i]).family == MarkerFamily::Tier1 && s[i].pos == p {
        let i = choose|i: int|
            0 <= i < s.len() && (#[trigger] s[i]).family == MarkerFamily::Tier1 && s[i].pos == p;
        assert(r[i].family == MarkerFamily::Tier1 && r[i].pos == p);
    }
    if exists|i: int|
        0 <= i < r.len() && (#[trigger] r[i]).family == MarkerFamily::Tier1 && r[i].pos == p {
        let i = choose|i: int|
            0 <= i < r.len() && (#[trigger] r[i]).family == MarkerFamily::Tier1 && r[i].pos == p;
        assert(s[i].family == MarkerFamily::Tier1 && s[i].pos == p);
    }
}

proof fn lemma_best_is_first(s: Seq<Candidate>, n: int)
    requires
        n <= 5,
    ensures
        best_of(s, n) matches Some(h) ==> forall|k: int|
            #![trigger TIER2@[k]]
            0 <= k < n && count_of(s, TIER2@[k]) == count_of(s, h) ==> positions_of(s, h)[0]
                <= positions_of(s, TIER2@[k])[0],
    decreases n,
{
    if n > 0 {
        lemma_best_is_first(s, n - 1);
        lemma_best_of(s, n - 1);
        lemma_best_of(s, n);
    }
}

/// Of two families with as many items, the one that comes first in the text wins.
pub proof fn law_first_family_wins(s: Seq<Candidate>, f: MarkerFamily, g: MarkerFamily)
    requires
        f != MarkerFamily::Tier1,
        count_of(s, f) == count_of(s, g),
        positions_of(s, f)[0] < positions_of(s, g)[0],
        g != MarkerFamily::Tier1,
    ensures
        winner(s) != Some(g),
{
    lemma_best_is_first(s, 5);
    assert(TIER2@[f.index() - 1] == f);
}

/// A family has as many items as it has candidates.
pub proof fn law_counts(s: Seq<Candidate>, c: Candidate, f: MarkerFamily)
    ensures
        count_of(s.push(c), f) == count_of(s, f) + if c.family == f {
            1int
        } else {
            0int
        },
        count_of(Seq::<Candidate>::empty(), f) == 0,
{
    assert(s.push(c).drop_last() =~= s);
}

} // verus!
