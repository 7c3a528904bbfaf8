//! Stable sorting by an integer key.

use vstd::prelude::*;

verus! {

/// A value that is put in order by an integer.
pub trait Keyed: Copy {
    spec fn key(&self) -> int;

    fn precedes(&self, other: &Self) -> (r: bool)
        ensures
            r == (self.key() <= other.key()),
    ;
}

/// `s` with `x` put in behind every element whose key is not larger.
pub open spec fn inserted<T: Keyed>(s: Seq<T>, x: T) -> Seq<T>
    decreases s.len(),
{
    if s.len() == 0 || s.last().key() <= x.key() {
        s.push(x)
    } else {
        inserted(s.drop_last(), x).push(s.last())
    }
}

/// `s` in the order of the keys; elements with equal keys keep their order.
pub open spec fn sorted<T: Keyed>(s: Seq<T>) -> Seq<T>
    decreases s.len(),
{
    if s.len() == 0 {
        s
    } else {
        inserted(sorted(s.drop_last()), s.last())
    }
}

/// True when no element has a larger key than one behind it.
pub open spec fn in_order<T: Keyed>(s: Seq<T>) -> bool {
    forall|i: int, j: int| 0 <= i <= j < s.len() ==> (#[trigger] s[i]).key() <= (#[trigger] s[j]).key()
}

/// Elements whose order was right stay where they were, the new one takes its
/// place among them, and nothing is lost.
pub proof fn lemma_inserted<T: Keyed>(s: Seq<T>, x: T)
    requires
        in_order(s),
    ensures
        in_order(inserted(s, x)),
        inserted(s, x).len() == s.len() + 1,
        inserted(s, x).to_multiset() == s.to_multiset().insert(x),
        exists|k: int|
            #![trigger s.insert(k, x)]
            0 <= k <= s.len() && inserted(s, x) == s.insert(k, x),
        forall|y: T| #[trigger]
            inserted(s, x).contains(y) <==> s.contains(y) || y == x,
    decreases s.len(),
{
    broadcast use vstd::seq_lib::group_to_multiset_ensures;

    if s.len() == 0 || s.last().key() <= x.key() {
        assert(s.push(x) =~= s.insert(s.len() as int, x));
        assert forall|y: T| #[trigger] s.push(x).contains(y) <==> s.contains(y) || y == x by {
            if s.contains(y) {
                let i = s.index_of(y);
                assert(s.push(x)[i] == y);
            }
            assert(s.push(x)[s.len() as int] == x);
        }
    } else {
        let front = s.drop_last();
        lemma_inserted(front, x);
        let k = choose|k: int|
            #![trigger front.insert(k, x)]
            0 <= k <= front.len() && inserted(front, x) == front.insert(k, x);
        let r = inserted(s, x);
        assert(r =~= s.insert(k, x));
        assert(s =~= front.push(s.last()));
        assert(r.to_multiset() =~= s.to_multiset().insert(x));
        assert forall|i: int, j: int| 0 <= i <= j < r.len() implies (#[trigger] r[i]).key() <= (
        #[trigger] r[j]).key() by {
            if j == r.len() - 1 && i < j {
                let y = inserted(front, x)[i];
                assert(inserted(front, x).contains(y));
                if front.contains(y) {
                    let m = front.index_of(y);
                    assert(s[m] == y);
                }
            } else if j < r.len() - 1 {
                assert(inserted(front, x)[i] == r[i]);
                assert(inserted(front, x)[j] == r[j]);
            }
        }
        assert forall|y: T| #[trigger] r.contains(y) <==> s.contains(y) || y == x by {
            if r.contains(y) {
                let i = r.index_of(y);
                if i < r.len() - 1 {
                    assert(inserted(front, x)[i] == y);
                    assert(inserted(front, x).contains(y));
                    if front.contains(y) {
                        assert(s[front.index_of(y)] == y);
                    }
                } else {
                    assert(s[s.len() - 1] == y);
                }
            }
            if s.contains(y) || y == x {
                if y == s.last() {
                    assert(r[r.len() - 1] == y);
                } else {
                    if s.contains(y) {
                        let i = s.index_of(y);
                        assert(front[i] == y);
                    }
                    assert(inserted(front, x).contains(y));
                    let i = inserted(front, x).index_of(y);
                    assert(r[i] == y);
                }
            }
        }
    }
}

/// Sorting puts the elements in order, and neither loses nor invents any.
pub proof fn lemma_sorted<T: Keyed>(s: Seq<T>)
    ensures
        in_order(sorted(s)),
        sorted(s).len() == s.len(),
        sorted(s).to_multiset() == s.to_multiset(),
        forall|y: T| #[trigger] sorted(s).contains(y) <==> s.contains(y),
    decreases s.len(),
{
    broadcast use vstd::seq_lib::group_to_multiset_ensures;

    if s.len() > 0 {
        let front = s.drop_last();
        lemma_sorted(front);
        lemma_inserted(sorted(front), s.last());
        assert(s =~= front.push(s.last()));
        assert forall|y: T| #[trigger] sorted(s).contains(y) <==> s.contains(y) by {
            if s.contains(y) && y != s.last() {
                assert(front[s.index_of(y)] == y);
            }
            if front.contains(y) {
                assert(s[front.index_of(y)] == y);
            }
            assert(s[s.len() - 1] == s.last());
        }
    }
}

/// Sorting a sequence that is in order leaves it as it is.
pub proof fn law_sorting_keeps_what_is_in_order<T: Keyed>(s: Seq<T>)
    requires
        in_order(s),
    ensures
        sorted(s) == s,
    decreases s.len(),
{
    if s.len() > 0 {
        law_sorting_keeps_what_is_in_order(s.drop_last());
        if s.len() > 1 {
            assert(s[s.len() - 2].key() <= s[s.len() - 1].key());
        }
        assert(s.drop_last().push(s.last()) =~= s);
    }
}

/// Sorts `items` in place.
pub fn sort<T: Keyed>(items: &mut Vec<T>)
    ensures
        final(items)@ == sorted(old(items)@),
{
    let n: usize = items.len();
    let mut out: Vec<T> = Vec::new();
    let mut i: usize = 0;
    while i < n
        invariant
            n == items@.len(),
            i <= n,
            out@ == sorted(items@.take(i as int)),
        decreases n - i,
    {
        let x: T = items[i];
        let mut j: usize = out.len();
        proof {
            lemma_sorted(items@.take(i as int));
            assert(out@.take(j as int) =~= out@);
            assert(inserted(out@, x) =~= inserted(out@.take(j as int), x) + out@.skip(j as int));
        }
        while 0 < j && !out[j - 1].precedes(&x)
            invariant
                j <= out@.len(),
                inserted(out@, x) == inserted(out@.take(j as int), x) + out@.skip(j as int),
            decreases j,
        {
            proof {
                assert(out@.take(j as int).drop_last() =~= out@.take(j - 1));
                assert(inserted(out@.take(j - 1), x).push(out@[j - 1]) + out@.skip(j as int)
                    =~= inserted(out@.take(j - 1), x) + out@.skip(j - 1));
            }
            j -= 1;
        }
        proof {
            assert(out@.take(j as int).push(x) + out@.skip(j as int) =~= out@.insert(j as int, x));
            assert(items@.take(i + 1).drop_last() =~= items@.take(i as int));
        }
        out.insert(j, x);
        i += 1;
    }
    proof {
        assert(items@.take(n as int) =~= items@);
    }
    *items = out;
}

} // verus!
