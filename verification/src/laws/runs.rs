//! Runs of terminators.

use vstd::prelude::*;

use crate::chars::{CharClass, Dot, Emphatic, HorizontalSpace};
use crate::constants::{terminator, Terminator};
use crate::languages::terminators::{folded, is_blank};
use crate::laws::markers::{all_blank, blank};
use crate::laws::marks::{
    law_terminators_of_ascii, law_terminators_of_other_scripts, law_white_space_is_no_terminator,
};
use crate::laws::parts::{lemma_front, lemma_meet, lemma_meet_three};
use crate::pattern::{group_count, groups, run_length};
use crate::utf8::{between, size};

verus! {

/// True for `!`, `?` and `…`.
pub open spec fn emphatic(c: char) -> bool {
    c == '!' || c == '?' || c == '…'
}

/// True when `v + u` does not go on with spaces or tabs and then the mark `c`.
pub open spec fn parts_from(v: Seq<char>, u: Seq<char>, c: char) -> bool {
    &&& all_blank(v)
    &&& u.len() > 0 ==> !blank(u[0])
    &&& v.len() > 0 && u.len() > 0 ==> u[0] != c
}

proof fn lemma_no_group<C: CharClass>(v: Seq<char>, u: Seq<char>)
    requires
        all_blank(v),
        u.len() > 0 ==> !blank(u[0]),
        v.len() > 0 && u.len() > 0 ==> !C::has(u[0]),
    ensures
        groups::<C>(v + u) == 0,
        group_count::<C>(v + u) == 0,
{
    assert forall|i: int| 0 <= i < v.len() implies HorizontalSpace::has(#[trigger] v[i])
        == true by {
        assert(blank(v[i]));
    }
    lemma_front::<HorizontalSpace>(v, u, true);
    if v.len() > 0 && u.len() > 0 {
        assert((v + u)[v.len() as int] == u[0]);
    }
}

proof fn lemma_group<C: CharClass>(v: Seq<char>, c: char, rest: Seq<char>)
    requires
        all_blank(v),
        v.len() > 0,
        !blank(c),
        C::has(c),
    ensures
        groups::<C>(v + seq![c] + rest) == v.len() + 1 + groups::<C>(rest),
        group_count::<C>(v + seq![c] + rest) == 1 + group_count::<C>(rest),
{
    assert forall|i: int| 0 <= i < v.len() implies HorizontalSpace::has(#[trigger] v[i])
        == true by {
        assert(blank(v[i]));
    }
    let u = seq![c] + rest;
    let t = v + seq![c] + rest;
    assert(t =~= v + u);
    assert(u[0] == c);
    lemma_front::<HorizontalSpace>(v, u, true);
    assert(t[v.len() as int] == c);
    assert(t.skip(v.len() as int + 1) =~= rest);
}

/// Three dots with spaces or tabs between them are one run: an ellipsis.
pub proof fn law_spread_ellipsis(
    x: Seq<char>,
    y: Seq<char>,
    v: Seq<char>,
    u: Seq<char>,
)
    requires
        all_blank(x) && x.len() > 0,
        all_blank(y) && y.len() > 0,
        parts_from(v, u, '.'),
    ensures
        run_length(seq!['.'] + (x + seq!['.'] + (y + seq!['.'] + (v + u)))) == 3 + x.len() + y.len(),
{
    let inner = y + seq!['.'] + (v + u);
    let rest = x + seq!['.'] + inner;
    let t = seq!['.'] + rest;
    assert(t[0] == '.');
    assert(t.drop_first() =~= rest);
    lemma_no_group::<Dot>(v, u);
    lemma_group::<Dot>(y, '.', v + u);
    lemma_group::<Dot>(x, '.', inner);
}

/// Two such dots are two runs: a full stop, and what may be the start of an ellipsis.
pub proof fn law_two_spread_dots(x: Seq<char>, v: Seq<char>, u: Seq<char>)
    requires
        all_blank(x) && x.len() > 0,
        parts_from(v, u, '.'),
    ensures
        run_length(seq!['.'] + (x + seq!['.'] + (v + u))) == 1,
{
    let rest = x + seq!['.'] + (v + u);
    let t = seq!['.'] + rest;
    assert(t[0] == '.');
    assert(t.drop_first() =~= rest);
    lemma_no_group::<Dot>(v, u);
    lemma_group::<Dot>(x, '.', v + u);
    law_terminators_of_ascii('.');
    assert(rest[0] == x[0]);
    assert(blank(x[0]));
    law_white_space_is_no_terminator(x[0]);
    lemma_front::<Terminator>(seq!['.'], rest, true);
}

/// Two of `!`, `?` and `…` with spaces or tabs between them are one run.
pub proof fn law_spread_marks(c: char, x: Seq<char>, d: char, v: Seq<char>, u: Seq<char>)
    requires
        emphatic(c),
        emphatic(d),
        all_blank(x) && x.len() > 0,
        all_blank(v),
        u.len() > 0 ==> !blank(u[0]),
        v.len() > 0 && u.len() > 0 ==> !emphatic(u[0]),
    ensures
        run_length(seq![c] + (x + seq![d] + (v + u))) == 2 + x.len(),
{
    let rest = x + seq![d] + (v + u);
    let t = seq![c] + rest;
    assert(t[0] == c);
    assert(t.drop_first() =~= rest);
    lemma_no_group::<Emphatic>(v, u);
    lemma_group::<Emphatic>(x, d, v + u);
}

/// Terminators that stand side by side are one run, up to the next other character.
pub proof fn law_joined_terminators(s: Seq<char>, v: Seq<char>, u: Seq<char>)
    requires
        s.len() > 0,
        forall|i: int| 0 <= i < s.len() ==> terminator(#[trigger] s[i]),
        all_blank(v),
        u.len() > 0 ==> !blank(u[0]),
        v.len() > 0 && u.len() > 0 ==> !terminator(u[0]),
        v.len() == 0 && u.len() > 0 ==> !terminator(u[0]),
    ensures
        run_length(s + (v + u)) == s.len(),
{
    let rest = v + u;
    let t = s + rest;
    assert(t[0] == s[0]);
    if rest.len() > 0 {
        if v.len() > 0 {
            assert(rest[0] == v[0]);
            assert(blank(v[0]));
            law_white_space_is_no_terminator(v[0]);
        } else {
            assert(rest[0] == u[0]);
        }
    }
    assert forall|i: int| 0 <= i < s.len() implies Terminator::has(#[trigger] s[i]) == true by {
        assert(terminator(s[i]));
    }
    lemma_front::<Terminator>(s, rest, true);
    // No group follows the first of them.
    let inner = s.drop_first();
    assert(t.drop_first() =~= inner + rest);
    if inner.len() > 0 {
        assert(inner[0] == s[1]);
        assert(terminator(s[1]));
        if blank(s[1]) {
            law_white_space_is_no_terminator(s[1]);
        }
        assert(Seq::<char>::empty() + (inner + rest) =~= inner + rest);
        assert((inner + rest)[0] == inner[0]);
        lemma_no_group::<Dot>(Seq::empty(), inner + rest);
        lemma_no_group::<Emphatic>(Seq::empty(), inner + rest);
    } else {
        assert(inner + rest =~= v + u);
        if u.len() > 0 {
            lemma_emphatic_are_terminators(u[0]);
        }
        lemma_no_group::<Dot>(v, u);
        lemma_no_group::<Emphatic>(v, u);
    }
}

proof fn lemma_emphatic_are_terminators(c: char)
    requires
        !terminator(c),
    ensures
        c != '.' && !emphatic(c),
{
    law_terminators_of_ascii('.');
    law_terminators_of_ascii('!');
    law_terminators_of_ascii('?');
    law_terminators_of_other_scripts();
}

/// A single `.` behind a run that ends with `!`, `?` or `…`, with nothing but spaces or tabs
/// between the two, belongs to that run; anything else is a run of its own.
pub proof fn law_stray_dot(
    a: Seq<char>,
    r: Seq<char>,
    v: Seq<char>,
    x: Seq<char>,
    b: Seq<char>,
    ms: Seq<(int, int)>,
)
    requires
        r.len() > 0,
        folded(a + r + v + x + b, ms).len() > 0,
        folded(a + r + v + x + b, ms).last() == (size(a), size(a + r)),
    ensures
        ({
            let t = a + r + v + x + b;
            let out = folded(t, ms);
            let m = (size(a + r + v), size(a + r + v + x));
            folded(t, ms.push(m)) == if emphatic(r.last()) && v.len() > 0 && all_blank(v) && x
                == seq!['.'] {
                out.drop_last().push((size(a), size(a + r + v + x)))
            } else {
                out.push(m)
            }
        }),
{
    let t = a + r + v + x + b;
    let out = folded(t, ms);
    let m = (size(a + r + v), size(a + r + v + x));
    assert(ms.push(m).drop_last() =~= ms);
    assert(t =~= a + r + (v + x + b));
    lemma_meet_three(a, r, v + x + b);
    assert(t =~= (a + r) + v + (x + b));
    lemma_meet_three(a + r, v, x + b);
    lemma_meet_three(a + r + v, x, b);
    lemma_meet(a, r);
    lemma_meet(a + r, v);
    lemma_meet(a + r + v, x);
    assert(between(t, m.0, m.1) == x);
    assert(is_blank(v) <==> v.len() > 0 && all_blank(v)) by {
        if all_blank(v) {
            assert forall|i: int| 0 <= i < v.len() implies HorizontalSpace::has(
                #[trigger] v[i],
            ) by {
                assert(blank(v[i]));
            }
        }
        if is_blank(v) {
            assert forall|i: int| 0 <= i < v.len() implies blank(#[trigger] v[i]) by {
                assert(HorizontalSpace::has(v[i]));
            }
        }
    }
}

} // verus!
