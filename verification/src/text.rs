//! Taking texts apart at byte positions.

use vstd::prelude::*;
use vstd::string::*;
use vstd::utf8::*;

use crate::chars::{back_word, front_word, run_back, run_front, strip_back, strip_front, CharClass};
use crate::utf8::{
    after, before, between, is_cut, lemma_between, lemma_cut_ends, lemma_cut_is_boundary,
    lemma_encode_injective, lemma_first, lemma_nested, lemma_piece, lemma_size, lemma_split,
    lemma_step, lemma_whole, size,
};

verus! {

/// The part of `text` before the cut `at`.
pub fn head<'a>(text: &'a str, at: usize) -> (r: &'a str)
    requires
        is_cut(text@, at as int),
    ensures
        r@ == before(text@, at as int),
        size(r@) == at,
{
    proof {
        lemma_cut_is_boundary(text@, at as int);
        lemma_split(text@, at as int);
    }
    let r = text.split_at(at).0;
    proof {
        lemma_piece(text@, 0, at as int, r@);
    }
    r
}

/// The part of `text` from the cut `at` on.
pub fn tail<'a>(text: &'a str, at: usize) -> (r: &'a str)
    requires
        is_cut(text@, at as int),
    ensures
        r@ == after(text@, at as int),
        size(r@) == size(text@) - at,
{
    proof {
        lemma_cut_is_boundary(text@, at as int);
        lemma_split(text@, at as int);
    }
    let r = text.split_at(at).1;
    proof {
        lemma_piece(text@, at as int, size(text@), r@);
    }
    r
}

/// The part of `text` between the cuts `from` and `to`.
pub fn piece<'a>(text: &'a str, from: usize, to: usize) -> (r: &'a str)
    requires
        is_cut(text@, from as int),
        is_cut(text@, to as int),
        from <= to,
    ensures
        r@ == between(text@, from as int, to as int),
        size(r@) == to - from,
{
    let h = head(text, to);
    proof {
        lemma_cut_ends(text@);
        lemma_nested(text@, 0, to as int);
        lemma_between(text@, from as int, to as int);
        assert(is_cut(h@, from as int));
    }
    tail(h, from)
}

/// The part of `text` behind `token`, which stands at `at`.
pub fn behind<'a>(text: &'a str, token: &str, at: usize) -> (r: &'a str)
    requires
        is_cut(text@, at + size(token@)),
    ensures
        r@ == after(text@, at + size(token@)),
        size(r@) == size(text@) - at - size(token@),
{
    let _limit: usize = byte_len(text);
    let n: usize = byte_len(token);
    assert(at + n <= _limit);
    tail(text, at + n)
}

/// The length of `text` in bytes.
pub fn byte_len(text: &str) -> (r: usize)
    ensures
        r == size(text@),
{
    text.as_bytes().len()
}

/// The first character of `text`.
pub fn first_char(text: &str) -> (r: Option<char>)
    ensures
        r == (if text@.len() > 0 {
            Some(text@[0])
        } else {
            None
        }),
{
    text.chars().next()
}

/// The character at the cut `at`, and the next cut behind it.
pub fn step(text: &str, at: usize) -> (r: (char, usize))
    requires
        is_cut(text@, at as int),
        at < size(text@),
    ensures
        at < r.1 <= size(text@),
        is_cut(text@, r.1 as int),
        r.0 == after(text@, at as int)[0],
        between(text@, at as int, r.1 as int) == seq![r.0],
        after(text@, at as int) == seq![r.0] + after(text@, r.1 as int),
        before(text@, r.1 as int) == before(text@, at as int).push(r.0),
        forall|k: int| at < k < r.1 ==> !is_cut(text@, k),
{
    let bytes = text.as_bytes();
    let n: usize = bytes.len();
    let mut j: usize = at + 1;
    while j < n && 0x80 <= bytes[j] && bytes[j] <= 0xbf
        invariant
            bytes@ == encode_utf8(text@),
            n == bytes@.len(),
            at < j <= n,
            forall|k: int| at < k < j ==> is_continuation_byte(#[trigger] encode_utf8(text@)[k]),
        decreases n - j,
    {
        j += 1;
    }
    proof {
        lemma_step(text@, at as int, j as int);
        lemma_split(text@, at as int);
    }
    let rest = tail(text, at);
    match first_char(rest) {
        Some(c) => (c, j),
        None => (' ', j),
    }
}

/// The character that ends at the cut `at`, and the cut before it.
pub fn step_back(text: &str, at: usize) -> (r: (char, usize))
    requires
        is_cut(text@, at as int),
        0 < at,
    ensures
        r.1 < at,
        is_cut(text@, r.1 as int),
        between(text@, r.1 as int, at as int) == seq![r.0],
        before(text@, at as int) == before(text@, r.1 as int).push(r.0),
        after(text@, r.1 as int) == seq![r.0] + after(text@, at as int),
        forall|k: int| r.1 < k < at ==> !is_cut(text@, k),
{
    let bytes = text.as_bytes();
    let mut j: usize = at - 1;
    proof {
        lemma_cut_ends(text@);
    }
    while 0x80 <= bytes[j] && bytes[j] <= 0xbf
        invariant
            bytes@ == encode_utf8(text@),
            is_cut(text@, 0),
            0 <= j < at <= bytes@.len(),
            forall|k: int| j < k < at ==> is_continuation_byte(#[trigger] encode_utf8(text@)[k]),
        decreases j,
    {
        if j == 0 {
            assert(false);
        }
        j -= 1;
    }
    proof {
        lemma_step(text@, j as int, at as int);
        lemma_split(text@, j as int);
    }
    let rest = tail(text, j);
    match first_char(rest) {
        Some(c) => (c, j),
        None => (' ', j),
    }
}


/// The cut behind the run of characters inside (or outside) `C` at the front of
/// `text`.
pub fn front_run<C: CharClass>(text: &str, inside: bool) -> (r: usize)
    ensures
        is_cut(text@, r as int),
        before(text@, r as int) == text@.take(run_front::<C>(text@, inside)),
        after(text@, r as int) == text@.skip(run_front::<C>(text@, inside)),
        0 <= run_front::<C>(text@, inside) <= text@.len(),
{
    let n: usize = byte_len(text);
    let mut i: usize = 0;
    proof {
        lemma_cut_ends(text@);
        lemma_whole(text@);
    }
    while i < n
        invariant
            n == size(text@),
            is_cut(text@, i as int),
            run_front::<C>(text@, inside) == before(text@, i as int).len() + run_front::<C>(
                after(text@, i as int),
                inside,
            ),
        ensures
            is_cut(text@, i as int),
            run_front::<C>(text@, inside) == before(text@, i as int).len(),
        decreases n - i,
    {
        let (c, j) = step(text, i);
        proof {
            let rest = after(text@, i as int);
            assert(rest.drop_first() =~= after(text@, j as int));
        }
        if C::test(c) != inside {
            break;
        }
        i = j;
    }
    proof {
        lemma_split(text@, i as int);
        lemma_size(after(text@, i as int));
        let k = run_front::<C>(text@, inside);
        assert(before(text@, i as int) =~= text@.take(k));
        assert(after(text@, i as int) =~= text@.skip(k));
    }
    i
}

/// The cut before the run of characters inside (or outside) `C` at the back of
/// `text`.
pub fn back_run<C: CharClass>(text: &str, inside: bool) -> (r: usize)
    ensures
        is_cut(text@, r as int),
        before(text@, r as int) == text@.take(text@.len() - run_back::<C>(text@, inside)),
        after(text@, r as int) == text@.skip(text@.len() - run_back::<C>(text@, inside)),
        0 <= run_back::<C>(text@, inside) <= text@.len(),
{
    let n: usize = byte_len(text);
    let mut i: usize = n;
    proof {
        lemma_cut_ends(text@);
        lemma_whole(text@);
    }
    while 0 < i
        invariant
            n == size(text@),
            is_cut(text@, i as int),
            run_back::<C>(text@, inside) == after(text@, i as int).len() + run_back::<C>(
                before(text@, i as int),
                inside,
            ),
        ensures
            is_cut(text@, i as int),
            run_back::<C>(text@, inside) == after(text@, i as int).len(),
        decreases i,
    {
        let (c, j) = step_back(text, i);
        proof {
            let front = before(text@, i as int);
            assert(front.drop_last() =~= before(text@, j as int));
            assert(front.last() == c);
        }
        if C::test(c) != inside {
            break;
        }
        i = j;
    }
    proof {
        lemma_split(text@, i as int);
        lemma_size(before(text@, i as int));
        let k = text@.len() - run_back::<C>(text@, inside);
        assert(before(text@, i as int) =~= text@.take(k));
        assert(after(text@, i as int) =~= text@.skip(k));
    }
    i
}

/// `text` without the characters of `C` at its front.
pub fn trim_front<'a, C: CharClass>(text: &'a str) -> (r: &'a str)
    ensures
        r@ == strip_front::<C>(text@),
{
    tail(text, front_run::<C>(text, true))
}

/// `text` without the characters of `C` at its back.
pub fn trim_back<'a, C: CharClass>(text: &'a str) -> (r: &'a str)
    ensures
        r@ == strip_back::<C>(text@),
{
    head(text, back_run::<C>(text, true))
}

/// The part of `text` before its first character of `C`.
pub fn word_front<'a, C: CharClass>(text: &'a str) -> (r: &'a str)
    ensures
        r@ == front_word::<C>(text@),
{
    head(text, front_run::<C>(text, false))
}

/// The part of `text` behind its last character of `C`.
pub fn word_back<'a, C: CharClass>(text: &'a str) -> (r: &'a str)
    ensures
        r@ == back_word::<C>(text@),
{
    tail(text, back_run::<C>(text, false))
}

/// The last character of `text`.
pub fn last_char(text: &str) -> (r: Option<char>)
    ensures
        r == (if text@.len() > 0 {
            Some(text@.last())
        } else {
            None
        }),
{
    let n: usize = byte_len(text);
    proof {
        lemma_cut_ends(text@);
        lemma_whole(text@);
        lemma_size(text@);
    }
    if n == 0 {
        None
    } else {
        Some(step_back(text, n).0)
    }
}

/// `text` without its last character, and that character.
pub fn pop_back<'a>(text: &'a str) -> (r: Option<(&'a str, char)>)
    ensures
        match r {
            Some((rest, c)) => text@ == rest@.push(c),
            None => text@.len() == 0,
        },
{
    let n: usize = byte_len(text);
    proof {
        lemma_cut_ends(text@);
        lemma_whole(text@);
        lemma_size(text@);
    }
    if n == 0 {
        None
    } else {
        let (c, at) = step_back(text, n);
        Some((head(text, at), c))
    }
}

/// `text` without its first character, and that character.
pub fn pop_front<'a>(text: &'a str) -> (r: Option<(char, &'a str)>)
    ensures
        match r {
            Some((c, rest)) => text@ == seq![c] + rest@,
            None => text@.len() == 0,
        },
{
    let n: usize = byte_len(text);
    proof {
        lemma_cut_ends(text@);
        lemma_whole(text@);
        lemma_size(text@);
    }
    if n == 0 {
        None
    } else {
        let (c, at) = step(text, 0);
        Some((c, tail(text, at)))
    }
}

/// True when `text` has the bytes of `token` from the position `at` on.
pub open spec fn occurs_at(text: Seq<char>, token: Seq<char>, at: int) -> bool {
    &&& 0 <= at
    &&& at + size(token) <= size(text)
    &&& encode_utf8(text).subrange(at, at + size(token)) == encode_utf8(token)
}

/// A text that has the bytes of `token` at its front starts with `token`.
pub proof fn lemma_prefix(text: Seq<char>, token: Seq<char>)
    requires
        occurs_at(text, token, 0),
    ensures
        is_cut(text, size(token)),
        token.len() <= text.len(),
        before(text, size(token)) == token,
        text.take(token.len() as int) == token,
    decreases token.len(),
{
    lemma_cut_ends(text);
    lemma_whole(text);
    lemma_size(text);
    lemma_size(token);
    if token.len() == 0 {
        assert(token =~= Seq::<char>::empty());
        assert(text.take(0) =~= token);
    } else {
        lemma_first(text);
        lemma_first(token);
        encode_utf8_first_scalar(text);
        encode_utf8_first_scalar(token);
        let tb = encode_utf8(text);
        let kb = encode_utf8(token);
        assert forall|k: int| 0 <= k < kb.len() implies tb[k] == kb[k] by {
            assert(tb.subrange(0, kb.len() as int)[k] == kb[k]);
        }
        assert(decode_first_scalar(tb) == decode_first_scalar(kb));
        char_u32_cast(text[0], decode_first_scalar(tb));
        char_u32_cast(token[0], decode_first_scalar(kb));
        assert(text[0] == token[0]);
        let w = encode_scalar(token[0] as u32).len() as int;
        let tr = text.drop_first();
        let kr = token.drop_first();
        assert forall|k: int| 0 <= k < size(kr) implies encode_utf8(tr)[k] == encode_utf8(kr)[k] by {
            assert(tb[w + k] == kb[w + k]);
        }
        assert(encode_utf8(tr).subrange(0, size(kr)) =~= encode_utf8(kr));
        lemma_prefix(tr, kr);
        assert(text.take(token.len() as int) =~= seq![text[0]] + tr.take(kr.len() as int));
        assert(token =~= seq![token[0]] + kr);
        lemma_nested(text, w, size(text));
        assert(is_cut(after(text, w), size(kr)));
        assert(tb.subrange(0, size(token)) == kb);
        lemma_piece(text, 0, size(token), token);
    }
}

/// Wherever a token occurs, it starts and ends at a cut.
pub proof fn lemma_occurs(text: Seq<char>, token: Seq<char>, at: int)
    requires
        occurs_at(text, token, at),
        token.len() > 0,
    ensures
        is_cut(text, at),
        is_cut(text, at + size(token)),
        between(text, at, at + size(token)) == token,
        size(token) > 0,
{
    lemma_size(token);
    lemma_cut_ends(token);
    lemma_cut_ends(text);
    assert(encode_utf8(text).subrange(at, at + size(token))[0] == encode_utf8(token)[0]);
    assert(is_cut(text, at));
    lemma_split(text, at);
    let rest = after(text, at);
    assert(encode_utf8(rest).subrange(0, size(token)) =~= encode_utf8(token));
    lemma_prefix(rest, token);
    lemma_nested(text, at, size(text));
    assert(is_cut(rest, size(token)));
    lemma_piece(text, at, at + size(token), token);
}

/// True when `token` occurs in `text` at the byte position `at`.
pub fn has_at(text: &str, token: &str, at: usize) -> (r: bool)
    ensures
        r == occurs_at(text@, token@, at as int),
{
    let t = text.as_bytes();
    let k = token.as_bytes();
    let n: usize = k.len();
    let m: usize = t.len();
    if m < at || m - at < n {
        return false;
    }
    let mut i: usize = 0;
    while i < n
        invariant
            t@ == encode_utf8(text@),
            k@ == encode_utf8(token@),
            n == k@.len(),
            m == t@.len(),
            at + n <= m,
            i <= n,
            forall|j: int| 0 <= j < i ==> t@[at + j] == #[trigger] k@[j],
        decreases n - i,
    {
        if t[at + i] != k[i] {
            assert(t@.subrange(at as int, at + n)[i as int] != k@[i as int]);
            return false;
        }
        i += 1;
    }
    assert(t@.subrange(at as int, at + n) =~= k@);
    true
}

/// True when `text` starts with `token`.
pub fn starts_with(text: &str, token: &str) -> (r: bool)
    ensures
        r == occurs_at(text@, token@, 0),
{
    has_at(text, token, 0)
}

/// True when `text` ends with `token`.
pub fn ends_with(text: &str, token: &str) -> (r: bool)
    ensures
        r == occurs_at(text@, token@, size(text@) - size(token@)),
{
    let n: usize = byte_len(text);
    let m: usize = byte_len(token);
    m <= n && has_at(text, token, n - m)
}

/// True when the two texts are the same.
pub fn same(a: &str, b: &str) -> (r: bool)
    ensures
        r == (a@ == b@),
{
    let n: usize = byte_len(a);
    let m: usize = byte_len(b);
    proof {
        if n == m {
            assert(encode_utf8(a@).subrange(0, n as int) =~= encode_utf8(a@));
            if occurs_at(a@, b@, 0) {
                lemma_encode_injective(a@, b@);
            }
        }
    }
    n == m && has_at(a, b, 0)
}

/// The positions from `from` on at which `token` occurs in `text`, from left to
/// right, each search going on behind the occurrence before.
pub open spec fn occurrences(text: Seq<char>, token: Seq<char>, from: int) -> Seq<int>
    decreases size(text) - from,
{
    if from < 0 || size(token) <= 0 || size(text) < from + size(token) {
        Seq::empty()
    } else if occurs_at(text, token, from) {
        seq![from] + occurrences(text, token, from + size(token))
    } else {
        occurrences(text, token, from + 1)
    }
}

/// A position as a mathematical integer.
pub open spec fn as_position(r: Option<usize>) -> Option<int> {
    match r {
        Some(i) => Some(i as int),
        None => None,
    }
}

/// Positions as mathematical integers.
pub open spec fn as_positions(s: Seq<usize>) -> Seq<int> {
    s.map_values(|i: usize| i as int)
}

/// The token stands at each of its occurrences, and they do not overlap.
pub proof fn lemma_occurrences(text: Seq<char>, token: Seq<char>, from: int)
    ensures
        forall|i: int|
            0 <= i < occurrences(text, token, from).len() ==> {
                &&& from <= #[trigger] occurrences(text, token, from)[i]
                &&& occurs_at(text, token, occurrences(text, token, from)[i])
            },
        forall|i: int, j: int|
            0 <= i < j < occurrences(text, token, from).len() ==> #[trigger] occurrences(
                text,
                token,
                from,
            )[i] + size(token) <= #[trigger] occurrences(text, token, from)[j],
    decreases size(text) - from,
{
    if from < 0 || size(token) <= 0 || size(text) < from + size(token) {
    } else if occurs_at(text, token, from) {
        lemma_occurrences(text, token, from + size(token));
        let rest = occurrences(text, token, from + size(token));
        let all = occurrences(text, token, from);
        assert forall|i: int| 0 <= i < all.len() implies {
            &&& from <= #[trigger] all[i]
            &&& occurs_at(text, token, all[i])
        } by {
            if i > 0 {
                assert(all[i] == rest[i - 1]);
            }
        }
        assert forall|i: int, j: int| 0 <= i < j < all.len() implies #[trigger] all[i] + size(token)
            <= #[trigger] all[j] by {
            assert(all[j] == rest[j - 1]);
            if i > 0 {
                assert(all[i] == rest[i - 1]);
            }
        }
    } else {
        lemma_occurrences(text, token, from + 1);
        assert(occurrences(text, token, from) == occurrences(text, token, from + 1));
    }
}

/// The positions at which `token` occurs in `text`, from left to right.
pub fn find_all(text: &str, token: &str) -> (r: Vec<usize>)
    requires
        token@.len() > 0,
    ensures
        as_positions(r@) == occurrences(text@, token@, 0),
{
    let n: usize = byte_len(text);
    let m: usize = byte_len(token);
    let mut out: Vec<usize> = Vec::new();
    let mut i: usize = 0;
    proof {
        lemma_size(token@);
        assert(as_positions(out@) =~= Seq::<int>::empty());
        assert(as_positions(out@) + occurrences(text@, token@, 0) =~= occurrences(text@, token@, 0));
    }
    while i <= n && m <= n - i
        invariant
            n == size(text@),
            m == size(token@),
            0 < m,
            i <= n,
            as_positions(out@) + occurrences(text@, token@, i as int) == occurrences(text@, token@, 0),
        decreases n - i,
    {
        if has_at(text, token, i) {
            let ghost was = as_positions(out@);
            out.push(i);
            proof {
                assert(as_positions(out@) =~= was.push(i as int));
                let rest = occurrences(text@, token@, i + m);
                assert(was + (seq![i as int] + rest) =~= was.push(i as int) + rest);
            }
            i += m;
        } else {
            i += 1;
        }
    }
    proof {
        assert(occurrences(text@, token@, i as int) =~= Seq::<int>::empty());
        assert(as_positions(out@) + Seq::<int>::empty() =~= as_positions(out@));
    }
    out
}

/// The last cut of `t` that is not behind `i`.
pub open spec fn floor_cut(t: Seq<char>, i: int) -> int
    decreases i,
{
    if i <= 0 {
        0
    } else if size(t) <= i {
        size(t)
    } else if is_cut(t, i) {
        i
    } else {
        floor_cut(t, i - 1)
    }
}

/// The first cut of `t` that is not before `i`, or its end.
pub open spec fn ceil_cut(t: Seq<char>, i: int) -> int
    decreases size(t) - i,
{
    if size(t) <= i {
        size(t)
    } else if i <= 0 || is_cut(t, i) {
        if i <= 0 {
            0
        } else {
            i
        }
    } else {
        ceil_cut(t, i + 1)
    }
}

/// The cuts around a position are cuts, and lie on either side of it.
pub proof fn lemma_floor_cut(t: Seq<char>, i: int)
    requires
        0 <= i,
    ensures
        is_cut(t, floor_cut(t, i)),
        floor_cut(t, i) <= i,
        is_cut(t, i) ==> floor_cut(t, i) == i,
        forall|k: int| floor_cut(t, i) < k <= i ==> !is_cut(t, k),
    decreases i,
{
    lemma_cut_ends(t);
    if 0 < i < size(t) && !is_cut(t, i) {
        lemma_floor_cut(t, i - 1);
    }
}

/// The cut at or behind a position is a cut, and no cut lies in between.
pub proof fn lemma_ceil_cut(t: Seq<char>, i: int)
    requires
        0 <= i,
    ensures
        is_cut(t, ceil_cut(t, i)),
        i <= size(t) ==> i <= ceil_cut(t, i),
        is_cut(t, i) ==> ceil_cut(t, i) == i,
        forall|k: int| i <= k && #[trigger] is_cut(t, k) ==> ceil_cut(t, i) <= k,
    decreases size(t) - i,
{
    lemma_cut_ends(t);
    if i < size(t) && !is_cut(t, i) {
        lemma_ceil_cut(t, i + 1);
    }
}

/// The last cut of `text` that is not behind `at`.
pub fn floor_char_boundary(text: &str, at: usize) -> (r: usize)
    ensures
        r == floor_cut(text@, at as int),
        is_cut(text@, r as int),
{
    let n: usize = byte_len(text);
    proof {
        lemma_floor_cut(text@, at as int);
        lemma_cut_ends(text@);
    }
    if n <= at {
        return n;
    }
    let bytes = text.as_bytes();
    let mut i: usize = at;
    while 0 < i && 0x80 <= bytes[i] && bytes[i] <= 0xbf
        invariant
            bytes@ == encode_utf8(text@),
            n == bytes@.len(),
            i < n,
            floor_cut(text@, i as int) == floor_cut(text@, at as int),
        decreases i,
    {
        i -= 1;
    }
    i
}

/// The first cut of `text` that is not before `at`, or its end.
pub fn ceil_char_boundary(text: &str, at: usize) -> (r: usize)
    ensures
        r == ceil_cut(text@, at as int),
        is_cut(text@, r as int),
{
    let n: usize = byte_len(text);
    proof {
        lemma_ceil_cut(text@, at as int);
        lemma_cut_ends(text@);
    }
    if n <= at {
        return n;
    }
    let bytes = text.as_bytes();
    let mut i: usize = at;
    while i < n && 0x80 <= bytes[i] && bytes[i] <= 0xbf
        invariant
            bytes@ == encode_utf8(text@),
            n == bytes@.len(),
            i <= n,
            is_cut(text@, 0),
            ceil_cut(text@, i as int) == ceil_cut(text@, at as int),
        decreases n - i,
    {
        i += 1;
    }
    i
}

/// The cut behind the first `n` characters of `text`.
pub fn char_cut(text: &str, n: usize) -> (r: usize)
    requires
        n <= text@.len(),
    ensures
        r == size(text@.take(n as int)),
        is_cut(text@, r as int),
{
    let mut at: usize = 0;
    let mut k: usize = 0;
    proof {
        lemma_cut_ends(text@);
        lemma_whole(text@);
    }
    while k < n
        invariant
            k <= n <= text@.len(),
            is_cut(text@, at as int),
            before(text@, at as int).len() == k,
        decreases n - k,
    {
        proof {
            lemma_split(text@, at as int);
            lemma_size(after(text@, at as int));
        }
        let (_, next) = step(text, at);
        at = next;
        k += 1;
    }
    proof {
        lemma_split(text@, at as int);
        assert(before(text@, at as int) =~= text@.take(n as int));
    }
    at
}

} // verus!
