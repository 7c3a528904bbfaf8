//! Byte positions in text, and the characters that lie before, after and
//! between them.
//!
//! A text is a sequence of characters; its bytes are the UTF-8 encoding of that
//! sequence. Every position in this crate is a byte position, and a text may
//! only be divided at a *cut*: a position that does not fall inside the encoding
//! of one character.

use vstd::prelude::*;
use vstd::utf8::*;

verus! {

/// The length of `t` in bytes.
pub open spec fn size(t: Seq<char>) -> int {
    encode_utf8(t).len() as int
}

/// True when `t` may be divided at the byte position `i`.
pub open spec fn is_cut(t: Seq<char>, i: int) -> bool {
    &&& 0 <= i <= size(t)
    &&& i == size(t) || !is_continuation_byte(encode_utf8(t)[i])
}

/// The characters of `t` between the cuts `i` and `j`.
pub open spec fn between(t: Seq<char>, i: int, j: int) -> Seq<char> {
    decode_utf8(encode_utf8(t).subrange(i, j))
}

/// The characters of `t` before the cut `i`.
pub open spec fn before(t: Seq<char>, i: int) -> Seq<char> {
    between(t, 0, i)
}

/// The characters of `t` from the cut `i` on.
pub open spec fn after(t: Seq<char>, i: int) -> Seq<char> {
    between(t, i, size(t))
}

/// Encoding a concatenation is concatenating the encodings.
pub proof fn lemma_encode_concat(a: Seq<char>, b: Seq<char>)
    ensures
        encode_utf8(a + b) == encode_utf8(a) + encode_utf8(b),
        size(a + b) == size(a) + size(b),
    decreases a.len(),
{
    if a.len() == 0 {
        assert(a + b =~= b);
        assert(encode_utf8(a) + encode_utf8(b) =~= encode_utf8(b));
    } else {
        assert((a + b).drop_first() =~= a.drop_first() + b);
        lemma_encode_concat(a.drop_first(), b);
        assert(encode_utf8(a + b) =~= encode_utf8(a) + encode_utf8(b));
    }
}

/// Texts with the same bytes are the same.
pub proof fn lemma_encode_injective(a: Seq<char>, b: Seq<char>)
    requires
        encode_utf8(a) == encode_utf8(b),
    ensures
        a == b,
{
    encode_utf8_decode_utf8(a);
    encode_utf8_decode_utf8(b);
}

/// A cut is what the standard library calls a character boundary.
pub proof fn lemma_cut_is_boundary(t: Seq<char>, i: int)
    ensures
        is_cut(t, i) <==> is_char_boundary(encode_utf8(t), i),
{
    let b = encode_utf8(t);
    encode_utf8_valid_utf8(t);
    is_char_boundary_start_end_of_seq(b);
    if 0 <= i < b.len() {
        is_char_boundary_iff_not_is_continuation_byte(b, i);
    }
}

/// Both ends of a text are cuts.
pub proof fn lemma_cut_ends(t: Seq<char>)
    ensures
        is_cut(t, 0),
        is_cut(t, size(t)),
{
    encode_utf8_valid_utf8(t);
    is_char_boundary_start_end_of_seq(encode_utf8(t));
    lemma_cut_is_boundary(t, 0);
}

/// The piece between two cuts has the bytes between them.
pub proof fn lemma_between(t: Seq<char>, i: int, j: int)
    requires
        is_cut(t, i),
        is_cut(t, j),
        i <= j,
    ensures
        encode_utf8(between(t, i, j)) == encode_utf8(t).subrange(i, j),
        size(between(t, i, j)) == j - i,
{
    let b = encode_utf8(t);
    encode_utf8_valid_utf8(t);
    lemma_cut_is_boundary(t, j);
    valid_utf8_split(b, j);
    let p = b.subrange(0, j);
    let u = decode_utf8(p);
    decode_utf8_encode_utf8(p);
    assert(is_cut(u, i)) by {
        assert(encode_utf8(u) == p);
    }
    lemma_cut_is_boundary(u, i);
    valid_utf8_split(p, i);
    assert(p.subrange(i, p.len() as int) =~= b.subrange(i, j));
    decode_utf8_encode_utf8(b.subrange(i, j));
}


/// Every cut divides a text into two parts that make up the whole.
pub proof fn lemma_split(t: Seq<char>, i: int)
    requires
        is_cut(t, i),
    ensures
        before(t, i) + after(t, i) == t,
        encode_utf8(before(t, i)) == encode_utf8(t).subrange(0, i),
        encode_utf8(after(t, i)) == encode_utf8(t).subrange(i, size(t)),
        size(before(t, i)) == i,
        size(after(t, i)) == size(t) - i,
{
    lemma_cut_ends(t);
    lemma_between(t, 0, i);
    lemma_between(t, i, size(t));
    lemma_encode_concat(before(t, i), after(t, i));
    assert(encode_utf8(t) =~= encode_utf8(t).subrange(0, i) + encode_utf8(t).subrange(i, size(t)));
    lemma_encode_injective(before(t, i) + after(t, i), t);
}

/// A piece is fixed by its bytes.
pub proof fn lemma_piece(t: Seq<char>, i: int, j: int, piece: Seq<char>)
    requires
        encode_utf8(piece) == encode_utf8(t).subrange(i, j),
    ensures
        piece == between(t, i, j),
{
    encode_utf8_decode_utf8(piece);
}

/// The cuts of a piece are the cuts of the whole that lie in it, and its pieces
/// are pieces of the whole.
pub proof fn lemma_nested(t: Seq<char>, i: int, j: int)
    requires
        is_cut(t, i),
        is_cut(t, j),
        i <= j,
    ensures
        forall|k: int| #[trigger]
            is_cut(between(t, i, j), k) <==> 0 <= k <= j - i && is_cut(t, i + k),
        forall|k: int, l: int|
            0 <= k <= l <= j - i ==> #[trigger] between(between(t, i, j), k, l) == between(
                t,
                i + k,
                i + l,
            ),
{
    lemma_between(t, i, j);
    let u = between(t, i, j);
    assert forall|k: int, l: int| 0 <= k <= l <= j - i implies #[trigger] between(u, k, l)
        == between(t, i + k, i + l) by {
        assert(encode_utf8(u).subrange(k, l) =~= encode_utf8(t).subrange(i + k, i + l));
    }
}

/// Pieces that meet at a cut make up the piece from end to end.
pub proof fn lemma_join(t: Seq<char>, i: int, j: int, k: int)
    requires
        is_cut(t, i),
        is_cut(t, j),
        is_cut(t, k),
        i <= j <= k,
    ensures
        between(t, i, j) + between(t, j, k) == between(t, i, k),
{
    lemma_between(t, i, j);
    lemma_between(t, j, k);
    lemma_between(t, i, k);
    lemma_encode_concat(between(t, i, j), between(t, j, k));
    assert(encode_utf8(between(t, i, j) + between(t, j, k)) =~= encode_utf8(between(t, i, k)));
    lemma_encode_injective(between(t, i, j) + between(t, j, k), between(t, i, k));
}

/// The whole text lies between its two ends.
pub proof fn lemma_whole(t: Seq<char>)
    ensures
        between(t, 0, size(t)) == t,
        before(t, size(t)) == t,
        after(t, 0) == t,
        after(t, size(t)) == Seq::<char>::empty(),
        before(t, 0) == Seq::<char>::empty(),
{
    assert(encode_utf8(t).subrange(0, size(t)) =~= encode_utf8(t));
    lemma_piece(t, 0, size(t), t);
    assert(encode_utf8(t).subrange(0, 0) =~= encode_utf8(Seq::<char>::empty()));
    assert(encode_utf8(t).subrange(size(t), size(t)) =~= encode_utf8(Seq::<char>::empty()));
    lemma_piece(t, 0, 0, Seq::<char>::empty());
    lemma_piece(t, size(t), size(t), Seq::<char>::empty());
}

/// A text is empty exactly when it has no bytes, and every character takes at
/// least one byte.
pub proof fn lemma_size(t: Seq<char>)
    ensures
        t.len() <= size(t),
        t.len() == 0 <==> size(t) == 0,
    decreases t.len(),
{
    if t.len() > 0 {
        lemma_size(t.drop_first());
    }
}

/// The first character of a text, and the cut behind it.
pub proof fn lemma_first(t: Seq<char>)
    requires
        t.len() > 0,
    ensures
        0 < encode_scalar(t[0] as u32).len() <= size(t),
        is_cut(t, encode_scalar(t[0] as u32).len() as int),
        after(t, encode_scalar(t[0] as u32).len() as int) == t.drop_first(),
        before(t, encode_scalar(t[0] as u32).len() as int) == seq![t[0]],
        forall|k: int|
            0 < k < encode_scalar(t[0] as u32).len() ==> is_continuation_byte(
                #[trigger] encode_utf8(t)[k],
            ),
        (t[0] as u32) < 0x80 <==> encode_utf8(t)[0] < 0x80,
        (t[0] as u32) < 0x80 ==> encode_utf8(t)[0] as u32 == t[0] as u32 && encode_scalar(
            t[0] as u32,
        ).len() == 1,
{
    let b = encode_utf8(t);
    let w = encode_scalar(t[0] as u32).len() as int;
    let rest = t.drop_first();
    encode_utf8_valid_utf8(t);
    encode_utf8_first_scalar(t);
    reveal_with_fuel(is_char_boundary, 2);
    assert(is_char_boundary(b, w));
    lemma_cut_is_boundary(t, w);
    assert forall|k: int| 0 < k < w implies is_continuation_byte(#[trigger] b[k]) by {
        assert(!is_char_boundary(b, k));
        lemma_cut_is_boundary(t, k);
    }
    assert(b.subrange(w, size(t)) =~= encode_utf8(rest));
    lemma_piece(t, w, size(t), rest);
    let one = seq![t[0]];
    assert(one.drop_first() =~= Seq::<char>::empty());
    assert(encode_utf8(one) =~= encode_scalar(t[0] as u32)) by {
        assert(encode_utf8(Seq::<char>::empty()) =~= Seq::<u8>::empty());
    }
    assert(b.subrange(0, w) =~= encode_utf8(one));
    lemma_piece(t, 0, w, one);
    let c = t[0] as u32;
    if c < 0x80 {
        assert((c & 0x7f) as u8 as u32 == c) by (bit_vector)
            requires
                c < 0x80,
        ;
    }
}

/// Moving from one cut to the next passes exactly one character.
pub proof fn lemma_step(t: Seq<char>, i: int, j: int)
    requires
        is_cut(t, i),
        is_cut(t, j),
        i < j,
        forall|k: int| i < k < j ==> is_continuation_byte(#[trigger] encode_utf8(t)[k]),
    ensures
        after(t, i).len() > 0,
        between(t, i, j) == seq![after(t, i)[0]],
        after(t, i) == seq![after(t, i)[0]] + after(t, j),
        before(t, j) == before(t, i).push(after(t, i)[0]),
        encode_scalar(after(t, i)[0] as u32).len() == j - i,
{
    lemma_cut_ends(t);
    lemma_split(t, i);
    let u = after(t, i);
    lemma_size(u);
    lemma_first(u);
    let w = encode_scalar(u[0] as u32).len() as int;
    lemma_nested(t, i, size(t));
    if w < j - i {
        assert(is_cut(u, w));
        assert(is_continuation_byte(encode_utf8(t)[i + w]));
    } else if w > j - i {
        assert(encode_utf8(u)[j - i] == encode_utf8(t)[j]);
        assert(is_cut(u, j - i));
    }
    assert(between(u, 0, w) == between(t, i, j));
    assert(between(u, w, size(u)) == between(t, j, size(t)));
    assert(u =~= seq![u[0]] + u.drop_first());
    lemma_join(t, 0, i, j);
    assert(before(t, j) =~= before(t, i).push(u[0]));
}


/// A byte below 0x80 is a character of its own.
pub proof fn lemma_ascii(t: Seq<char>, i: int)
    requires
        0 <= i < size(t),
        encode_utf8(t)[i] < 0x80,
    ensures
        is_cut(t, i),
        is_cut(t, i + 1),
        after(t, i).len() > 0,
        after(t, i)[0] as u32 == encode_utf8(t)[i] as u32,
        after(t, i).drop_first() == after(t, i + 1),
{
    lemma_cut_ends(t);
    lemma_split(t, i);
    let u = after(t, i);
    lemma_size(u);
    lemma_first(u);
    lemma_nested(t, i, size(t));
    assert(is_cut(u, 1));
    assert(between(u, 1, size(u)) == between(t, i + 1, size(t)));
}

/// The first `n` characters behind a cut end at a cut.
pub proof fn lemma_take(t: Seq<char>, at: int, n: int)
    requires
        is_cut(t, at),
        0 <= n <= after(t, at).len(),
    ensures
        is_cut(t, at + size(after(t, at).take(n))),
        between(t, at, at + size(after(t, at).take(n))) == after(t, at).take(n),
        after(t, at + size(after(t, at).take(n))) == after(t, at).skip(n),
        size(after(t, at).take(n)) >= n,
        n > 0 ==> size(after(t, at).take(n)) > 0,
{
    let rest = after(t, at);
    let front = rest.take(n);
    let back = rest.skip(n);
    lemma_split(t, at);
    lemma_cut_ends(t);
    lemma_cut_ends(back);
    lemma_size(front);
    assert(rest =~= front + back);
    lemma_encode_concat(front, back);
    let b = encode_utf8(t);
    let to = at + size(front);
    assert(encode_utf8(rest) == b.subrange(at, size(t)));
    assert(encode_utf8(front) =~= b.subrange(at, to)) by {
        assert forall|i: int| 0 <= i < size(front) implies encode_utf8(front)[i] == b[at + i] by {
            assert(encode_utf8(rest)[i] == b[at + i]);
        }
    }
    assert(encode_utf8(back) =~= b.subrange(to, size(t))) by {
        assert forall|i: int| 0 <= i < size(back) implies encode_utf8(back)[i] == b[to + i] by {
            assert(encode_utf8(rest)[size(front) + i] == b[to + i]);
        }
    }
    lemma_piece(t, at, to, front);
    lemma_piece(t, to, size(t), back);
    if to < size(t) {
        assert(encode_utf8(back)[0] == b[to]);
    }
}

} // verus!
