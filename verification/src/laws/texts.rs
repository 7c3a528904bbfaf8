//! What texts end with, where paragraphs part, and which words are listed.

use vstd::prelude::*;
use vstd::utf8::*;

use crate::case::unicode_upper_case;
use crate::chars::{
    lemma_run_back, lemma_run_front, run_back, run_front, white_space, CarriageReturn, CharClass,
    SentenceMark, White,
};
use crate::constants::terminator;
use crate::languages::boundary::{final_symbol, gap_boundary, gaps_of, sentences, Boundary};
use crate::languages::phrases::month_first;
use crate::laws::markers::{lemma_found, lemma_front_bytes, lemma_number};
use crate::laws::marks::law_white_space_is_no_terminator;
use crate::laws::parts::{
    all_white, law_strip_back, law_strip_front, lemma_back, lemma_front, lemma_meet,
    lemma_meet_three, lemma_starts,
};
use crate::pattern::{gap_length, gaps_from};
use crate::text::{lemma_occurrences, occurrences, occurs_at};
use crate::utf8::{
    after, before, between, lemma_ascii, lemma_between, lemma_cut_ends, lemma_encode_concat,
    lemma_join, lemma_size, lemma_split, size,
};
use crate::words::{is_among, is_entry, is_line, lemma_line_cuts, lists, trimmed, LINE_FEED};

verus! {

/// A text that ends with a terminator, before any white space, has that terminator as its
/// symbol.
pub proof fn law_final_symbol(t: Seq<char>, c: char, w: Seq<char>)
    requires
        terminator(c),
        all_white(w),
    ensures
        final_symbol(t + seq![c] + w) == Some(seq![c]),
{
    let s = t + seq![c];
    if white_space(c) {
        law_white_space_is_no_terminator(c);
    }
    assert(s.last() == c);
    law_strip_back(s, w);
}

/// A text that ends with another character has no symbol, and white space has none.
pub proof fn law_no_final_symbol(t: Seq<char>, c: char, w: Seq<char>)
    requires
        !terminator(c),
        !white_space(c),
        all_white(w),
    ensures
        final_symbol(t + seq![c] + w) is None,
        final_symbol(w) is None,
{
    let s = t + seq![c];
    assert(s.last() == c);
    law_strip_back(s, w);
    assert(Seq::<char>::empty() + w =~= w);
    law_strip_back(Seq::empty(), w);
}

/// The symbol of a sentence is the terminator that stands last in its paragraph up to its
/// end, whatever white space the sentence ends with.
pub proof fn law_symbol_of_sentence(
    a: Seq<char>,
    c: char,
    w: Seq<char>,
    rest: Seq<char>,
    cuts: Seq<int>,
    i: int,
    index: int,
    byte: int,
)
    requires
        terminator(c),
        all_white(w),
        0 <= i && i + 1 < cuts.len(),
        cuts[i + 1] == size(a + seq![c] + w),
    ensures
        sentences(a + seq![c] + w + rest, cuts, index, byte)[i].boundary_symbol == Some(seq![c]),
        sentences(a + seq![c] + w + rest, cuts, index, byte)[i].end_byte == byte + size(
            a + seq![c] + w,
        ),
        sentences(a + seq![c] + w + rest, cuts, index, byte)[i].end_index == index + a.len() + 1
            + w.len(),
{
    let s = a + seq![c] + w;
    lemma_meet(s, rest);
    law_final_symbol(a, c, w);
}

/// A gap is told of by where it stands, in characters and in bytes, and by its text; it is a
/// paragraph break and has no symbol.
pub proof fn law_gap_boundary(a: Seq<char>, g: Seq<char>, b: Seq<char>)
    ensures
        gap_boundary(a + g + b, (size(a), size(a + g))) == (Boundary {
            start_index: a.len() as int,
            end_index: (a.len() + g.len()) as int,
            start_byte: size(a),
            end_byte: size(a) + size(g),
            text: g,
            boundary_symbol: None,
            is_paragraph_break: true,
        }),
{
    lemma_meet(a, g);
    lemma_meet_three(a, g, b);
    lemma_meet(a + g, b);
}

/// A sentence is told of by where it stands in the whole text, behind `index` characters and
/// `byte` bytes of other paragraphs, and by its text; it is no paragraph break.
pub proof fn law_sentence_boundary(
    a: Seq<char>,
    s: Seq<char>,
    b: Seq<char>,
    cuts: Seq<int>,
    i: int,
    index: int,
    byte: int,
)
    requires
        0 <= i && i + 1 < cuts.len(),
        cuts[i] == size(a),
        cuts[i + 1] == size(a + s),
    ensures
        sentences(a + s + b, cuts, index, byte).len() == cuts.len() - 1,
        sentences(a + s + b, cuts, index, byte)[i] == (Boundary {
            start_index: index + a.len(),
            end_index: index + a.len() + s.len(),
            start_byte: byte + size(a),
            end_byte: byte + size(a) + size(s),
            text: s,
            boundary_symbol: final_symbol(a + s),
            is_paragraph_break: false,
        }),
{
    lemma_meet(a, s);
    lemma_meet_three(a, s, b);
    lemma_meet(a + s, b);
}

// Paragraphs.

/// A gap between paragraphs is two line feeds, with carriage returns between them or none.
pub proof fn law_gap(r: Seq<char>, rest: Seq<char>)
    requires
        forall|i: int| 0 <= i < r.len() ==> (#[trigger] r[i]) == '\r',
    ensures
        gap_length(seq!['\n'] + r + seq!['\n'] + rest) == r.len() + 2,
        rest.len() > 0 && rest[0] != '\n' && rest[0] != '\r' ==> gap_length(
            seq!['\n'] + r + rest,
        ) == 0,
        gap_length(seq!['\n'] + r) == 0,
{
    let e = seq!['\n'];
    let t = e + r + e + rest;
    assert(t.drop_first() =~= r + (e + rest));
    assert((e + rest)[0] == '\n');
    assert forall|i: int| 0 <= i < r.len() implies CarriageReturn::has(#[trigger] r[i]) == true by {}
    lemma_front::<CarriageReturn>(r, e + rest, true);
    assert(t[r.len() as int + 1] == '\n');
    let u = e + r;
    assert(u.drop_first() =~= r + Seq::<char>::empty());
    lemma_front::<CarriageReturn>(r, Seq::empty(), true);
    if rest.len() > 0 && rest[0] != '\n' && rest[0] != '\r' {
        let v = e + r + rest;
        assert(v.drop_first() =~= r + rest);
        lemma_front::<CarriageReturn>(r, rest, true);
        assert(v[r.len() as int + 1] == rest[0]);
    }
}

/// The first gap of a text stands behind the first paragraph, here one of a single line.
pub proof fn law_first_gap(a: Seq<char>, r: Seq<char>, b: Seq<char>)
    requires
        forall|i: int| 0 <= i < a.len() ==> (#[trigger] a[i]) != '\n',
        forall|i: int| 0 <= i < r.len() ==> (#[trigger] r[i]) == '\r',
    ensures
        gaps_of(a + (seq!['\n'] + r + seq!['\n'] + b)) == seq![
            (size(a), size(a) + r.len() + 2),
        ] + gaps_from(b, size(a) + r.len() + 2),
{
    lemma_gaps_behind(a, seq!['\n'] + r + seq!['\n'] + b, 0);
    let e = seq!['\n'];
    let t = e + r + e + b;
    law_gap(r, b);
    let g = e + r + e;
    assert(t.take(r.len() as int + 2) =~= g);
    assert(t.skip(r.len() as int + 2) =~= b);
    assert forall|i: int| 0 <= i < g.len() implies (#[trigger] g[i]) < '\u{80}' by {
        if 0 < i < r.len() + 1 {
            assert(g[i] == r[i - 1]);
        }
    }
    lemma_front_bytes(g, b);
}

/// A text without line feeds has no gaps.
pub proof fn law_no_gap(a: Seq<char>)
    requires
        forall|i: int| 0 <= i < a.len() ==> (#[trigger] a[i]) != '\n',
    ensures
        gaps_of(a) == Seq::<(int, int)>::empty(),
{
    lemma_gaps_behind(a, Seq::empty(), 0);
    assert(a + Seq::<char>::empty() =~= a);
}

proof fn lemma_gaps_behind(a: Seq<char>, t: Seq<char>, at: int)
    requires
        forall|i: int| 0 <= i < a.len() ==> (#[trigger] a[i]) != '\n',
    ensures
        gaps_from(a + t, at) == gaps_from(t, at + size(a)),
    decreases a.len(),
{
    if a.len() == 0 {
        assert(a + t =~= t);
        lemma_size(a);
    } else {
        let rest = a.drop_first();
        assert(a[0] != '\n');
        assert forall|i: int| 0 <= i < rest.len() implies (#[trigger] rest[i]) != '\n' by {
            assert(rest[i] == a[i + 1]);
        }
        assert((a + t)[0] == a[0]);
        assert((a + t).drop_first() =~= rest + t);
        assert((a + t).take(1) =~= seq![a[0]]);
        assert(a =~= seq![a[0]] + rest);
        lemma_encode_concat(seq![a[0]], rest);
        lemma_gaps_behind(rest, t, at + size(seq![a[0]]));
    }
}

// Word lists.

/// True when the list `t` has the line `v + w + x` in it, behind `a` and before `b`, and on it
/// the word `w`, which is no comment, with white space around it.
pub open spec fn has_entry_line(
    t: Seq<char>,
    a: Seq<char>,
    v: Seq<char>,
    w: Seq<char>,
    x: Seq<char>,
    b: Seq<char>,
) -> bool {
    &&& t == a + (v + w + x) + b
    &&& a.len() > 0 ==> a.last() == '\n'
    &&& b.len() > 0 ==> b[0] == '\n'
    &&& forall|i: int| 0 <= i < (v + w + x).len() ==> (#[trigger] (v + w + x)[i]) != '\n'
    &&& all_white(v) && all_white(x)
    &&& w.len() > 0 && !white_space(w[0]) && !white_space(w.last())
    &&& !(w.len() >= 2 && w[0] == '/' && w[1] == '/')
}

/// A list holds what stands on its lines, without the white space around it. Empty lines and
/// lines that start with `//` hold nothing.
pub proof fn law_what_a_list_holds(t: Seq<char>, w: Seq<char>)
    ensures
        lists(t, w) <==> exists|a: Seq<char>, v: Seq<char>, x: Seq<char>, b: Seq<char>| #[trigger]
            has_entry_line(t, a, v, w, x, b),
{
    lemma_comment(w);
    if exists|a: Seq<char>, v: Seq<char>, x: Seq<char>, b: Seq<char>| #[trigger]
        has_entry_line(t, a, v, w, x, b) {
        let (a, v, x, b) = choose|a: Seq<char>, v: Seq<char>, x: Seq<char>, b: Seq<char>|
            #[trigger] has_entry_line(t, a, v, w, x, b);
        lemma_entry_line(t, a, v, w, x, b);
    }
    if lists(t, w) {
        let (i, j) = choose|i: int, j: int| #[trigger]
            is_line(t, i, j) && trimmed(between(t, i, j)) == w;
        lemma_line_parts(t, w, i, j);
    }
}

proof fn lemma_comment(w: Seq<char>)
    ensures
        is_entry(w) <==> w.len() > 0 && !(w.len() >= 2 && w[0] == '/' && w[1] == '/'),
{
    reveal_strlit("//");
    let c = "//"@;
    assert(c =~= seq!['/', '/']);
    lemma_starts(w, c);
    if w.len() >= 2 {
        assert(w.take(2)[0] == w[0] && w.take(2)[1] == w[1]);
        if w[0] == '/' && w[1] == '/' {
            assert(w.take(2) =~= c);
        }
    }
}

proof fn lemma_trimmed(v: Seq<char>, w: Seq<char>, x: Seq<char>)
    requires
        all_white(v) && all_white(x),
        w.len() > 0 && !white_space(w[0]) && !white_space(w.last()),
    ensures
        trimmed(v + w + x) == w,
{
    assert(v + w + x =~= v + (w + x));
    assert((w + x)[0] == w[0]);
    law_strip_front(v, w + x);
    law_strip_back(w, x);
}

proof fn lemma_entry_line(
    t: Seq<char>,
    a: Seq<char>,
    v: Seq<char>,
    w: Seq<char>,
    x: Seq<char>,
    b: Seq<char>,
)
    requires
        has_entry_line(t, a, v, w, x, b),
    ensures
        lists(t, w),
{
    let l = v + w + x;
    lemma_trimmed(v, w, x);
    lemma_comment(w);
    lemma_meet_three(a, l, b);
    let i = size(a);
    let j = size(a) + size(l);
    lemma_encode_concat(a, l);
    lemma_encode_concat(a + l, b);
    let bytes = encode_utf8(t);
    lemma_size(a);
    lemma_size(b);
    if i > 0 {
        let front = a.drop_last();
        let last = seq![a.last()];
        assert(a =~= front + last);
        lemma_encode_concat(front, last);
        lemma_front_bytes(last, Seq::empty());
        assert(last + Seq::<char>::empty() =~= last);
        assert(encode_utf8(last)[0] as int == last[0] as int);
        assert(bytes[i - 1] == encode_utf8(a)[i - 1]);
        assert(encode_utf8(a)[i - 1] == encode_utf8(last)[0]);
    }
    if j < bytes.len() {
        assert(b.len() > 0);
        lemma_front_bytes(seq![b[0]], b.drop_first());
        assert(seq![b[0]] + b.drop_first() =~= b);
        assert(encode_utf8(b)[0] as int == seq![b[0]][0] as int);
        assert(bytes[j] == encode_utf8(b)[0]);
    }
    assert forall|k: int| i <= k < j implies #[trigger] bytes[k] != LINE_FEED by {
        assert(bytes[k] == encode_utf8(l)[k - i]);
        if bytes[k] == LINE_FEED {
            lemma_ascii(l, k - i);
            lemma_found(l, k - i);
            lemma_number(after(l, k - i)[0]);
            let m = l.index_of(after(l, k - i)[0]);
            assert(l[m] == '\n');
        }
    }
    assert(is_line(t, i, j) && trimmed(between(t, i, j)) == w);
}

/// What a line of a list is made of.
proof fn lemma_line_parts(t: Seq<char>, w: Seq<char>, i: int, j: int)
    requires
        is_line(t, i, j),
        trimmed(between(t, i, j)) == w,
        is_entry(w),
    ensures
        exists|a: Seq<char>, v: Seq<char>, x: Seq<char>, b: Seq<char>| #[trigger]
            has_entry_line(t, a, v, w, x, b),
{
    lemma_comment(w);
    lemma_line_around(t, i, j);
    lemma_no_line_feed(t, i, j);
    let l = between(t, i, j);
    let (v, x) = lemma_word_parts(l, w);
    assert(has_entry_line(t, before(t, i), v, w, x, after(t, j)));
}

/// What stands around a line.
proof fn lemma_line_around(t: Seq<char>, i: int, j: int)
    requires
        is_line(t, i, j),
    ensures
        t == before(t, i) + between(t, i, j) + after(t, j),
        before(t, i).len() > 0 ==> before(t, i).last() == '\n',
        after(t, j).len() > 0 ==> after(t, j)[0] == '\n',
{
    lemma_line_cuts(t, i, j);
    let a = before(t, i);
    let b = after(t, j);
    lemma_split(t, j);
    lemma_split(t, i);
    lemma_cut_ends(t);
    lemma_join(t, 0, i, j);
    lemma_size(a);
    lemma_size(b);
    if a.len() > 0 {
        lemma_ascii(t, i - 1);
        lemma_split(t, i - 1);
        let c = after(t, i - 1);
        lemma_number(c[0]);
        let f = before(t, i - 1);
        assert(c =~= seq![c[0]] + after(t, i));
        assert(f + c =~= f.push(c[0]) + after(t, i));
        assert(a.len() == f.push(c[0]).len());
        assert((a + after(t, i))[a.len() - 1] == a.last());
    }
    if b.len() > 0 {
        lemma_ascii(t, j);
        lemma_number(b[0]);
    }
}

/// A line has no line feed in it.
proof fn lemma_no_line_feed(t: Seq<char>, i: int, j: int)
    requires
        is_line(t, i, j),
    ensures
        forall|k: int|
            0 <= k < between(t, i, j).len() ==> (#[trigger] between(t, i, j)[k]) != '\n',
{
    lemma_line_cuts(t, i, j);
    lemma_between(t, i, j);
    let l = between(t, i, j);
    let bytes = encode_utf8(t);
    assert forall|k: int| 0 <= k < l.len() implies (#[trigger] l[k]) != '\n' by {
        if l[k] == '\n' {
            let p = l.take(k);
            let q = l.skip(k);
            assert(l =~= p + q);
            lemma_encode_concat(p, q);
            lemma_front_bytes(seq![q[0]], q.drop_first());
            assert(seq![q[0]] + q.drop_first() =~= q);
            assert(encode_utf8(q)[0] as int == seq![q[0]][0] as int);
            assert(encode_utf8(l)[size(p)] == encode_utf8(q)[0]);
            assert(bytes[i + size(p)] == encode_utf8(l)[size(p)]);
        }
    }
}

/// A word and the white space around it.
proof fn lemma_word_parts(l: Seq<char>, w: Seq<char>) -> (r: (Seq<char>, Seq<char>))
    requires
        trimmed(l) == w,
        w.len() > 0,
    ensures
        l == r.0 + w + r.1,
        all_white(r.0) && all_white(r.1),
        !white_space(w[0]) && !white_space(w.last()),
{
    let n = run_front::<White>(l, true);
    lemma_run_front::<White>(l, true);
    let v = l.take(n);
    let u = l.skip(n);
    let m = run_back::<White>(u, true);
    lemma_run_back::<White>(u, true);
    let x = u.skip(u.len() - m);
    assert(w =~= u.take(u.len() - m));
    assert(u =~= w + x);
    assert(l =~= v + w + x);
    assert(all_white(v)) by {
        assert forall|k: int| 0 <= k < v.len() implies white_space(#[trigger] v[k]) by {
            assert(White::has(l[k]));
        }
    }
    assert(all_white(x)) by {
        assert forall|k: int| 0 <= k < x.len() implies white_space(#[trigger] x[k]) by {
            assert(x[k] == u[u.len() - m + k]);
            assert(White::has(u[u.len() - m + k]));
        }
    }
    assert(w[0] == u[0] && u[0] == l[n]);
    assert(w.last() == u[u.len() - m - 1]);
    (v, x)
}

// Months.

/// True for `.`, `!` and `?`.
pub open spec fn is_mark(c: char) -> bool {
    c == '.' || c == '!' || c == '?'
}

pub open spec fn all_marks(s: Seq<char>) -> bool {
    forall|i: int| 0 <= i < s.len() ==> is_mark(#[trigger] s[i])
}

/// A text starts with a month when its first word, without the sentence marks around it, is
/// listed as it stands or with its first letter in upper case.
pub proof fn law_month_first(
    v: Seq<char>,
    x: Seq<char>,
    m: Seq<char>,
    y: Seq<char>,
    rest: Seq<char>,
    months: Seq<&str>,
)
    requires
        all_white(v),
        all_marks(x),
        all_marks(y),
        m.len() > 0,
        !is_mark(m[0]) && !is_mark(m.last()),
        forall|i: int| 0 <= i < m.len() ==> !white_space(#[trigger] m[i]),
        rest.len() > 0 ==> white_space(rest[0]),
    ensures
        month_first(v + (x + m + y + rest), months) <==> is_among(months, m) || is_among(
            months,
            unicode_upper_case(seq![m[0]]) + m.drop_first(),
        ),
{
    let w = x + m + y;
    let t = w + rest;
    assert forall|i: int| 0 <= i < w.len() implies White::has(#[trigger] w[i]) == false by {
        if i < x.len() {
            assert(is_mark(x[i]));
        } else if i < x.len() + m.len() {
            assert(w[i] == m[i - x.len()]);
        } else {
            assert(w[i] == y[i - x.len() - m.len()]);
            assert(is_mark(y[i - x.len() - m.len()]));
        }
    }
    assert(!White::has(w[0]));
    assert(t[0] == w[0]);
    law_strip_front(v, t);
    lemma_front::<White>(w, rest, false);
    assert forall|i: int| 0 <= i < x.len() implies SentenceMark::has(#[trigger] x[i]) == true by {
        assert(is_mark(x[i]));
    }
    assert forall|i: int| 0 <= i < y.len() implies SentenceMark::has(#[trigger] y[i]) == true by {
        assert(is_mark(y[i]));
    }
    assert(w =~= x + (m + y));
    assert((m + y)[0] == m[0]);
    lemma_front::<SentenceMark>(x, m + y, true);
    lemma_back::<SentenceMark>(m, y, true);
}

/// A text whose first word is nothing but sentence marks starts with no month.
pub proof fn law_no_month_first(v: Seq<char>, x: Seq<char>, rest: Seq<char>, months: Seq<&str>)
    requires
        all_white(v),
        all_marks(x),
        x.len() > 0 || rest.len() == 0,
        rest.len() > 0 ==> white_space(rest[0]),
    ensures
        !month_first(v + (x + rest), months),
{
    let t = x + rest;
    assert forall|i: int| 0 <= i < x.len() implies White::has(#[trigger] x[i]) == false by {
        assert(is_mark(x[i]));
    }
    if x.len() > 0 {
        assert(is_mark(x[0]));
        assert(t[0] == x[0]);
    }
    law_strip_front(v, t);
    lemma_front::<White>(x, rest, false);
    assert forall|i: int| 0 <= i < x.len() implies SentenceMark::has(#[trigger] x[i]) == true by {
        assert(is_mark(x[i]));
    }
    assert(x + Seq::<char>::empty() =~= x);
    lemma_front::<SentenceMark>(x, Seq::empty(), true);
    lemma_back::<SentenceMark>(Seq::empty(), Seq::empty(), true);
    assert(Seq::<char>::empty() + Seq::<char>::empty() =~= Seq::<char>::empty());
}

// Tokens.

/// A token is counted from left to right, each count going on behind the one before: no two
/// that are counted overlap, and every place where the token stands overlaps one of them.
pub proof fn law_occurrences(text: Seq<char>, token: Seq<char>, k: int)
    requires
        token.len() > 0,
    ensures
        forall|i: int|
            0 <= i < occurrences(text, token, 0).len() ==> occurs_at(
                text,
                token,
                #[trigger] occurrences(text, token, 0)[i],
            ),
        forall|i: int, j: int|
            0 <= i < j < occurrences(text, token, 0).len() ==> #[trigger] occurrences(
                text,
                token,
                0,
            )[i] + size(token) <= #[trigger] occurrences(text, token, 0)[j],
        occurs_at(text, token, k) ==> exists|i: int|
            0 <= i < occurrences(text, token, 0).len() && #[trigger] occurrences(text, token, 0)[i]
                <= k < occurrences(text, token, 0)[i] + size(token),
{
    lemma_size(token);
    lemma_occurrences(text, token, 0);
    if occurs_at(text, token, k) {
        lemma_counted(text, token, 0, k);
    }
}

proof fn lemma_counted(text: Seq<char>, token: Seq<char>, from: int, k: int)
    requires
        size(token) > 0,
        0 <= from <= k,
        occurs_at(text, token, k),
    ensures
        exists|i: int|
            0 <= i < occurrences(text, token, from).len() && #[trigger] occurrences(
                text,
                token,
                from,
            )[i] <= k < occurrences(text, token, from)[i] + size(token),
    decreases size(text) - from,
{
    let all = occurrences(text, token, from);
    if occurs_at(text, token, from) {
        if k < from + size(token) {
            assert(all[0] == from);
        } else {
            let rest = occurrences(text, token, from + size(token));
            lemma_counted(text, token, from + size(token), k);
            let i = choose|i: int|
                0 <= i < rest.len() && #[trigger] rest[i] <= k < rest[i] + size(token);
            assert(all[i + 1] == rest[i]);
        }
    } else {
        lemma_counted(text, token, from + 1, k);
    }
}

} // verus!
