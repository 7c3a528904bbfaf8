//! Lists, line by line.

use vstd::prelude::*;
use vstd::utf8::*;

use crate::languages::boundary::joined;
use crate::languages::cuts::{with_cut, with_starts};
use crate::languages::list_markers::{
    all_candidates, candidate_at, horiz_ws, inline_candidates, inline_marker, lemma_next_byte_is,
    lemma_runs, lemma_ws_end, line_candidates, line_end, line_marker, list_starts, marker, ws_end,
    CLOSE, NEWLINE, Candidate, MarkerFamily,
};
use crate::languages::ranges::SkippableRange;
use crate::languages::rules::{skippable_ranges, with_list, Rules};
use crate::languages::terminators::folded;
use crate::laws::items::{all_of, far_apart, law_candidates_of_one_family, places};
use crate::laws::markers::{
    all_blank, blank, bullet, law_ascii_bullets, law_bullets, law_marker_at_line_start, lemma_found,
    lemma_front_bytes, lemma_number,
};
use crate::laws::parts::{lemma_meet, lemma_meet_three};
use crate::pattern::regex_find_iter;
use crate::utf8::{
    after, before, between, lemma_ascii, lemma_encode_concat, lemma_first, lemma_nested, lemma_size,
    lemma_split, size,
};

verus! {

/// True when `s` has neither brackets nor bullets beyond ASCII in it.
pub open spec fn plain(s: Seq<char>) -> bool {
    forall|i: int|
        0 <= i < s.len() ==> (#[trigger] s[i]) != '(' && s[i] != ')' && !bullet(s[i])
}

/// True when `s` has no spaces or tabs in it.
pub open spec fn no_blank(s: Seq<char>) -> bool {
    forall|i: int| 0 <= i < s.len() ==> !blank(#[trigger] s[i])
}

/// True when `l` is a line with `rest` behind it: it ends with its only line feed, or
/// nothing follows it.
pub open spec fn is_whole_line(l: Seq<char>, rest: Seq<char>) -> bool {
    &&& l.len() > 0
    &&& forall|i: int| 0 <= i < l.len() - 1 ==> (#[trigger] l[i]) != '\n'
    &&& l.last() == '\n' || rest.len() == 0
}

/// Where a line ends.
proof fn lemma_line_end(a: Seq<char>, l: Seq<char>, r: Seq<char>)
    requires
        is_whole_line(l, r),
    ensures
        line_end(encode_utf8(a + l + r), size(a)) == size(a) + size(l),
{
    let t = a + l + r;
    let b = encode_utf8(t);
    lemma_encode_concat(a, l);
    lemma_encode_concat(a + l, r);
    let front = l.drop_last();
    let last = seq![l.last()];
    assert(l =~= front + last);
    lemma_encode_concat(front, last);
    lemma_size(last);
    let n = size(front);
    assert forall|i: int| 0 <= i < n implies (#[trigger] encode_utf8(front)[i]) != NEWLINE by {
        if encode_utf8(front)[i] == NEWLINE {
            lemma_ascii(front, i);
            lemma_found(front, i);
            lemma_number(after(front, i)[0]);
            let j = front.index_of(after(front, i)[0]);
            assert(front[j] == l[j]);
        }
    }
    let start = size(a);
    assert forall|i: int| start <= i < start + n implies b[i] != NEWLINE by {
        assert(b[i] == encode_utf8(front)[i - start]);
    }
    if l.last() == '\n' {
        lemma_front_bytes(last, Seq::empty());
        assert(last + Seq::<char>::empty() =~= last);
        assert(b[start + n] == encode_utf8(last)[0]);
        assert(encode_utf8(last)[0] as int == last[0] as int);
        lemma_next_byte_is(b, NEWLINE, start, start + n);
    } else {
        lemma_size(r);
        assert forall|i: int| start <= i < b.len() implies b[i] != NEWLINE by {
            if b[i] == NEWLINE {
                assert(b[i] == encode_utf8(l)[i - start]);
                lemma_ascii(l, i - start);
                lemma_found(l, i - start);
                lemma_number(after(l, i - start)[0]);
                let j = l.index_of(after(l, i - start)[0]);
                assert(l[j] == '\n');
                assert(j == l.len() - 1);
            }
        }
        lemma_next_byte_is(b, NEWLINE, start, b.len() as int);
    }
}

/// The candidates of a text are those of its first line, and then those of the others.
pub proof fn law_candidates_line_by_line(a: Seq<char>, l: Seq<char>, r: Seq<char>)
    requires
        is_whole_line(l, r),
    ensures
        all_candidates(a + l + r, size(a)) == line_candidates(
            a + l + r,
            size(a),
            size(a) + size(l),
        ) + all_candidates(a + l + r, size(a) + size(l)),
{
    lemma_line_end(a, l, r);
    lemma_meet_three(a, l, r);
    lemma_size(l);
}

/// No marker stands within a line where there are neither brackets nor bullets.
pub proof fn law_no_marker_within_plain_text(y: Seq<char>)
    requires
        plain(y),
    ensures
        inline_marker(y) is None,
{
    let b = encode_utf8(y);
    lemma_size(y);
    lemma_runs(b);
    if y.len() > 0 {
        law_bullets(y[0]);
        lemma_first(y);
        lemma_number(y[0]);
        assert(y[0] != '(');
        assert forall|i: int| 0 <= i < b.len() implies (#[trigger] b[i]) != CLOSE by {
            if b[i] == CLOSE {
                lemma_ascii(y, i);
                lemma_found(y, i);
                lemma_number(after(y, i)[0]);
                let j = y.index_of(after(y, i)[0]);
                assert(y[j] == ')');
            }
        }
    }
}

/// True when no marker stands in `s`, neither at its front nor behind a space or tab.
pub open spec fn no_marker_in(s: Seq<char>) -> bool {
    &&& inline_marker(s) is None
    &&& forall|x: Seq<char>, y: Seq<char>|
        s == #[trigger] (x + y) && x.len() > 0 && blank(x.last()) && y.len() > 0 && !blank(y[0])
            ==> inline_marker(y) is None
}

/// No marker stands in a text without brackets and bullets.
pub proof fn law_plain_text_has_no_markers(s: Seq<char>)
    requires
        plain(s),
    ensures
        no_marker_in(s),
{
    law_no_marker_within_plain_text(s);
    assert forall|x: Seq<char>, y: Seq<char>|
        s == #[trigger] (x + y) && x.len() > 0 && blank(x.last()) && y.len() > 0 && !blank(
            y[0],
        ) implies inline_marker(y) is None by {
        assert(plain(y)) by {
            assert forall|j: int| 0 <= j < y.len() implies (#[trigger] y[j]) != '(' && y[j] != ')'
                && !bullet(y[j]) by {
                assert(y[j] == s[x.len() + j]);
            }
        }
        law_no_marker_within_plain_text(y);
    }
}

/// Where the indent of a line ends.
proof fn lemma_indent(a: Seq<char>, w: Seq<char>, u: Seq<char>, r: Seq<char>)
    requires
        all_blank(w),
        u.len() > 0 ==> !blank(u[0]),
    ensures
        ws_end(encode_utf8(a + (w + u) + r), size(a), size(a) + size(w + u)) == size(a) + w.len(),
        size(w) == w.len(),
{
    let l = w + u;
    let t = a + l + r;
    let b = encode_utf8(t);
    assert forall|i: int| 0 <= i < w.len() implies (#[trigger] w[i]) < '\u{80}' by {
        assert(blank(w[i]));
    }
    lemma_front_bytes(w, u);
    lemma_encode_concat(a, l);
    lemma_encode_concat(a + l, r);
    let start = size(a);
    let end = start + size(l);
    assert forall|i: int| start <= i < start + w.len() implies horiz_ws(#[trigger] b[i]) by {
        assert(b[i] == encode_utf8(l)[i - start]);
        assert(encode_utf8(l)[i - start] as int == w[i - start] as int);
        assert(blank(w[i - start]));
    }
    if u.len() > 0 {
        assert(b[start + w.len()] == encode_utf8(l)[w.len() as int]);
    }
    lemma_ws_end_is(b, start, end, start + w.len());
}

proof fn lemma_ws_end_is(b: Seq<u8>, i: int, end: int, k: int)
    requires
        i <= k <= end,
        forall|j: int| i <= j < k ==> horiz_ws(#[trigger] b[j]),
        k < end ==> !horiz_ws(b[k]),
    ensures
        ws_end(b, i, end) == k,
    decreases k - i,
{
    if i < k {
        assert(horiz_ws(b[i]));
        lemma_ws_end_is(b, i + 1, end, k);
    }
}

/// True when the candidate `c` stands in the line `x + y` where `y` starts.
pub open spec fn stands_between(c: Candidate, at: int, l: Seq<char>, x: Seq<char>, y: Seq<char>) -> bool {
    &&& l == x + y
    &&& x.len() > 0 && blank(x.last())
    &&& y.len() > 0 && !blank(y[0]) && y[0] != '\n' && y[0] != '\r'
    &&& c.pos == at + size(x)
    &&& !c.line_start
    &&& inline_marker(y) matches Some(m) && m.0 == c.family && m.2 == c.first_byte
}

/// What stands at a place within a line.
proof fn lemma_place(a: Seq<char>, l: Seq<char>, r: Seq<char>, i: int)
    requires
        size(a) < i < size(a) + size(l),
        size(a + l + r) <= usize::MAX,
        horiz_ws(encode_utf8(a + l + r)[i - 1]),
    ensures
        ({
            let x = before(l, i - size(a));
            let y = after(l, i - size(a));
            &&& l == x + y
            &&& x.len() > 0 && blank(x.last())
            &&& y.len() > 0
            &&& size(x) == i - size(a)
            &&& between(a + l + r, i, size(a) + size(l)) == y
            &&& horiz_ws(encode_utf8(a + l + r)[i]) <==> blank(y[0])
            &&& encode_utf8(a + l + r)[i] == 0x0a <==> y[0] == '\n'
            &&& encode_utf8(a + l + r)[i] == 0x0d <==> y[0] == '\r'
        }),
{
    let t = a + l + r;
    let start = size(a);
    let end = start + size(l);
    let at = i - start;
    lemma_meet_three(a, l, r);
    lemma_encode_concat(a, l);
    lemma_encode_concat(a + l, r);
    let m = encode_utf8(l);
    assert(m[at - 1] == encode_utf8(t)[i - 1]);
    assert(m[at] == encode_utf8(t)[i]);
    lemma_ascii(l, at - 1);
    lemma_split(l, at);
    lemma_split(l, at - 1);
    let x = before(l, at);
    let y = after(l, at);
    let c = after(l, at - 1);
    assert(c =~= seq![c[0]] + y);
    lemma_number(c[0]);
    assert(before(l, at - 1) + c =~= before(l, at - 1).push(c[0]) + y);
    assert(x =~= before(l, at - 1).push(c[0])) by {
        assert(x + y =~= before(l, at - 1).push(c[0]) + y);
        assert(x.len() == before(l, at - 1).push(c[0]).len());
        assert forall|j: int| 0 <= j < x.len() implies x[j] == before(l, at - 1).push(c[0])[j] by {
            assert((x + y)[j] == x[j]);
        }
    }
    lemma_size(y);
    lemma_first(y);
    lemma_number(y[0]);
    assert(encode_utf8(y)[0] == m[at]);
    lemma_nested(t, start, end);
    assert(between(between(t, start, end), at, size(l)) == between(t, start + at, start + size(l)));
}

/// Behind the indent and the first word of a line, each place at which white space ends and
/// a marker follows is a candidate.
pub proof fn law_markers_within_lines_are_candidates(
    a: Seq<char>,
    w: Seq<char>,
    v: Seq<char>,
    y: Seq<char>,
    r: Seq<char>,
    f: MarkerFamily,
    n: int,
    b: u8,
)
    requires
        all_blank(w),
        v.len() > 0 && !blank(v[0]) && blank(v.last()),
        y.len() > 0 && !blank(y[0]) && y[0] != '\n' && y[0] != '\r',
        inline_marker(y) == Some((f, n, b)),
        size(a + (w + v + y) + r) <= usize::MAX,
    ensures
        line_candidates(a + (w + v + y) + r, size(a), size(a) + size(w + v + y)).contains(
            Candidate {
                pos: (size(a) + size(w + v)) as usize,
                family: f,
                first_byte: b,
                line_start: false,
            },
        ),
{
    let l = w + v + y;
    let t = a + l + r;
    let start = size(a);
    let end = start + size(l);
    assert(l =~= w + (v + y));
    lemma_indent(a, w, v + y, r);
    lemma_meet_three(a, l, r);
    lemma_meet(w + v, y);
    lemma_meet(w, v);
    lemma_size(v);
    lemma_size(y);
    let x = w + v;
    let i = start + size(x);
    // The byte before is a space or tab.
    let front = x.drop_last();
    let last = seq![x.last()];
    assert(x =~= front + last);
    lemma_encode_concat(front, last);
    assert(last + Seq::<char>::empty() =~= last);
    lemma_front_bytes(last, Seq::empty());
    assert(encode_utf8(last)[0] as int == last[0] as int);
    lemma_encode_concat(x, y);
    lemma_encode_concat(a, l);
    lemma_encode_concat(a + l, r);
    assert(encode_utf8(t)[i - 1] == encode_utf8(l)[size(x) - 1]);
    assert(encode_utf8(l)[size(x) - 1] == encode_utf8(x)[size(x) - 1]);
    assert(encode_utf8(x)[size(x) - 1] == encode_utf8(last)[0]);
    lemma_place(a, l, r, i);
    let c = Candidate { pos: i as usize, family: f, first_byte: b, line_start: false };
    let here = candidate_at(t, i, end);
    assert(here =~= seq![c]);
    assert(here[0] == c);
    let from = start + w.len() + 1;
    lemma_inline_has(t, from, i, end);
    let all = inline_candidates(t, from, end);
    assert(all.contains(c));
    let k = all.index_of(c);
    let found = line_candidates(t, start, end);
    let shift = found.len() - all.len();
    assert(found[shift + k] == c);
}

proof fn lemma_inline_has(t: Seq<char>, i: int, j: int, end: int)
    requires
        i <= j < end,
    ensures
        forall|k: int|
            0 <= k < candidate_at(t, j, end).len() ==> inline_candidates(t, i, end).contains(
                #[trigger] candidate_at(t, j, end)[k],
            ),
    decreases j - i,
{
    let all = inline_candidates(t, i, end);
    let here = candidate_at(t, j, end);
    if i < j {
        lemma_inline_has(t, i + 1, j, end);
        let rest = inline_candidates(t, i + 1, end);
        let n = candidate_at(t, i, end).len();
        assert forall|k: int| 0 <= k < here.len() implies all.contains(#[trigger] here[k]) by {
            let m = rest.index_of(here[k]);
            assert(all[n + m] == here[k]);
        }
    } else {
        assert forall|k: int| 0 <= k < here.len() implies all.contains(#[trigger] here[k]) by {
            assert(all[k] == here[k]);
        }
    }
}

/// Every candidate within a line stands where white space ends and a marker follows.
proof fn lemma_inline_from(a: Seq<char>, l: Seq<char>, r: Seq<char>, i: int, k: int)
    requires
        size(a) < i,
        size(a + l + r) <= usize::MAX,
        0 <= k < inline_candidates(a + l + r, i, size(a) + size(l)).len(),
    ensures
        exists|x: Seq<char>, y: Seq<char>| #[trigger]
            stands_between(
                inline_candidates(a + l + r, i, size(a) + size(l))[k],
                size(a),
                l,
                x,
                y,
            ) && i <= size(a) + size(x),
    decreases size(a) + size(l) - i,
{
    let t = a + l + r;
    let end = size(a) + size(l);
    let all = inline_candidates(t, i, end);
    let here = candidate_at(t, i, end);
    lemma_meet_three(a, l, r);
    if k < here.len() {
        lemma_place(a, l, r, i);
        let x = before(l, i - size(a));
        let y = after(l, i - size(a));
        assert(all[k] == here[k]);
        assert(stands_between(all[k], size(a), l, x, y));
    } else {
        let rest = inline_candidates(t, i + 1, end);
        assert(all[k] == rest[k - here.len()]);
        lemma_inline_from(a, l, r, i + 1, k - here.len());
        let (x, y) = choose|x: Seq<char>, y: Seq<char>| #[trigger]
            stands_between(rest[k - here.len()], size(a), l, x, y) && i + 1 <= size(a) + size(x);
        assert(stands_between(all[k], size(a), l, x, y));
    }
}

/// Every candidate of a line stands at its start, where the line starts with a marker, or
/// where white space ends within it and a marker follows.
pub proof fn law_where_candidates_stand(a: Seq<char>, l: Seq<char>, r: Seq<char>, k: int)
    requires
        size(a + l + r) <= usize::MAX,
        0 <= k < line_candidates(a + l + r, size(a), size(a) + size(l)).len(),
    ensures
        ({
            let c = line_candidates(a + l + r, size(a), size(a) + size(l))[k];
            ||| c.line_start && c.pos == size(a) && (line_marker(l) matches Some(m) && m.0
                == c.family && m.2 == c.first_byte)
            ||| exists|x: Seq<char>, y: Seq<char>| #[trigger] stands_between(c, size(a), l, x, y)
        }),
{
    let t = a + l + r;
    let start = size(a);
    let end = start + size(l);
    lemma_meet_three(a, l, r);
    lemma_ws_end(encode_utf8(t), start, end);
    let from = ws_end(encode_utf8(t), start, end) + 1;
    let all = inline_candidates(t, from, end);
    let found = line_candidates(t, start, end);
    let first = found.len() - all.len();
    if k >= first {
        assert(found[k] == all[k - first]);
        lemma_inline_from(a, l, r, from, k - first);
        let (x, y) = choose|x: Seq<char>, y: Seq<char>| #[trigger]
            stands_between(all[k - first], start, l, x, y) && from <= start + size(x);
        assert(stands_between(found[k], start, l, x, y));
    }
}

/// True when `l` is a line that starts with the marker `k` of the family `f`, behind the
/// indent `w`, with the white space `s` and then content behind it, in which no other marker
/// stands.
pub open spec fn is_item_line(
    l: Seq<char>,
    f: MarkerFamily,
    w: Seq<char>,
    k: Seq<char>,
    s: Seq<char>,
    rest: Seq<char>,
) -> bool {
    &&& l == w + (k + s + rest)
    &&& all_blank(w)
    &&& k.len() > 0 && no_blank(k)
    &&& s.len() > 0 && all_blank(s)
    &&& rest.len() > 0 && !blank(rest[0]) && rest[0] != '\n' && rest[0] != '\r'
    &&& no_marker_in(rest)
    &&& marker(k + s + rest) == Some((f, size(k)))
}

/// A line that starts with a marker and has no other in it has one candidate: its start.
pub proof fn law_item_line(
    a: Seq<char>,
    l: Seq<char>,
    r: Seq<char>,
    f: MarkerFamily,
    w: Seq<char>,
    k: Seq<char>,
    s: Seq<char>,
    rest: Seq<char>,
)
    requires
        is_item_line(l, f, w, k, s, rest),
        size(a + l + r) <= usize::MAX,
    ensures
        line_candidates(a + l + r, size(a), size(a) + size(l)) == seq![
            Candidate {
                pos: size(a) as usize,
                family: f,
                first_byte: encode_utf8(k)[0],
                line_start: true,
            },
        ],
{
    let t = a + l + r;
    let start = size(a);
    let end = start + size(l);
    assert(!blank(k[0]));
    law_marker_at_line_start(w, k, s, rest, f);
    lemma_meet_three(a, l, r);
    assert((k + s + rest)[0] == k[0]);
    lemma_indent(a, w, k + s + rest, r);
    let from = start + w.len() + 1;
    let all = inline_candidates(t, from, end);
    if all.len() > 0 {
        lemma_inline_from(a, l, r, from, 0);
        let (x, y) = choose|x: Seq<char>, y: Seq<char>| #[trigger]
            stands_between(all[0], start, l, x, y) && from <= start + size(x);
        // The place lies behind the marker.
        if x.len() <= w.len() {
            let v = w.skip(x.len() as int);
            assert(w =~= x + v) by {
                assert forall|j: int| 0 <= j < x.len() implies w[j] == x[j] by {
                    assert(l[j] == w[j]);
                    assert((x + y)[j] == x[j]);
                }
            }
            lemma_encode_concat(x, v);
            assert(false);
        }
        let n = x.len() as int;
        assert(l[n - 1] == x.last());
        assert(l[n] == y[0]);
        if n - 1 < w.len() + k.len() {
            assert(l[n - 1] == k[n - 1 - w.len()]);
            assert(false);
        }
        if n < w.len() + k.len() + s.len() {
            assert(l[n] == s[n - w.len() - k.len()]);
            assert(false);
        }
        let d = n - w.len() - k.len() - s.len();
        let front = rest.take(d);
        assert(rest =~= front + y) by {
            assert forall|j: int| 0 <= j < y.len() implies y[j] == rest[d + j] by {
                assert((x + y)[n + j] == y[j]);
                assert(l[n + j] == rest[d + j]);
            }
        }
        if d > 0 {
            assert(front.last() == rest[d - 1]);
            assert(l[n - 1] == rest[d - 1]);
        } else {
            assert(rest =~= y);
        }
        assert(inline_marker(y) is None);
        assert(false);
    }
    assert(all =~= Seq::<Candidate>::empty());
}

/// What stands before line number `i`.
pub open spec fn lines_before(ls: Seq<Seq<char>>, i: int) -> Seq<char> {
    joined(ls.take(i))
}

proof fn lemma_joined(a: Seq<Seq<char>>, b: Seq<Seq<char>>)
    ensures
        joined(a + b) == joined(a) + joined(b),
    decreases b.len(),
{
    if b.len() == 0 {
        assert(a + b =~= a);
        assert(joined(a) + joined(b) =~= joined(a));
    } else {
        assert((a + b).drop_last() =~= a + b.drop_last());
        lemma_joined(a, b.drop_last());
        assert(joined(a + b) =~= joined(a) + joined(b));
    }
}

proof fn lemma_line_of(ls: Seq<Seq<char>>, i: int)
    requires
        0 <= i < ls.len(),
    ensures
        joined(ls) == lines_before(ls, i) + ls[i] + joined(ls.skip(i + 1)),
        lines_before(ls, i + 1) == lines_before(ls, i) + ls[i],
        size(lines_before(ls, i + 1)) == size(lines_before(ls, i)) + size(ls[i]),
        size(lines_before(ls, i + 1)) <= size(joined(ls)),
{
    assert(ls.take(i + 1).drop_last() =~= ls.take(i));
    assert(ls =~= ls.take(i + 1) + ls.skip(i + 1));
    lemma_joined(ls.take(i + 1), ls.skip(i + 1));
    lemma_encode_concat(lines_before(ls, i), ls[i]);
    lemma_encode_concat(lines_before(ls, i + 1), joined(ls.skip(i + 1)));
}

/// One line of a list of items of the family `f`.
pub open spec fn is_item(l: Seq<char>, f: MarkerFamily) -> bool {
    exists|w: Seq<char>, k: Seq<char>, s: Seq<char>, rest: Seq<char>| #[trigger]
        is_item_line(l, f, w, k, s, rest)
}

/// True when `ls` are lines, each with an item of the family `f`.
pub open spec fn are_item_lines(ls: Seq<Seq<char>>, f: MarkerFamily) -> bool {
    &&& forall|i: int| 0 <= i < ls.len() ==> is_item(#[trigger] ls[i], f)
    &&& forall|i: int|
        0 <= i < ls.len() ==> is_whole_line(#[trigger] ls[i], joined(ls.skip(i + 1)))
    &&& size(joined(ls)) <= usize::MAX
}

spec fn is_start(c: Candidate, ls: Seq<Seq<char>>, i: int, f: MarkerFamily) -> bool {
    c.pos == size(lines_before(ls, i)) && c.family == f && c.line_start
}

proof fn lemma_item_lines(ls: Seq<Seq<char>>, f: MarkerFamily, i: int)
    requires
        are_item_lines(ls, f),
        0 <= i <= ls.len(),
    ensures
        ({
            let s = all_candidates(joined(ls), size(lines_before(ls, i)));
            &&& s.len() == ls.len() - i
            &&& forall|j: int| 0 <= j < s.len() ==> is_start(#[trigger] s[j], ls, i + j, f)
        }),
    decreases ls.len() - i,
{
    let t = joined(ls);
    if i == ls.len() {
        assert(ls.take(i) =~= ls);
    } else {
        lemma_line_of(ls, i);
        lemma_item_lines(ls, f, i + 1);
        let a = lines_before(ls, i);
        let l = ls[i];
        let r = joined(ls.skip(i + 1));
        assert(is_item(l, f));
        let (w, k, s, rest) = choose|w: Seq<char>, k: Seq<char>, s: Seq<char>, rest: Seq<char>|
            #[trigger] is_item_line(l, f, w, k, s, rest);
        law_item_line(a, l, r, f, w, k, s, rest);
        law_candidates_line_by_line(a, l, r);
        let all = all_candidates(t, size(a));
        let later = all_candidates(t, size(lines_before(ls, i + 1)));
        assert forall|j: int| 0 <= j < all.len() implies is_start(
            #[trigger] all[j],
            ls,
            i + j,
            f,
        ) by {
            if j > 0 {
                assert(all[j] == later[j - 1]);
                assert(is_start(later[j - 1], ls, i + 1 + (j - 1), f));
            }
        }
    }
}

proof fn lemma_lines_apart(ls: Seq<Seq<char>>, i: int, j: int)
    requires
        0 <= i < j <= ls.len(),
        forall|k: int| 0 <= k < ls.len() - 1 ==> size(#[trigger] ls[k]) >= 4,
        j < ls.len(),
    ensures
        size(lines_before(ls, i)) + 4 <= size(lines_before(ls, j)),
    decreases j - i,
{
    lemma_line_of(ls, i);
    assert(size(ls[i]) >= 4);
    if i + 1 < j {
        lemma_lines_apart(ls, i + 1, j);
    }
}

/// Two or more lines that start with markers of one family are a list, and each of them is
/// an item; so is a single line, where its marker is unmistakable.
pub proof fn law_list_of_lines(ls: Seq<Seq<char>>, f: MarkerFamily)
    requires
        are_item_lines(ls, f),
        forall|k: int| 0 <= k < ls.len() - 1 ==> size(#[trigger] ls[k]) >= 4,
    ensures
        list_starts(joined(ls)) == if ls.len() >= 2 || (ls.len() == 1 && f == MarkerFamily::Tier1) {
            Seq::new(ls.len(), |i: int| size(lines_before(ls, i)) as usize)
        } else {
            Seq::empty()
        },
{
    let t = joined(ls);
    lemma_item_lines(ls, f, 0);
    assert(ls.take(0) =~= Seq::<Seq<char>>::empty());
    assert(lines_before(ls, 0) =~= Seq::<char>::empty());
    assert(size(lines_before(ls, 0)) == 0);
    let s = all_candidates(t, 0);
    assert(all_of(s, f)) by {
        assert forall|i: int| 0 <= i < s.len() implies (#[trigger] s[i]).family == f by {
            assert(is_start(s[i], ls, i, f));
        }
    }
    assert(far_apart(s)) by {
        assert forall|i: int, j: int| 0 <= i < j < s.len() implies (#[trigger] s[i]).pos + 4 <= (
        #[trigger] s[j]).pos by {
            assert(is_start(s[i], ls, i, f));
            assert(is_start(s[j], ls, j, f));
            lemma_lines_apart(ls, i, j);
        }
    }
    law_candidates_of_one_family(s, f);
    if s.len() > 0 {
        assert(is_start(s[0], ls, 0, f));
    }
    assert forall|i: int| 0 <= i < s.len() implies places(s)[i] == #[trigger] size(
        lines_before(ls, i),
    ) as usize by {
        assert(is_start(s[i], ls, i, f));
    }
    assert(places(s) =~= Seq::new(ls.len(), |i: int| size(lines_before(ls, i)) as usize));
}

/// Two lines that start with markers of one family, at least four bytes apart, are a list of
/// two items.
pub proof fn law_two_item_lines(a: Seq<char>, b: Seq<char>, f: MarkerFamily)
    requires
        is_item(a, f),
        is_item(b, f),
        is_whole_line(a, b),
        is_whole_line(b, Seq::empty()),
        size(a) >= 4,
        size(a + b) <= usize::MAX,
    ensures
        list_starts(a + b) == seq![0usize, size(a) as usize],
{
    let ls = seq![a, b];
    assert(ls.drop_last() =~= seq![a]);
    assert(seq![a].drop_last() =~= Seq::<Seq<char>>::empty());
    assert(joined(Seq::<Seq<char>>::empty()) =~= Seq::<char>::empty());
    assert(Seq::<char>::empty() + a =~= a);
    assert(Seq::<char>::empty() + b =~= b);
    assert(joined(seq![a]) =~= a);
    assert(joined(ls) =~= a + b);
    assert(ls.skip(1) =~= seq![b]);
    assert(seq![b].drop_last() =~= Seq::<Seq<char>>::empty());
    assert(joined(seq![b]) =~= b);
    assert(ls.skip(2) =~= Seq::<Seq<char>>::empty());
    lemma_encode_concat(a, b);
    assert(is_item(ls[0], f) && is_item(ls[1], f));
    assert(is_whole_line(ls[0], joined(ls.skip(1))));
    assert(is_whole_line(ls[1], joined(ls.skip(2))));
    law_list_of_lines(ls, f);
    assert(ls.take(0) =~= Seq::<Seq<char>>::empty());
    assert(ls.take(1) =~= seq![a]);
    let p = list_starts(a + b);
    assert(p[0] == size(lines_before(ls, 0)) as usize);
    assert(p[1] == size(lines_before(ls, 1)) as usize);
    assert(p =~= seq![0usize, size(a) as usize]);
}

/// Two lines that start with the same one of `*`, `+` and `-`, a space and content with no
/// other marker in it are a list of two items.
pub proof fn law_two_bulleted_lines(c: char, x: Seq<char>, y: Seq<char>)
    requires
        c == '*' || c == '+' || c == '-',
        x.len() > 0 && !blank(x[0]) && x[0] != '\r' && no_marker_in(x + seq!['\n']),
        y.len() > 0 && !blank(y[0]) && y[0] != '\r' && no_marker_in(y),
        forall|i: int| 0 <= i < x.len() ==> (#[trigger] x[i]) != '\n',
        forall|i: int| 0 <= i < y.len() ==> (#[trigger] y[i]) != '\n',
        size(seq![c, ' '] + x + seq!['\n'] + (seq![c, ' '] + y)) <= usize::MAX,
    ensures
        list_starts(seq![c, ' '] + x + seq!['\n'] + (seq![c, ' '] + y)) == seq![
            0usize,
            (size(x) + 3) as usize,
        ],
{
    let o = seq![c, ' '];
    let e = seq!['\n'];
    let a = o + x + e;
    let b = o + y;
    let w = Seq::<char>::empty();
    let k = seq![c];
    let s = seq![' '];
    assert(a =~= w + (k + s + (x + e)));
    assert(b =~= w + (k + s + y));
    assert(k + s + (x + e) =~= k + (s + (x + e)));
    assert(k + s + y =~= k + (s + y));
    law_ascii_bullets(c, s + (x + e));
    law_ascii_bullets(c, s + y);
    lemma_front_bytes(k, Seq::empty());
    lemma_front_bytes(o, x);
    lemma_front_bytes(e, Seq::empty());
    assert(e + Seq::<char>::empty() =~= e);
    lemma_encode_concat(o + x, e);
    lemma_size(x);
    assert(x[0] != '\n' && y[0] != '\n');
    assert((x + e)[0] == x[0]);
    assert(is_item_line(a, MarkerFamily::Bullet, w, k, s, x + e));
    assert(is_item_line(b, MarkerFamily::Bullet, w, k, s, y));
    assert(is_whole_line(a, b)) by {
        assert forall|i: int| 0 <= i < a.len() - 1 implies (#[trigger] a[i]) != '\n' by {
            if i >= 2 {
                assert(a[i] == x[i - 2]);
            }
        }
    }
    assert(is_whole_line(b, Seq::empty())) by {
        assert forall|i: int| 0 <= i < b.len() - 1 implies (#[trigger] b[i]) != '\n' by {
            if i >= 2 {
                assert(b[i] == y[i - 2]);
            }
        }
    }
    law_two_item_lines(a, b, MarkerFamily::Bullet);
}

// Items in their paragraphs.

proof fn lemma_cut_put_in(cuts: Seq<int>, at: int)
    ensures
        with_cut(cuts, at).contains(at),
        forall|x: int| cuts.contains(x) ==> #[trigger] with_cut(cuts, at).contains(x),
    decreases cuts.len(),
{
    let r = with_cut(cuts, at);
    if cuts.len() == 0 || cuts.last() < at {
        assert(r[cuts.len() as int] == at);
        assert forall|x: int| cuts.contains(x) implies #[trigger] r.contains(x) by {
            assert(r[cuts.index_of(x)] == x);
        }
    } else if cuts.last() == at {
        assert(r[cuts.len() - 1] == at);
    } else {
        let front = cuts.drop_last();
        let f = with_cut(front, at);
        lemma_cut_put_in(front, at);
        assert(r[f.index_of(at)] == at);
        assert forall|x: int| cuts.contains(x) implies #[trigger] r.contains(x) by {
            let i = cuts.index_of(x);
            if i < front.len() {
                assert(front[i] == x);
                assert(f.contains(x));
                assert(r[f.index_of(x)] == x);
            } else {
                assert(r[f.len() as int] == x);
            }
        }
    }
}

proof fn lemma_starts_put_in(cuts: Seq<int>, starts: Seq<usize>)
    ensures
        forall|i: int|
            0 <= i < starts.len() ==> with_starts(cuts, starts).contains(
                #[trigger] starts[i] as int,
            ),
        forall|x: int| cuts.contains(x) ==> #[trigger] with_starts(cuts, starts).contains(x),
    decreases starts.len(),
{
    if starts.len() > 0 {
        let front = starts.drop_last();
        let f = with_starts(cuts, front);
        lemma_starts_put_in(cuts, front);
        lemma_cut_put_in(f, starts.last() as int);
        let r = with_starts(cuts, starts);
        assert forall|i: int| 0 <= i < starts.len() implies r.contains(
            #[trigger] starts[i] as int,
        ) by {
            if i < front.len() {
                assert(front[i] == starts[i]);
                assert(f.contains(starts[i] as int));
            }
        }
        assert forall|x: int| cuts.contains(x) implies #[trigger] r.contains(x) by {
            assert(f.contains(x));
        }
    }
}

/// Every item of a list starts a sentence, and what divides a paragraph anyway still does.
pub proof fn law_items_start_sentences(
    rules: Rules,
    p: Seq<char>,
    ms: Seq<(int, int)>,
    ranges: Seq<SkippableRange>,
    starts: Seq<usize>,
)
    ensures
        forall|i: int|
            0 <= i < starts.len() ==> rules.cuts_with(p, ms, ranges, starts).contains(
                #[trigger] starts[i] as int,
            ),
        forall|x: int|
            rules.found(p, with_list(ranges, starts, size(p)), ms).contains(x)
                ==> #[trigger] rules.cuts_with(p, ms, ranges, starts).contains(x),
{
    let found = rules.found(p, with_list(ranges, starts, size(p)), ms);
    let all = with_starts(found, starts);
    let r = rules.cuts_with(p, ms, ranges, starts);
    lemma_starts_put_in(found, starts);
    assert forall|x: int| all.contains(x) implies #[trigger] r.contains(x) by {
        assert(r[all.index_of(x)] == x);
    }
    assert forall|i: int| 0 <= i < starts.len() implies r.contains(#[trigger] starts[i] as int) by {
        assert(all.contains(starts[i] as int));
    }
    assert forall|x: int| found.contains(x) implies #[trigger] r.contains(x) by {
        assert(all.contains(x));
    }
}

/// A paragraph of two lines that start with the same one of `*`, `+` and `-` is divided where
/// the second line starts, in every language with word lists of its own.
pub proof fn law_bulleted_lines_are_divided(
    abbreviations: Set<Seq<char>>,
    starters: Set<Seq<char>>,
    c: char,
    x: Seq<char>,
    y: Seq<char>,
)
    requires
        c == '*' || c == '+' || c == '-',
        x.len() > 0 && !blank(x[0]) && x[0] != '\r' && no_marker_in(x + seq!['\n']),
        y.len() > 0 && !blank(y[0]) && y[0] != '\r' && no_marker_in(y),
        forall|i: int| 0 <= i < x.len() ==> (#[trigger] x[i]) != '\n',
        forall|i: int| 0 <= i < y.len() ==> (#[trigger] y[i]) != '\n',
        size(seq![c, ' '] + x + seq!['\n'] + (seq![c, ' '] + y)) <= usize::MAX,
    ensures
        Rules::standard(abbreviations, starters).cuts(
            seq![c, ' '] + x + seq!['\n'] + (seq![c, ' '] + y),
        ).contains(size(x) + 3),
{
    let t = seq![c, ' '] + x + seq!['\n'] + (seq![c, ' '] + y);
    let rules = Rules::standard(abbreviations, starters);
    law_two_bulleted_lines(c, x, y);
    let starts = rules.starts(t);
    assert(starts == seq![0usize, (size(x) + 3) as usize]);
    law_items_start_sentences(
        rules,
        t,
        folded(t, regex_find_iter(rules.break_pattern, t)),
        skippable_ranges(t),
        starts,
    );
    assert(rules.cuts(t).contains(starts[1] as int));
    lemma_front_bytes(seq![c, ' '], x);
    lemma_encode_concat(seq![c, ' '] + x, seq!['\n']);
    lemma_front_bytes(seq!['\n'], Seq::empty());
    assert(seq!['\n'] + Seq::<char>::empty() =~= seq!['\n']);
    lemma_encode_concat(seq![c, ' '] + x + seq!['\n'], seq![c, ' '] + y);
}

} // verus!
