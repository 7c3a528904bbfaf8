//! Texts as their parts.

use vstd::prelude::*;
use vstd::utf8::*;

use crate::case::{unicode_lower_case, unicode_upper_case};
use crate::chars::{
    lemma_run_back, lemma_run_front, run_back, run_front, strip_back, strip_front, white_space,
    CharClass, NameSeparator, TokenSeparator, White,
};
use crate::languages::rules::{behind_run, last_token, last_word, next_word};
use crate::text::{ceil_cut, lemma_ceil_cut, lemma_floor_cut, lemma_prefix, occurs_at};
use crate::utf8::{
    after, before, between, is_cut, lemma_between, lemma_cut_ends, lemma_encode_concat, lemma_join,
    lemma_piece, lemma_size, size,
};

verus! {

/// True when `s` is white space alone.
pub open spec fn all_white(s: Seq<char>) -> bool {
    forall|i: int| 0 <= i < s.len() ==> white_space(#[trigger] s[i])
}

/// True when `s` does not start with white space.
pub open spec fn no_white_first(s: Seq<char>) -> bool {
    s.len() > 0 ==> !white_space(s[0])
}

/// True for the characters that part names and abbreviations.
pub open spec fn parts_names(c: char) -> bool {
    white_space(c) || c == '.' || c == '/'
}

/// True when `word` is a word between separators, and `front`, which stands before it, ends
/// with one.
pub open spec fn stands_behind(front: Seq<char>, word: Seq<char>) -> bool {
    &&& word.len() > 0
    &&& forall|i: int| 0 <= i < word.len() ==> !parts_names(#[trigger] word[i])
    &&& front.len() > 0 ==> parts_names(front.last())
}

/// True when `next` is what is looked at of the text `next + more`: thirty bytes, up to
/// the next character, or all of it.
pub open spec fn is_seen(next: Seq<char>, more: Seq<char>) -> bool {
    &&& more.len() > 0 ==> 30 <= size(next)
    &&& next.len() > 0 ==> size(next.drop_last()) < 30
}

pub proof fn lemma_front<C: CharClass>(a: Seq<char>, b: Seq<char>, inside: bool)
    requires
        forall|i: int| 0 <= i < a.len() ==> C::has(#[trigger] a[i]) == inside,
        b.len() > 0 ==> C::has(b[0]) != inside,
    ensures
        run_front::<C>(a + b, inside) == a.len(),
        (a + b).skip(a.len() as int) == b,
        (a + b).take(a.len() as int) == a,
{
    let t = a + b;
    lemma_run_front::<C>(t, inside);
    let n = run_front::<C>(t, inside);
    if n < a.len() {
        assert(C::has(a[n]) == inside);
        assert(t[n] == a[n]);
    } else if n > a.len() {
        assert(C::has(t[a.len() as int]) == inside);
        assert(t[a.len() as int] == b[0]);
    }
    assert(t.skip(a.len() as int) =~= b);
    assert(t.take(a.len() as int) =~= a);
}

pub proof fn lemma_back<C: CharClass>(a: Seq<char>, b: Seq<char>, inside: bool)
    requires
        forall|i: int| 0 <= i < b.len() ==> C::has(#[trigger] b[i]) == inside,
        a.len() > 0 ==> C::has(a.last()) != inside,
    ensures
        run_back::<C>(a + b, inside) == b.len(),
        (a + b).take((a + b).len() - b.len()) == a,
        (a + b).skip((a + b).len() - b.len()) == b,
{
    let t = a + b;
    lemma_run_back::<C>(t, inside);
    let n = run_back::<C>(t, inside);
    if n < b.len() {
        assert(t[t.len() - n - 1] == b[b.len() - n - 1]);
        assert(C::has(b[b.len() - n - 1]) == inside);
    } else if n > b.len() {
        assert(C::has(t[a.len() - 1]) == inside);
        assert(t[a.len() - 1] == a.last());
    }
    assert(t.take(t.len() - b.len()) =~= a);
    assert(t.skip(t.len() - b.len()) =~= b);
}

/// White space at the front is stripped, and nothing else.
pub proof fn law_strip_front(w: Seq<char>, rest: Seq<char>)
    requires
        all_white(w),
        no_white_first(rest),
    ensures
        strip_front::<White>(w + rest) == rest,
        run_front::<White>(w + rest, true) == w.len(),
{
    lemma_front::<White>(w, rest, true);
}

/// White space at the back is stripped, and nothing else.
pub proof fn law_strip_back(rest: Seq<char>, w: Seq<char>)
    requires
        all_white(w),
        rest.len() > 0 ==> !white_space(rest.last()),
    ensures
        strip_back::<White>(rest + w) == rest,
{
    lemma_back::<White>(rest, w, true);
}

/// The last word stands behind white space, `.` or `/`; white space behind it does not
/// count.
pub proof fn law_last_word(front: Seq<char>, word: Seq<char>, v: Seq<char>)
    requires
        stands_behind(front, word),
        all_white(v),
    ensures
        last_word(front + word + v) == word,
        strip_back::<White>(front + word + v) == front + word,
{
    let t = front + word;
    assert(t.last() == word.last());
    assert(!parts_names(word[word.len() - 1]));
    law_strip_back(t, v);
    assert forall|i: int| 0 <= i < word.len() implies NameSeparator::has(#[trigger] word[i])
        == false by {
        assert(!parts_names(word[i]));
    }
    lemma_back::<NameSeparator>(front, word, false);
}

/// Behind `.` or `/` there is no word.
pub proof fn law_no_last_word(front: Seq<char>, c: char, v: Seq<char>)
    requires
        c == '.' || c == '/',
        all_white(v),
    ensures
        last_word(front.push(c) + v) == Seq::<char>::empty(),
{
    let t = front.push(c);
    law_strip_back(t, v);
    lemma_back::<NameSeparator>(t, Seq::empty(), false);
    assert(t + Seq::<char>::empty() =~= t);
}

/// The last token stands behind white space or `/`, and may have dots in it.
pub proof fn law_last_token(front: Seq<char>, token: Seq<char>, v: Seq<char>)
    requires
        token.len() > 0,
        forall|i: int|
            0 <= i < token.len() ==> !white_space(#[trigger] token[i]) && token[i] != '/',
        front.len() > 0 ==> white_space(front.last()) || front.last() == '/',
        all_white(v),
    ensures
        last_token(front + token + v) == token,
{
    let t = front + token;
    assert(t.last() == token[token.len() - 1]);
    law_strip_back(t, v);
    assert forall|i: int| 0 <= i < token.len() implies TokenSeparator::has(#[trigger] token[i])
        == false by {}
    lemma_back::<TokenSeparator>(front, token, false);
}

/// Two texts that are put together can be parted where they meet.
pub proof fn lemma_meet(a: Seq<char>, b: Seq<char>)
    ensures
        is_cut(a + b, size(a)),
        before(a + b, size(a)) == a,
        after(a + b, size(a)) == b,
        size(a + b) == size(a) + size(b),
{
    let t = a + b;
    lemma_encode_concat(a, b);
    lemma_cut_ends(t);
    lemma_cut_ends(b);
    assert(encode_utf8(t).subrange(0, size(a)) =~= encode_utf8(a));
    assert(encode_utf8(t).subrange(size(a), size(t)) =~= encode_utf8(b));
    lemma_piece(t, 0, size(a), a);
    lemma_piece(t, size(a), size(t), b);
    if size(b) > 0 {
        assert(encode_utf8(t)[size(a)] == encode_utf8(b)[0]);
    }
}

/// Three texts that are put together can be parted where they meet.
pub proof fn lemma_meet_three(a: Seq<char>, b: Seq<char>, c: Seq<char>)
    ensures
        is_cut(a + b + c, size(a)),
        is_cut(a + b + c, size(a) + size(b)),
        before(a + b + c, size(a)) == a,
        between(a + b + c, size(a), size(a) + size(b)) == b,
        after(a + b + c, size(a) + size(b)) == c,
        size(a + b + c) == size(a) + size(b) + size(c),
{
    lemma_meet(a, b);
    lemma_meet(a + b, c);
    assert(a + b + c =~= a + (b + c));
    lemma_meet(a, b + c);
    let t = a + b + c;
    lemma_encode_concat(a, b);
    lemma_encode_concat(a + b, c);
    assert(encode_utf8(t).subrange(size(a), size(a) + size(b)) =~= encode_utf8(b));
    lemma_piece(t, size(a), size(a) + size(b), b);
}

/// Behind the cut at which `next` starts, what is looked at is `next`.
pub proof fn law_next_word(a: Seq<char>, next: Seq<char>, more: Seq<char>)
    requires
        is_seen(next, more),
    ensures
        next_word(a + next + more, size(a)) == next,
{
    let t = a + next + more;
    let at = size(a);
    lemma_meet_three(a, next, more);
    lemma_size(next);
    lemma_size(more);
    lemma_cut_ends(t);
    if at < size(t) {
        let to = if at + 30 <= size(t) {
            at + 30
        } else {
            size(t)
        };
        let end = at + size(next);
        lemma_floor_cut(t, at);
        lemma_ceil_cut(t, to);
        let c = ceil_cut(t, to);
        assert(next.len() > 0);
        // No cut lies between the last two.
        let front = next.drop_last();
        let last = seq![next.last()];
        assert(next =~= front + last);
        assert(t =~= (a + front) + last + more);
        lemma_meet_three(a + front, last, more);
        lemma_meet(a, front);
        lemma_meet(front, last);
        assert(to <= end);
        assert(is_cut(t, end));
        assert(c <= end);
        let start = at + size(front);
        if c < end {
            lemma_between(t, start, c);
            lemma_between(t, c, end);
            lemma_join(t, start, c, end);
            lemma_size(between(t, start, c));
            lemma_size(between(t, c, end));
            assert(between(t, start, end).len() == 1);
        }
    } else {
        assert(next =~= Seq::<char>::empty());
    }
}

/// Behind a run of terminators the text goes on.
pub proof fn law_behind_run(a: Seq<char>, run: Seq<char>, rest: Seq<char>)
    requires
        run.len() > 0,
    ensures
        behind_run(a + run + rest, size(a), size(a) + size(run)) == size(a) + size(run),
{
    let t = a + run + rest;
    lemma_meet_three(a, run, rest);
    lemma_size(run);
    if run.len() == 1 {
        let start = size(a);
        let end = start + size(run);
        lemma_ceil_cut(t, start + 1);
        let c = ceil_cut(t, start + 1);
        if c < end {
            lemma_between(t, start, c);
            lemma_between(t, c, end);
            lemma_join(t, start, c, end);
            lemma_size(between(t, start, c));
            lemma_size(between(t, c, end));
        }
    }
}

/// True when `word` is listed: as it stands, in lower case or in upper case.
pub open spec fn is_listed_in(abbreviations: Set<Seq<char>>, word: Seq<char>) -> bool {
    abbreviations.contains(word) || abbreviations.contains(unicode_lower_case(word))
        || abbreviations.contains(unicode_upper_case(word))
}

/// True when `a` is `front`, then the word `word`, then the white space `v`.
pub open spec fn is_parted(a: Seq<char>, front: Seq<char>, word: Seq<char>, v: Seq<char>) -> bool {
    a == front + word + v && stands_behind(front, word) && all_white(v)
}

/// True when `a` is `front`, then `.` or `/`, then the white space `v`.
pub open spec fn ends_bare(a: Seq<char>, front: Seq<char>, v: Seq<char>) -> bool {
    (a == front.push('.') + v || a == front.push('/') + v) && all_white(v)
}

/// True when `word` is what `a` ends with, behind white space, `.` or `/`, and before white
/// space.
pub open spec fn ends_with_word(a: Seq<char>, word: Seq<char>) -> bool {
    ||| exists|front: Seq<char>, v: Seq<char>| #[trigger] is_parted(a, front, word, v)
    ||| word.len() == 0 && all_white(a)
    ||| word.len() == 0 && exists|front: Seq<char>, v: Seq<char>| #[trigger] ends_bare(a, front, v)
}

/// The last word of a text is what it ends with, and every text has one.
pub proof fn law_last_word_is_at_the_end(a: Seq<char>, word: Seq<char>)
    ensures
        ends_with_word(a, word) <==> last_word(a) == word,
{
    let t = strip_back::<White>(a);
    let m = run_back::<White>(a, true);
    lemma_run_back::<White>(a, true);
    let v = a.skip(t.len() as int);
    assert(all_white(v)) by {
        assert forall|i: int| 0 <= i < v.len() implies white_space(#[trigger] v[i]) by {
            assert(v[i] == a[t.len() + i]);
            assert(White::has(a[t.len() + i]));
        }
    }
    assert(a =~= t + v);
    let n = run_back::<NameSeparator>(t, false);
    lemma_run_back::<NameSeparator>(t, false);
    let w = last_word(a);
    let front = t.take(t.len() - n);
    assert(t =~= front + w);
    assert(ends_with_word(a, w)) by {
        if w.len() > 0 {
            assert forall|i: int| 0 <= i < w.len() implies !parts_names(#[trigger] w[i]) by {
                assert(w[i] == t[t.len() - n + i]);
                assert(!NameSeparator::has(t[t.len() - n + i]));
            }
            if front.len() > 0 {
                assert(front.last() == t[t.len() - n - 1]);
            }
            assert(is_parted(a, front, w, v));
        } else if t.len() == 0 {
            assert(a =~= v);
        } else {
            let c = t.last();
            assert(NameSeparator::has(t[t.len() - 1]));
            assert(!White::has(a[a.len() - m - 1]));
            assert(t[t.len() - 1] == a[a.len() - m - 1]);
            assert(t =~= t.drop_last().push(c));
            assert(ends_bare(a, t.drop_last(), v));
        }
    }
    if ends_with_word(a, word) {
        if exists|f: Seq<char>, x: Seq<char>| #[trigger] is_parted(a, f, word, x) {
            let (f, x) = choose|f: Seq<char>, x: Seq<char>| #[trigger] is_parted(a, f, word, x);
            law_last_word(f, word, x);
        } else if all_white(a) {
            assert(Seq::<char>::empty() + a =~= a);
            law_strip_back(Seq::empty(), a);
            assert(word =~= Seq::<char>::empty());
            assert(w =~= word);
        } else {
            let (f, x) = choose|f: Seq<char>, x: Seq<char>| #[trigger] ends_bare(a, f, x);
            if a == f.push('.') + x {
                law_no_last_word(f, '.', x);
            } else {
                law_no_last_word(f, '/', x);
            }
            assert(word =~= Seq::<char>::empty());
        }
    }
}

/// True when `t` starts with `s`.
pub open spec fn starts(t: Seq<char>, s: Seq<char>) -> bool {
    s.len() <= t.len() && t.take(s.len() as int) == s
}

/// A text starts with another exactly when that occurs at its front.
pub proof fn lemma_starts(t: Seq<char>, s: Seq<char>)
    ensures
        occurs_at(t, s, 0) <==> starts(t, s),
        starts(t, s) ==> after(t, size(s)) == t.skip(s.len() as int),
{
    if starts(t, s) {
        assert(t =~= s + t.skip(s.len() as int));
        lemma_meet(s, t.skip(s.len() as int));
        lemma_encode_concat(s, t.skip(s.len() as int));
        assert(encode_utf8(t).subrange(0, size(s)) =~= encode_utf8(s));
    }
    if occurs_at(t, s, 0) {
        lemma_prefix(t, s);
    }
}

/// The three marks, as texts.
pub proof fn lemma_literals()
    ensures
        "."@ == seq!['.'],
        "!"@ == seq!['!'],
        "?"@ == seq!['?'],
{
    reveal_strlit(".");
    reveal_strlit("!");
    reveal_strlit("?");
    assert("."@ =~= seq!['.']);
    assert("!"@ =~= seq!['!']);
    assert("?"@ =~= seq!['?']);
}

} // verus!
