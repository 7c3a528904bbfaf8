//! Where sentences end.

use vstd::prelude::*;

use crate::case::{unicode_lower_case, unicode_upper_case};
use crate::chars::{
    ascii_digit, ascii_upper, lemma_run_back, strip_back, unicode_alphabetic, white_space,
    CharClass, White,
};
use crate::constants::{terminator, EXCLAMATION_WORDS, QUOTE_PAIRS, OpenerEnd};
use crate::languages::phrases::{continues_behind_quote, ends_with_time};
use crate::languages::ranges::symmetric_pair_at;
use crate::languages::rules::{law_longer_token_has_dot, Rules};
use crate::laws::parts::{
    all_white, ends_with_word, is_listed_in, is_seen, law_behind_run, law_last_token, law_last_word,
    law_last_word_is_at_the_end, law_next_word, law_strip_front, lemma_front, lemma_literals,
    lemma_meet, lemma_meet_three, lemma_starts, no_white_first, parts_names, stands_behind, starts,
};
use crate::utf8::{lemma_size, size};
use crate::words::is_among;

verus! {

/// True for a lower case letter or a digit of ASCII.
pub open spec fn goes_on_with(c: char) -> bool {
    'a' <= c <= 'z' || '0' <= c <= '9'
}

/// The text `a`, a run of terminators, what is looked at behind it, and more.
pub open spec fn around(a: Seq<char>, run: Seq<char>, next: Seq<char>, more: Seq<char>) -> Seq<char> {
    a + run + next + more
}

/// Where the sentence ends that `run` closes between `a` and `next + more`, in a language
/// with the given abbreviations and sentence starters and no reference numbers behind the
/// run.
pub open spec fn ending(
    abbreviations: Set<Seq<char>>,
    starters: Set<Seq<char>>,
    a: Seq<char>,
    run: Seq<char>,
    next: Seq<char>,
    more: Seq<char>,
) -> Option<int> {
    Rules::standard(abbreviations, starters).boundary_with(
        around(a, run, next, more),
        size(a),
        size(a) + size(run),
        None,
    )
}

/// The sentence ends behind the white space that follows the run, or not at all.
pub proof fn lemma_ending(
    abbreviations: Set<Seq<char>>,
    starters: Set<Seq<char>>,
    a: Seq<char>,
    run: Seq<char>,
    w: Seq<char>,
    rest: Seq<char>,
    more: Seq<char>,
)
    requires
        run.len() > 0,
        is_seen(w + rest, more),
        all_white(w),
        no_white_first(rest),
    ensures
        ending(abbreviations, starters, a, run, w + rest, more) == if Rules::standard(
            abbreviations,
            starters,
        ).ends_nothing(a, run, w + rest) {
            None
        } else {
            Some(size(a) + size(run) + size(w))
        },
{
    let next = w + rest;
    let t = around(a, run, next, more);
    assert(t =~= a + run + (next + more));
    law_behind_run(a, run, next + more);
    lemma_meet_three(a, run, next + more);
    assert(t =~= (a + run) + next + more);
    lemma_meet(a, run);
    law_next_word(a + run, next, more);
    lemma_front::<White>(w, rest, true);
    lemma_size(w);
}

/// The sentence goes on with a lower case letter or a digit, or, behind white space, with
/// a comma; with nothing else.
pub proof fn law_what_goes_on(w: Seq<char>, rest: Seq<char>)
    requires
        all_white(w),
        no_white_first(rest),
    ensures
        (Rules::standard(Set::empty(), Set::empty()).continues)(w + rest) <==> rest.len() > 0 && (
        rest[0] == ',' || w.len() == 0 && goes_on_with(rest[0])),
        forall|ab: Set<Seq<char>>, st: Set<Seq<char>>|
            (#[trigger] Rules::standard(ab, st)).continues == Rules::standard(
                Set::empty(),
                Set::empty(),
            ).continues,
{
    law_strip_front(w, rest);
    if w.len() > 0 {
        assert((w + rest)[0] == w[0]);
        assert(white_space(w[0]));
    } else {
        assert(w + rest =~= rest);
    }
}

/// No quotation mark starts with white space, a letter or digit of ASCII, or a comma.
pub proof fn lemma_mark_firsts()
    ensures
        forall|i: int|
            0 <= i < QUOTE_PAIRS@.len() ==> {
                let c = (#[trigger] QUOTE_PAIRS@[i]).0@[0];
                &&& QUOTE_PAIRS@[i].0@.len() > 0
                &&& !white_space(c) && !ascii_upper(c) && !goes_on_with(c) && c != ','
            },
{
    reveal_strlit("''");
    reveal_strlit("``");
    reveal_strlit("\"");
    reveal_strlit("'");
    reveal_strlit("`");
    reveal_strlit("«");
    reveal_strlit("‘");
    reveal_strlit("‚");
    reveal_strlit("“");
    reveal_strlit("‛");
    reveal_strlit("„");
    reveal_strlit("‟");
    reveal_strlit("‹");
    reveal_strlit("《");
    reveal_strlit("「");
}

/// True when `s` starts with a quotation mark that both opens and closes.
pub open spec fn mark_first(s: Seq<char>) -> bool {
    exists|i: int|
        0 <= i < QUOTE_PAIRS@.len() && QUOTE_PAIRS@[i].0@ == QUOTE_PAIRS@[i].1@ && starts(
            s,
            (#[trigger] QUOTE_PAIRS@[i]).0@,
        )
}

/// True when `s` has no digit of ASCII.
pub open spec fn has_no_digit(s: Seq<char>) -> bool {
    forall|i: int| 0 <= i < s.len() ==> !ascii_digit(#[trigger] s[i])
}

/// Without such a mark none is found.
proof fn lemma_no_pair(t: Seq<char>, k: int)
    requires
        0 <= k,
        !mark_first(t),
    ensures
        symmetric_pair_at(t, 0, k) is None,
    decreases QUOTE_PAIRS@.len() - k,
{
    if k < QUOTE_PAIRS@.len() {
        lemma_starts(t, QUOTE_PAIRS@[k].0@);
        lemma_no_pair(t, k + 1);
    }
}

/// Where the marks before number `k` do not stand, the first that does is `k`.
proof fn lemma_pair(t: Seq<char>, from: int, k: int)
    requires
        0 <= from <= k < QUOTE_PAIRS@.len(),
        QUOTE_PAIRS@[k].0@ == QUOTE_PAIRS@[k].1@,
        starts(t, QUOTE_PAIRS@[k].0@),
        forall|i: int| 0 <= i < k ==> !starts(t, (#[trigger] QUOTE_PAIRS@[i]).0@),
    ensures
        symmetric_pair_at(t, 0, from) == Some(k),
    decreases k - from,
{
    lemma_starts(t, QUOTE_PAIRS@[from].0@);
    if from < k {
        assert(!starts(t, QUOTE_PAIRS@[from].0@));
        lemma_pair(t, from + 1, k);
    }
}

/// A text that starts with neither a mark nor anything that goes on is new.
proof fn lemma_plain_rest(w: Seq<char>, rest: Seq<char>)
    requires
        all_white(w),
        no_white_first(rest),
        rest.len() > 0 ==> !goes_on_with(rest[0]),
        !mark_first(rest),
    ensures
        !continues_behind_quote(w + rest),
{
    law_strip_front(w, rest);
    lemma_no_pair(rest, 0);
}

/// A single terminator behind an ordinary word ends a sentence, and the white space behind
/// it belongs to that sentence, wherever something new follows: neither a comma nor, at
/// once, a lower case letter or a digit. Behind `!` and `?` a lower case letter or a digit
/// is not new behind white space either, nor behind a quotation mark. Behind `.` the word
/// must be neither an abbreviation nor a single capital, and the `.` must not stand inside
/// a code such as `7.Bg5`.
pub proof fn law_terminator_ends_sentence(
    ab: Set<Seq<char>>,
    st: Set<Seq<char>>,
    a: Seq<char>,
    word: Seq<char>,
    c: char,
    w: Seq<char>,
    rest: Seq<char>,
    more: Seq<char>,
)
    requires
        ends_with_word(a, word),
        !is_among(EXCLAMATION_WORDS@, word.push('!')),
        all_white(w),
        no_white_first(rest),
        is_seen(w + rest, more),
        rest.len() > 0 ==> rest[0] != ',' && (w.len() == 0 ==> !goes_on_with(rest[0])),
        c == '!' || c == '?' ==> (rest.len() > 0 ==> !goes_on_with(rest[0])) && !mark_first(rest),
        c == '.' ==> {
            &&& word.len() > 0 ==> !is_listed_in(ab, word)
            &&& !(word.len() == 1 && ascii_upper(word[0]))
            &&& a.len() == 0 || !ascii_digit(a.last()) || !unicode_alphabetic((w + rest)[0])
                || has_no_digit(w + rest)
        },
    ensures
        ending(ab, st, a, seq![c], w + rest, more) == Some(size(a) + size(seq![c]) + size(w)),
{
    let r = Rules::standard(ab, st);
    let next = w + rest;
    lemma_ending(ab, st, a, seq![c], w, rest, more);
    law_what_goes_on(w, rest);
    law_last_word_is_at_the_end(a, word);
    lemma_literals();
    assert(word + "!"@ =~= word.push('!'));
    if c == '!' || c == '?' {
        lemma_plain_rest(w, rest);
    }
    assert(seq![c].len() == 1 && seq![c][0] == c);
    assert(seq!['.'][0] == '.' && seq!['!'][0] == '!' && seq!['?'][0] == '?');
}

/// `!` or `?` before a capital ends a sentence, with the white space in between.
pub proof fn law_emphatic_mark_before_capital_ends_sentence(
    ab: Set<Seq<char>>,
    st: Set<Seq<char>>,
    a: Seq<char>,
    word: Seq<char>,
    c: char,
    w: Seq<char>,
    rest: Seq<char>,
    more: Seq<char>,
)
    requires
        ends_with_word(a, word),
        !is_among(EXCLAMATION_WORDS@, word.push('!')),
        c == '!' || c == '?',
        all_white(w),
        is_seen(w + rest, more),
        rest.len() > 0,
        ascii_upper(rest[0]),
    ensures
        ending(ab, st, a, seq![c], w + rest, more) == Some(size(a) + size(seq![c]) + size(w)),
{
    lemma_mark_firsts();
    assert forall|i: int| 0 <= i < QUOTE_PAIRS@.len() implies !starts(
        rest,
        (#[trigger] QUOTE_PAIRS@[i]).0@,
    ) by {
        if starts(rest, QUOTE_PAIRS@[i].0@) {
            assert(rest.take(QUOTE_PAIRS@[i].0@.len() as int)[0] == rest[0]);
        }
    }
    law_terminator_ends_sentence(ab, st, a, word, c, w, rest, more);
}

/// `.` behind a word that is no abbreviation in any case, and no single capital, ends a
/// sentence before a capital, unless it stands in a code such as `7.Bg5`.
pub proof fn law_full_stop_before_capital_ends_sentence(
    ab: Set<Seq<char>>,
    st: Set<Seq<char>>,
    a: Seq<char>,
    word: Seq<char>,
    w: Seq<char>,
    rest: Seq<char>,
    more: Seq<char>,
)
    requires
        ends_with_word(a, word),
        !is_among(EXCLAMATION_WORDS@, word.push('!')),
        !ab.contains(word),
        !ab.contains(unicode_lower_case(word)),
        !ab.contains(unicode_upper_case(word)),
        !(word.len() == 1 && ascii_upper(word[0])),
        a.len() == 0 || !ascii_digit(a.last()) || !unicode_alphabetic((w + rest)[0])
            || has_no_digit(w + rest),
        all_white(w),
        is_seen(w + rest, more),
        rest.len() > 0,
        ascii_upper(rest[0]),
    ensures
        ending(ab, st, a, seq!['.'], w + rest, more) == Some(size(a) + size(seq!['.']) + size(w)),
{
    law_terminator_ends_sentence(ab, st, a, word, '.', w, rest, more);
}

/// What is taken for an abbreviation is listed: as it stands, in lower case or in upper
/// case.
pub proof fn law_abbreviations_are_listed(rules: Rules, word: Seq<char>, separator: Seq<char>)
    ensures
        rules.abbreviation(word, separator) <==> word.len() > 0 && separator
            == rules.abbreviation_char && (rules.abbreviations.contains(word)
            || rules.abbreviations.contains(unicode_lower_case(word))
            || rules.abbreviations.contains(unicode_upper_case(word))),
{
}

/// Behind a single terminator a lower case letter or a digit that follows at once goes on
/// with the sentence, and so does a comma behind white space.
pub proof fn law_sentence_goes_on(
    ab: Set<Seq<char>>,
    st: Set<Seq<char>>,
    a: Seq<char>,
    c: char,
    w: Seq<char>,
    rest: Seq<char>,
    more: Seq<char>,
)
    requires
        all_white(w),
        no_white_first(rest),
        is_seen(w + rest, more),
        rest.len() > 0,
        rest[0] == ',' || w.len() == 0 && goes_on_with(rest[0]),
    ensures
        ending(ab, st, a, seq![c], w + rest, more) is None,
{
    lemma_ending(ab, st, a, seq![c], w, rest, more);
    law_what_goes_on(w, rest);
}

/// Behind `!` or `?` a lower case letter or a digit goes on with the sentence, behind white
/// space too.
pub proof fn law_emphatic_mark_goes_on(
    ab: Set<Seq<char>>,
    st: Set<Seq<char>>,
    a: Seq<char>,
    c: char,
    w: Seq<char>,
    rest: Seq<char>,
    more: Seq<char>,
)
    requires
        c == '!' || c == '?',
        all_white(w),
        is_seen(w + rest, more),
        rest.len() > 0,
        goes_on_with(rest[0]),
    ensures
        ending(ab, st, a, seq![c], w + rest, more) is None,
{
    lemma_ending(ab, st, a, seq![c], w, rest, more);
    law_strip_front(w, rest);
    lemma_literals();
    lemma_mark_firsts();
    assert forall|i: int| 0 <= i < QUOTE_PAIRS@.len() implies !starts(
        rest,
        (#[trigger] QUOTE_PAIRS@[i]).0@,
    ) by {
        if starts(rest, QUOTE_PAIRS@[i].0@) {
            assert(rest.take(QUOTE_PAIRS@[i].0@.len() as int)[0] == rest[0]);
        }
    }
    lemma_no_pair(rest, 0);
}

/// Behind `!` or `?` one quotation mark that both opens and closes, with its white space,
/// is passed over: what stands behind it tells whether the sentence goes on.
pub proof fn law_emphatic_mark_before_quotation_mark(
    ab: Set<Seq<char>>,
    st: Set<Seq<char>>,
    a: Seq<char>,
    word: Seq<char>,
    c: char,
    w: Seq<char>,
    k: int,
    v: Seq<char>,
    rest: Seq<char>,
    more: Seq<char>,
)
    requires
        ends_with_word(a, word),
        !is_among(EXCLAMATION_WORDS@, word.push('!')),
        c == '!' || c == '?',
        all_white(w),
        all_white(v),
        no_white_first(rest),
        0 <= k < QUOTE_PAIRS@.len(),
        QUOTE_PAIRS@[k].0@ == QUOTE_PAIRS@[k].1@,
        forall|i: int|
            0 <= i < k ==> !starts(QUOTE_PAIRS@[k].0@ + v + rest, (#[trigger] QUOTE_PAIRS@[i]).0@),
        is_seen(w + (QUOTE_PAIRS@[k].0@ + v + rest), more),
    ensures
        ending(ab, st, a, seq![c], w + (QUOTE_PAIRS@[k].0@ + v + rest), more) == if rest.len() > 0
            && goes_on_with(rest[0]) {
            None
        } else {
            Some(size(a) + size(seq![c]) + size(w))
        },
{
    let mark = QUOTE_PAIRS@[k].0@;
    let tail = mark + v + rest;
    lemma_mark_firsts();
    assert(tail[0] == mark[0]);
    lemma_ending(ab, st, a, seq![c], w, tail, more);
    law_what_goes_on(w, tail);
    law_strip_front(w, tail);
    law_last_word_is_at_the_end(a, word);
    lemma_literals();
    assert(word + "!"@ =~= word.push('!'));
    assert(seq![c][0] == c && seq!['.'][0] == '.');
    assert(tail.take(mark.len() as int) =~= mark);
    lemma_pair(tail, 0, k);
    lemma_starts(tail, mark);
    assert(tail.skip(mark.len() as int) =~= v + rest);
    law_strip_front(v, rest);
}

/// Behind a word that is written with an exclamation mark no sentence ends.
pub proof fn law_exclamation_word_ends_no_sentence(
    ab: Set<Seq<char>>,
    st: Set<Seq<char>>,
    a: Seq<char>,
    word: Seq<char>,
    run: Seq<char>,
    w: Seq<char>,
    rest: Seq<char>,
    more: Seq<char>,
)
    requires
        ends_with_word(a, word),
        is_among(EXCLAMATION_WORDS@, word.push('!')),
        run.len() > 0,
        all_white(w),
        no_white_first(rest),
        is_seen(w + rest, more),
    ensures
        ending(ab, st, a, run, w + rest, more) is None,
{
    lemma_ending(ab, st, a, run, w, rest, more);
    law_last_word_is_at_the_end(a, word);
    lemma_literals();
    assert(word + "!"@ =~= word.push('!'));
}

/// True for what ends the first word of a sentence: white space, a comma, a terminator.
pub open spec fn ends_opener(c: char) -> bool {
    white_space(c) || c == ',' || terminator(c)
}

/// True when `o` is the first word of `o + e`: it ends at white space, a comma or a
/// terminator.
pub open spec fn is_opener(o: Seq<char>, e: Seq<char>) -> bool {
    &&& forall|i: int| 0 <= i < o.len() ==> !ends_opener(#[trigger] o[i])
    &&& e.len() > 0 ==> ends_opener(e[0])
    &&& o.len() == 0 ==> no_white_first(e)
}

/// A sentence starter follows when the first word is listed as one.
pub proof fn law_starter_follows(rules: Rules, w: Seq<char>, o: Seq<char>, e: Seq<char>)
    requires
        all_white(w),
        is_opener(o, e),
    ensures
        rules.starter_follows(w + (o + e)) <==> o.len() > 0 && rules.starters.contains(o),
        no_white_first(o + e),
{
    if o.len() > 0 {
        assert((o + e)[0] == o[0]);
        assert(!ends_opener(o[0]));
    } else {
        assert(o + e =~= e);
    }
    law_strip_front(w, o + e);
    assert forall|i: int| 0 <= i < o.len() implies OpenerEnd::has(#[trigger] o[i]) == false by {
        assert(!ends_opener(o[i]));
    }
    lemma_front::<OpenerEnd>(o, e, false);
}

/// A word other than `m` is no time of day.
pub proof fn lemma_no_time(a: Seq<char>, word: Seq<char>)
    requires
        ends_with_word(a, word),
        word != seq!['m'],
        word != seq!['M'],
    ensures
        !ends_with_time(strip_back::<White>(a)),
{
    law_last_word_is_at_the_end(a, word);
    let t = strip_back::<White>(a);
    let n = t.len();
    if ends_with_time(t) {
        let m = t.last();
        assert(!parts_names(m));
        let front = t.drop_last();
        let one = seq![m];
        assert(front.last() == '.');
        assert(t =~= front + one);
        assert(stands_behind(front, one));
        lemma_run_back_white(a);
        let v = a.skip(t.len() as int);
        assert(a =~= front + one + v);
        law_last_word(front, one, v);
        assert(word == one);
    }
}

/// What is stripped from the back is white space.
pub proof fn lemma_run_back_white(a: Seq<char>)
    ensures
        all_white(a.skip(strip_back::<White>(a).len() as int)),
        a == strip_back::<White>(a) + a.skip(strip_back::<White>(a).len() as int),
{
    let t = strip_back::<White>(a);
    lemma_run_back::<White>(a, true);
    let v = a.skip(t.len() as int);
    assert forall|i: int| 0 <= i < v.len() implies white_space(#[trigger] v[i]) by {
        assert(White::has(a[t.len() + i]));
    }
    assert(a =~= t + v);
}

/// `.` behind an abbreviation, in any case, ends no sentence, whatever follows, unless it
/// is a word that opens sentences. (Times of day have laws of their own.)
pub proof fn law_abbreviation_before_other_words(
    ab: Set<Seq<char>>,
    st: Set<Seq<char>>,
    a: Seq<char>,
    word: Seq<char>,
    w: Seq<char>,
    o: Seq<char>,
    e: Seq<char>,
    more: Seq<char>,
)
    requires
        ends_with_word(a, word),
        word.len() > 0,
        word != seq!['m'],
        word != seq!['M'],
        is_listed_in(ab, word),
        all_white(w),
        is_opener(o, e),
        o.len() == 0 || !st.contains(o),
        is_seen(w + (o + e), more),
    ensures
        ending(ab, st, a, seq!['.'], w + (o + e), more) is None,
{
    let r = Rules::standard(ab, st);
    law_starter_follows(r, w, o, e);
    lemma_ending(ab, st, a, seq!['.'], w, o + e, more);
    law_last_word_is_at_the_end(a, word);
    lemma_no_time(a, word);
    lemma_literals();
}

/// True when `token` is what `a` ends with, behind white space or `/`, and before white
/// space.
pub open spec fn ends_with_token(
    a: Seq<char>,
    front: Seq<char>,
    token: Seq<char>,
    v: Seq<char>,
) -> bool {
    &&& a == front + token + v
    &&& token.len() > 0
    &&& forall|i: int| 0 <= i < token.len() ==> !white_space(#[trigger] token[i]) && token[i] != '/'
    &&& front.len() > 0 ==> white_space(front.last()) || front.last() == '/'
    &&& all_white(v)
}

/// Before a word that opens sentences, `.` behind an abbreviation or an initial ends a
/// sentence exactly when the abbreviation starts with a capital, has dots in it and is
/// listed with them, or is listed just as it stands and has more than one letter.
pub proof fn law_abbreviation_before_starter(
    ab: Set<Seq<char>>,
    st: Set<Seq<char>>,
    a: Seq<char>,
    word: Seq<char>,
    front: Seq<char>,
    token: Seq<char>,
    v: Seq<char>,
    w: Seq<char>,
    o: Seq<char>,
    e: Seq<char>,
    more: Seq<char>,
)
    requires
        ends_with_word(a, word),
        word.len() > 0,
        word != seq!['m'],
        word != seq!['M'],
        ends_with_token(a, front, token, v),
        !is_among(EXCLAMATION_WORDS@, word.push('!')),
        is_listed_in(ab, word),
        all_white(w),
        is_opener(o, e),
        o.len() > 0,
        st.contains(o),
        w.len() == 0 ==> !goes_on_with(o[0]),
        !ascii_digit(a.last()),
        is_seen(w + (o + e), more),
    ensures
        ending(ab, st, a, seq!['.'], w + (o + e), more) == if ascii_upper(word[0]) || (
        token.contains('.') && is_listed_in(ab, token)) || (word.len() > 1 && ab.contains(word)) {
            Some(size(a) + size(seq!['.']) + size(w))
        } else {
            None
        },
{
    let r = Rules::standard(ab, st);
    law_starter_follows(r, w, o, e);
    lemma_ending(ab, st, a, seq!['.'], w, o + e, more);
    assert((o + e)[0] == o[0]);
    assert(!ends_opener(o[0]));
    law_what_goes_on(w, o + e);
    law_last_word_is_at_the_end(a, word);
    law_last_token(front, token, v);
    law_longer_token_has_dot(a);
    lemma_no_time(a, word);
    lemma_literals();
    assert(seq!['.'].len() == 1 && seq!['.'][0] == '.');
    assert(seq!['!'][0] == '!' && seq!['?'][0] == '?');
    assert(word + "!"@ =~= word.push('!'));
}

} // verus!
