//! Initials, times of day, codes, runs of terminators and reference numbers.

use vstd::prelude::*;

use crate::chars::{
    ascii_digit, ascii_upper, strip_back, unicode_alphabetic, unicode_uppercase, white_space,
    AsciiDigit, CharClass, ClockDigit, NameSeparator, White,
};
use crate::constants::{EXCLAMATION_WORDS, NUMBERED_REFERENCE_PATTERN};
use crate::languages::phrases::{ends_with_time, initial_first, time_fronted};
use crate::languages::rules::Rules;
use crate::laws::marks::law_terminators_of_ascii;
use crate::laws::parts::{
    all_white, ends_with_word, is_listed_in, is_parted, is_seen, law_behind_run, law_last_word,
    law_last_word_is_at_the_end, law_next_word, law_strip_back, law_strip_front, lemma_back,
    lemma_front, lemma_literals, lemma_meet, no_white_first, parts_names, stands_behind,
};
use crate::laws::sentences::{
    around, ending, goes_on_with, is_opener, law_starter_follows, law_what_goes_on, lemma_ending,
    lemma_no_time,
};
use crate::pattern::{find_facts, references_length, regex_find};
use crate::utf8::size;
use crate::words::is_among;

verus! {

/// True when `s` holds separators of names alone.
pub open spec fn all_parting(s: Seq<char>) -> bool {
    forall|i: int| 0 <= i < s.len() ==> parts_names(#[trigger] s[i])
}

/// The word before an initial.
proof fn lemma_name(
    rules: Rules,
    f: Seq<char>,
    name: Seq<char>,
    s: Seq<char>,
    initial: char,
    v: Seq<char>,
)
    requires
        f.len() > 0 ==> parts_names(f.last()),
        forall|i: int| 0 <= i < name.len() ==> !parts_names(#[trigger] name[i]),
        all_parting(s),
        name.len() > 0 ==> s.len() > 0,
        name.len() == 0 ==> f.len() == 0,
        ascii_upper(initial),
        all_white(v),
    ensures
        ends_with_word(f + name + s + seq![initial] + v, seq![initial]),
        rules.name_before_initial(f + name + s + seq![initial] + v, seq![initial]) <==> name.len()
            > 0 && ascii_upper(name[0]),
{
    let one = seq![initial];
    let front = f + name + s;
    let a = front + one + v;
    assert(stands_behind(front, one)) by {
        if s.len() > 0 {
            assert(front.last() == s[s.len() - 1]);
        } else {
            assert(front =~= Seq::<char>::empty());
        }
    }
    assert(is_parted(a, front, one, v));
    law_last_word(front, one, v);
    let trimmed = strip_back::<White>(a);
    assert(trimmed == front + one);
    assert(trimmed.last() == initial);
    assert(one.last() == initial);
    assert(trimmed.drop_last() =~= front);
    let b = f + name;
    assert forall|i: int| 0 <= i < s.len() implies NameSeparator::has(#[trigger] s[i]) == true by {
        assert(parts_names(s[i]));
    }
    if name.len() > 0 {
        assert(b.last() == name[name.len() - 1]);
        lemma_back::<NameSeparator>(b, s, true);
        assert(is_parted(b, f, name, Seq::empty())) by {
            assert(b =~= f + name + Seq::<char>::empty());
        }
        law_last_word(f, name, Seq::empty());
        assert(f + name + Seq::<char>::empty() =~= b);
    } else {
        assert(b =~= Seq::<char>::empty());
        lemma_back::<NameSeparator>(b, s, true);
        law_last_word_is_at_the_end(b, Seq::empty());
    }
}

/// `.` behind a single capital ends no sentence when the word before it starts with a
/// capital too, as in `George W. Bush`, unless a word that opens sentences follows. The
/// word before it stands behind white space, `.` or `/`. White space behind the capital
/// changes nothing.
pub proof fn law_initial_behind_name(
    ab: Set<Seq<char>>,
    st: Set<Seq<char>>,
    f: Seq<char>,
    name: Seq<char>,
    s: Seq<char>,
    initial: char,
    v: Seq<char>,
    w: Seq<char>,
    o: Seq<char>,
    e: Seq<char>,
    more: Seq<char>,
)
    requires
        f.len() > 0 ==> parts_names(f.last()),
        name.len() > 0,
        forall|i: int| 0 <= i < name.len() ==> !parts_names(#[trigger] name[i]),
        ascii_upper(name[0]),
        s.len() > 0,
        all_parting(s),
        ascii_upper(initial),
        initial != 'M',
        all_white(v),
        all_white(w),
        is_opener(o, e),
        o.len() == 0 || !st.contains(o),
        is_seen(w + (o + e), more),
    ensures
        ending(ab, st, f + name + s + seq![initial] + v, seq!['.'], w + (o + e), more) is None,
{
    let r = Rules::standard(ab, st);
    let a = f + name + s + seq![initial] + v;
    lemma_name(r, f, name, s, initial, v);
    law_starter_follows(r, w, o, e);
    lemma_ending(ab, st, a, seq!['.'], w, o + e, more);
    law_last_word_is_at_the_end(a, seq![initial]);
    assert(seq![initial][0] == initial);
    assert(seq!['m'][0] == 'm' && seq!['M'][0] == 'M');
    lemma_no_time(a, seq![initial]);
    lemma_literals();
}

/// `.` behind a single capital ends no sentence when another initial follows, as in
/// `J. R. R. Tolkien`, unless that is listed as a word that opens sentences.
pub proof fn law_initial_before_initial(
    ab: Set<Seq<char>>,
    st: Set<Seq<char>>,
    a: Seq<char>,
    initial: char,
    w: Seq<char>,
    second: char,
    e: Seq<char>,
    more: Seq<char>,
)
    requires
        ends_with_word(a, seq![initial]),
        ascii_upper(initial),
        initial != 'M',
        all_white(w),
        ascii_upper(second),
        e.len() > 0 ==> white_space(e[0]),
        !st.contains(seq![second]),
        is_seen(w + (seq![second] + (seq!['.'] + e)), more),
    ensures
        ending(ab, st, a, seq!['.'], w + (seq![second] + (seq!['.'] + e)), more) is None,
{
    let r = Rules::standard(ab, st);
    let o = seq![second];
    let tail = seq!['.'] + e;
    assert(tail[0] == '.');
    law_terminators_of_ascii('.');
    law_terminators_of_ascii(second);
    assert(is_opener(o, tail));
    law_starter_follows(r, w, o, tail);
    lemma_ending(ab, st, a, seq!['.'], w, o + tail, more);
    law_strip_front(w, o + tail);
    let t = o + tail;
    assert(t[0] == second && t[1] == '.');
    if e.len() > 0 {
        assert(t[2] == e[0]);
    }
    assert(initial_first(w + t));
    law_last_word_is_at_the_end(a, seq![initial]);
    assert(seq![initial][0] == initial);
    assert(seq!['m'][0] == 'm' && seq!['M'][0] == 'M');
    lemma_no_time(a, seq![initial]);
    lemma_literals();
}

/// `.` behind a single capital that is not listed ends a sentence when neither the word
/// before it starts with a capital nor an initial follows.
pub proof fn law_single_capital_that_is_no_initial(
    ab: Set<Seq<char>>,
    st: Set<Seq<char>>,
    f: Seq<char>,
    name: Seq<char>,
    s: Seq<char>,
    initial: char,
    v: Seq<char>,
    w: Seq<char>,
    rest: Seq<char>,
    more: Seq<char>,
)
    requires
        f.len() > 0 ==> parts_names(f.last()),
        forall|i: int| 0 <= i < name.len() ==> !parts_names(#[trigger] name[i]),
        name.len() == 0 ==> f.len() == 0,
        name.len() > 0 ==> s.len() > 0 && !ascii_upper(name[0]),
        all_parting(s),
        ascii_upper(initial),
        initial != 'M',
        !is_listed_in(ab, seq![initial]),
        !is_among(EXCLAMATION_WORDS@, seq![initial].push('!')),
        all_white(v),
        all_white(w),
        no_white_first(rest),
        rest.len() > 0 ==> rest[0] != ',' && (w.len() == 0 ==> !goes_on_with(rest[0])),
        // No initial follows.
        rest.len() < 2 || !ascii_upper(rest[0]) || rest[1] != '.' || rest.len() > 2
            && !white_space(rest[2]),
        is_seen(w + rest, more),
    ensures
        ending(ab, st, f + name + s + seq![initial] + v, seq!['.'], w + rest, more) == Some(
            size(f + name + s + seq![initial] + v) + size(seq!['.']) + size(w),
        ),
{
    let r = Rules::standard(ab, st);
    let a = f + name + s + seq![initial] + v;
    lemma_name(r, f, name, s, initial, v);
    lemma_ending(ab, st, a, seq!['.'], w, rest, more);
    law_what_goes_on(w, rest);
    law_strip_front(w, rest);
    law_last_word_is_at_the_end(a, seq![initial]);
    assert(seq![initial][0] == initial);
    lemma_literals();
    assert(seq!['.'].len() == 1 && seq!['.'][0] == '.');
    assert(seq!['!'][0] == '!' && seq!['?'][0] == '?');
    assert(seq![initial] + "!"@ =~= seq![initial].push('!'));
    assert(!ascii_digit(a.last())) by {
        if v.len() > 0 {
            assert(a.last() == v[v.len() - 1]);
        } else {
            assert(a.last() == initial);
        }
    }
}

// Times of day.

/// `a.m` or `p.m`, in any case.
pub open spec fn is_time(h: char, m: char) -> bool {
    (h == 'a' || h == 'A' || h == 'p' || h == 'P') && (m == 'm' || m == 'M')
}

/// True when `s` holds digits and `:` alone.
pub open spec fn all_clock(s: Seq<char>) -> bool {
    forall|i: int| 0 <= i < s.len() ==> ascii_digit(#[trigger] s[i]) || s[i] == ':'
}

/// A time of day, and the word before it.
pub open spec fn timed(
    f: Seq<char>,
    prep: Seq<char>,
    v1: Seq<char>,
    number: Seq<char>,
    v2: Seq<char>,
    h: char,
    m: char,
    v3: Seq<char>,
) -> Seq<char> {
    f + prep + v1 + number + v2 + seq![h, '.', m] + v3
}

/// True when these are the parts of a text that ends with a time of day: anything, a word,
/// a number, `a.m` or `p.m`, with white space in between.
pub open spec fn is_timed(
    f: Seq<char>,
    prep: Seq<char>,
    v1: Seq<char>,
    number: Seq<char>,
    v2: Seq<char>,
    h: char,
    m: char,
    v3: Seq<char>,
) -> bool {
    &&& f.len() > 0 ==> white_space(f.last())
    &&& prep.len() > 0
    &&& forall|i: int| 0 <= i < prep.len() ==> !white_space(#[trigger] prep[i])
    &&& !ascii_digit(prep.last()) && prep.last() != ':'
    &&& all_white(v1) && all_clock(number) && all_white(v2)
    &&& is_time(h, m)
    &&& all_white(v3)
}

proof fn lemma_timed(
    f: Seq<char>,
    prep: Seq<char>,
    v1: Seq<char>,
    number: Seq<char>,
    v2: Seq<char>,
    h: char,
    m: char,
    v3: Seq<char>,
)
    requires
        is_timed(f, prep, v1, number, v2, h, m, v3),
    ensures
        ({
            let a = timed(f, prep, v1, number, v2, h, m, v3);
            let t = strip_back::<White>(a);
            &&& ends_with_time(t)
            &&& time_fronted(t) <==> ascii_upper(prep[0])
            &&& ends_with_word(a, seq![m])
            &&& a.len() > 0 && !ascii_digit(a.last())
        }),
{
    let a = timed(f, prep, v1, number, v2, h, m, v3);
    let x = f + prep + v1 + number + v2;
    let t = x + seq![h, '.', m];
    assert(t.last() == m);
    law_strip_back(t, v3);
    assert(strip_back::<White>(a) == t);
    assert(t.take(t.len() - 3) =~= x);
    let y = f + prep + v1 + number;
    let z = f + prep + v1;
    let u = f + prep;
    assert(u.last() == prep[prep.len() - 1]);
    assert forall|i: int| 0 <= i < number.len() implies ClockDigit::has(#[trigger] number[i])
        == true by {}
    // The word before the time is what is left.
    if number.len() > 0 {
        assert(y.last() == number[number.len() - 1]);
        law_strip_back(y, v2);
        if v1.len() > 0 {
            assert(z.last() == v1[v1.len() - 1]);
            assert(white_space(v1[v1.len() - 1]));
        }
        lemma_back::<ClockDigit>(z, number, true);
        law_strip_back(u, v1);
    } else {
        let both = v1 + v2;
        assert(x =~= u + both);
        assert forall|i: int| 0 <= i < both.len() implies white_space(#[trigger] both[i]) by {
            if i < v1.len() {
                assert(both[i] == v1[i]);
            } else {
                assert(both[i] == v2[i - v1.len()]);
            }
        }
        law_strip_back(u, both);
        lemma_back::<ClockDigit>(u, Seq::empty(), true);
        assert(u + Seq::<char>::empty() =~= u);
        law_strip_back(u, Seq::empty());
    }
    assert forall|i: int| 0 <= i < prep.len() implies White::has(#[trigger] prep[i]) == false by {}
    lemma_back::<White>(f, prep, false);
    let front = x.push(h).push('.');
    let one = seq![m];
    assert(front.last() == '.');
    assert(a =~= front + one + v3);
    assert(is_parted(a, front, one, v3));
    if v3.len() > 0 {
        assert(a.last() == v3[v3.len() - 1]);
        assert(white_space(v3[v3.len() - 1]));
    } else {
        assert(a.last() == m);
    }
}

/// `.` behind a time of day ends a sentence before a digit, and before a capital unless a
/// capital introduces the time (`At 5 a.m. Mr. Smith woke up`), though the time is written
/// as an abbreviation.
pub proof fn law_time_ends_sentence(
    ab: Set<Seq<char>>,
    st: Set<Seq<char>>,
    f: Seq<char>,
    prep: Seq<char>,
    v1: Seq<char>,
    number: Seq<char>,
    v2: Seq<char>,
    h: char,
    m: char,
    v3: Seq<char>,
    w: Seq<char>,
    rest: Seq<char>,
    more: Seq<char>,
)
    requires
        is_timed(f, prep, v1, number, v2, h, m, v3),
        !is_among(EXCLAMATION_WORDS@, seq![m].push('!')),
        all_white(w),
        no_white_first(rest),
        rest.len() > 0,
        rest[0] != ',',
        w.len() == 0 ==> !goes_on_with(rest[0]),
        ascii_digit(rest[0]) || unicode_uppercase(rest[0]) && !ascii_upper(prep[0]),
        is_seen(w + rest, more),
    ensures
        ending(ab, st, timed(f, prep, v1, number, v2, h, m, v3), seq!['.'], w + rest, more) == Some(
            size(timed(f, prep, v1, number, v2, h, m, v3)) + size(seq!['.']) + size(w),
        ),
{
    let a = timed(f, prep, v1, number, v2, h, m, v3);
    lemma_timed(f, prep, v1, number, v2, h, m, v3);
    lemma_ending(ab, st, a, seq!['.'], w, rest, more);
    law_what_goes_on(w, rest);
    law_strip_front(w, rest);
    law_last_word_is_at_the_end(a, seq![m]);
    lemma_literals();
    assert(seq!['.'].len() == 1 && seq!['.'][0] == '.');
    assert(seq!['!'][0] == '!' && seq!['?'][0] == '?');
    assert(seq![m] + "!"@ =~= seq![m].push('!'));
}

/// `.` behind a time of day ends no sentence where a capital introduces the time, or where
/// neither a digit nor a capital follows, if `m` is an abbreviation and no word that opens
/// sentences follows.
pub proof fn law_time_ends_no_sentence(
    ab: Set<Seq<char>>,
    st: Set<Seq<char>>,
    f: Seq<char>,
    prep: Seq<char>,
    v1: Seq<char>,
    number: Seq<char>,
    v2: Seq<char>,
    h: char,
    m: char,
    v3: Seq<char>,
    w: Seq<char>,
    o: Seq<char>,
    e: Seq<char>,
    more: Seq<char>,
)
    requires
        is_timed(f, prep, v1, number, v2, h, m, v3),
        is_listed_in(ab, seq![m]),
        all_white(w),
        is_opener(o, e),
        o.len() == 0 || !st.contains(o),
        (o + e).len() > 0 ==> !ascii_digit((o + e)[0]) && (ascii_upper(prep[0])
            || !unicode_uppercase((o + e)[0])),
        is_seen(w + (o + e), more),
    ensures
        ending(
            ab,
            st,
            timed(f, prep, v1, number, v2, h, m, v3),
            seq!['.'],
            w + (o + e),
            more,
        ) is None,
{
    let r = Rules::standard(ab, st);
    let a = timed(f, prep, v1, number, v2, h, m, v3);
    lemma_timed(f, prep, v1, number, v2, h, m, v3);
    law_starter_follows(r, w, o, e);
    lemma_ending(ab, st, a, seq!['.'], w, o + e, more);
    law_strip_front(w, o + e);
    law_last_word_is_at_the_end(a, seq![m]);
    lemma_literals();
}

/// `.` between a digit and a token that starts with a letter and has a digit in it, as in
/// `7.Bg5`, ends no sentence.
pub proof fn law_code_ends_no_sentence(
    ab: Set<Seq<char>>,
    st: Set<Seq<char>>,
    a: Seq<char>,
    next: Seq<char>,
    more: Seq<char>,
    i: int,
)
    requires
        a.len() > 0,
        ascii_digit(a.last()),
        next.len() > 0,
        unicode_alphabetic(next[0]),
        !white_space(next[0]),
        0 <= i < next.len(),
        ascii_digit(next[i]),
        is_seen(next, more),
    ensures
        ending(ab, st, a, seq!['.'], next, more) is None,
{
    assert(Seq::<char>::empty() + next =~= next);
    lemma_ending(ab, st, a, seq!['.'], Seq::empty(), next, more);
    lemma_literals();
}

// Runs of more than one terminator.

/// A run of more than one terminator ends a sentence, with the white space behind it,
/// unless the sentence goes on: with a lower case letter or a digit behind white space, or
/// with the pronoun `I` behind white space, or with a lower case letter or a digit at once,
/// if the run also stands right behind something.
pub proof fn law_long_run(
    ab: Set<Seq<char>>,
    st: Set<Seq<char>>,
    a: Seq<char>,
    word: Seq<char>,
    run: Seq<char>,
    w: Seq<char>,
    rest: Seq<char>,
    more: Seq<char>,
)
    requires
        ends_with_word(a, word),
        !is_among(EXCLAMATION_WORDS@, word.push('!')),
        run.len() >= 2,
        all_white(w),
        no_white_first(rest),
        is_seen(w + rest, more),
    ensures
        ending(ab, st, a, run, w + rest, more) == if rest.len() > 0 && (if w.len() > 0 {
            goes_on_with(rest[0]) || rest[0] == 'I' && (rest.len() == 1 || white_space(rest[1])
                || rest[1] == '\'' || rest[1] == '\u{2019}')
        } else {
            goes_on_with(rest[0]) && a.len() > 0 && !white_space(a.last())
        }) {
            None
        } else {
            Some(size(a) + size(run) + size(w))
        },
{
    let next = w + rest;
    lemma_ending(ab, st, a, run, w, rest, more);
    law_strip_front(w, rest);
    law_last_word_is_at_the_end(a, word);
    lemma_literals();
    assert(word + "!"@ =~= word.push('!'));
    assert(seq!['.'].len() == 1 && seq!['!'].len() == 1 && seq!['?'].len() == 1);
    if rest.len() > 0 {
        assert(next[w.len() as int] == rest[0]);
        if rest.len() > 1 {
            assert(next[w.len() as int + 1] == rest[1]);
        }
    }
    if w.len() > 0 {
        assert(next[0] == w[0]);
        assert(white_space(w[0]));
    } else {
        assert(next =~= rest);
    }
}

// Reference numbers.

/// Reference numbers that follow at once belong to the sentence, which ends behind them,
/// whatever else stands around the run.
pub proof fn law_references_end_sentence(
    rules: Rules,
    a: Seq<char>,
    run: Seq<char>,
    rest: Seq<char>,
    n: int,
)
    requires
        run.len() > 0,
    ensures
        rules.boundary_with(a + run + rest, size(a), size(a) + size(run), Some(n)) == Some(
            size(a) + size(run) + n,
        ),
{
    law_behind_run(a, run, rest);
}

/// Where the expression for reference numbers matches behind the run, the sentence ends
/// behind that match; where it does not, what follows the run decides.
pub proof fn law_references_are_looked_for(
    rules: Rules,
    a: Seq<char>,
    run: Seq<char>,
    next: Seq<char>,
    more: Seq<char>,
)
    requires
        run.len() > 0,
        is_seen(next, more),
    ensures
        rules.boundary(around(a, run, next, more), size(a), size(a) + size(run)) == match regex_find(
            NUMBERED_REFERENCE_PATTERN@,
            next,
        ) {
            Some(m) => Some(size(a) + size(run) + m.1),
            None => rules.boundary_with(
                around(a, run, next, more),
                size(a),
                size(a) + size(run),
                None,
            ),
        },
{
    let t = around(a, run, next, more);
    assert(t =~= a + run + (next + more));
    law_behind_run(a, run, next + more);
    lemma_meet(a, run);
    law_next_word(a + run, next, more);
}

/// Numbers in square brackets, right behind the run, are reference numbers.
pub proof fn law_references(d: Seq<char>, rest: Seq<char>)
    requires
        d.len() > 0,
        forall|i: int| 0 <= i < d.len() ==> '0' <= #[trigger] d[i] <= '9',
    ensures
        references_length(seq!['['] + d + seq![']'] + rest) == d.len() + 2 + references_length(
            rest,
        ),
        rest.len() > 0 && rest[0] == '[' || references_length(rest) == 0,
{
    let o = seq!['['];
    let k = seq![']'];
    let t = o + d + k + rest;
    assert(t[0] == '[');
    assert(t.drop_first() =~= d + (k + rest));
    assert forall|i: int| 0 <= i < d.len() implies AsciiDigit::has(#[trigger] d[i]) == true by {}
    assert((k + rest)[0] == ']');
    lemma_front::<AsciiDigit>(d, k + rest, true);
    assert(t[d.len() as int + 1] == ']');
    assert(t.skip(d.len() as int + 2) =~= rest);
}

/// A terminator that a number in square brackets follows at once ends a sentence behind that
/// number, whatever comes next.
pub proof fn law_reference_ends_sentence(
    rules: Rules,
    a: Seq<char>,
    run: Seq<char>,
    d: Seq<char>,
    rest: Seq<char>,
    more: Seq<char>,
)
    requires
        run.len() > 0,
        d.len() > 0,
        forall|i: int| 0 <= i < d.len() ==> '0' <= #[trigger] d[i] <= '9',
        rest.len() > 0 ==> rest[0] != '[',
        is_seen(seq!['['] + d + seq![']'] + rest, more),
        find_facts(
            NUMBERED_REFERENCE_PATTERN@,
            seq!['['] + d + seq![']'] + rest,
            regex_find(NUMBERED_REFERENCE_PATTERN@, seq!['['] + d + seq![']'] + rest),
        ),
    ensures
        rules.boundary(
            around(a, run, seq!['['] + d + seq![']'] + rest, more),
            size(a),
            size(a) + size(run),
        ) == Some(size(a) + size(run) + size(seq!['['] + d + seq![']'])),
{
    let g = seq!['['] + d + seq![']'];
    let next = g + rest;
    law_references(d, rest);
    assert(next.take(g.len() as int) =~= g);
    assert(next.skip(g.len() as int) =~= rest);
    law_references_are_looked_for(rules, a, run, next, more);
}

} // verus!
