//! Closing marks that no opener goes with.

use vstd::prelude::*;
use vstd::utf8::*;

use crate::chars::{ascii_upper, white_space};
use crate::constants::{QUOTE_CLOSERS_BY_LEN, QUOTE_PAIRS};
use crate::languages::cuts::pushed;
use crate::languages::ranges::{
    is_symmetric, orphan_closer, symmetric_mark, symmetric_range, symmetric_span, SkippableRange,
    SkippableRangeType,
};
use crate::languages::rules::{orphan_at, past_space, quoted_earlier, range_starts, Rules};
use crate::laws::cuts::lemma_no_forbidding;
use crate::laws::parts::{
    all_white, law_strip_front, lemma_meet, lemma_meet_three, lemma_starts, no_white_first, starts,
};
use crate::laws::quotes::{is_two_sided, law_two_sided_marks};
use crate::pattern::regex_find;
use crate::text::occurs_at;
use crate::utf8::{lemma_encode_concat, lemma_size, size};

verus! {

/// True for the closing marks of a single character that open nothing.
pub open spec fn only_closes(c: char) -> bool {
    c == '’' || c == '”' || c == '“' || c == '›' || c == '》' || c == '」' || c == '»'
}

/// True for the marks of a single character that both open and close.
pub open spec fn opens_and_closes(c: char) -> bool {
    c == '"' || c == '\'' || c == '`' || c == '‚' || c == '‛' || c == '‟'
}

/// The marks that both open and close: six single ones, and the doubled `'` and backtick.
pub proof fn law_which_marks_open_and_close(mark: Seq<char>)
    ensures
        symmetric_mark(mark) <==> mark == seq!['\'', '\''] || mark == seq!['`', '`'] || mark.len()
            == 1 && opens_and_closes(mark[0]),
{
    law_two_sided_marks(mark);
    lemma_pair_literals();
    let p = QUOTE_PAIRS@;
    if is_two_sided(mark) {
        let i = choose|i: int|
            0 <= i < p.len() && p[i].0@ == mark && (#[trigger] p[i]).1@ == mark;
        assert(p[i].0@ == mark && p[i].1@ == mark);
    }
    if mark.len() == 1 {
        assert(mark =~= seq![mark[0]]);
    }
    assert(p[0].0@ == p[0].1@ && p[1].0@ == p[1].1@ && p[2].0@ == p[2].1@ && p[3].0@ == p[3].1@);
    assert(p[4].0@ == p[4].1@ && p[7].0@ == p[7].1@ && p[9].0@ == p[9].1@ && p[11].0@ == p[11].1@);
}

/// The marks as texts.
proof fn lemma_pair_literals()
    ensures
        ({
            let p = QUOTE_PAIRS@;
            &&& p[0].1@ == seq!['\'', '\''] && p[0].0@ == seq!['\'', '\'']
            &&& p[1].1@ == seq!['`', '`'] && p[1].0@ == seq!['`', '`']
            &&& p[2].1@ == seq!['"'] && p[2].0@ == seq!['"']
            &&& p[3].1@ == seq!['\''] && p[3].0@ == seq!['\'']
            &&& p[4].1@ == seq!['`'] && p[4].0@ == seq!['`']
            &&& p[5].1@ == seq!['»'] && p[5].0@ == seq!['«']
            &&& p[6].1@ == seq!['’'] && p[6].0@ == seq!['‘']
            &&& p[7].1@ == seq!['‚'] && p[7].0@ == seq!['‚']
            &&& p[8].1@ == seq!['”'] && p[8].0@ == seq!['“']
            &&& p[9].1@ == seq!['‛'] && p[9].0@ == seq!['‛']
            &&& p[10].1@ == seq!['“'] && p[10].0@ == seq!['„']
            &&& p[11].1@ == seq!['‟'] && p[11].0@ == seq!['‟']
            &&& p[12].1@ == seq!['›'] && p[12].0@ == seq!['‹']
            &&& p[13].1@ == seq!['》'] && p[13].0@ == seq!['《']
            &&& p[14].1@ == seq!['」'] && p[14].0@ == seq!['「']
        }),
{
    reveal_strlit("''");
    reveal_strlit("``");
    reveal_strlit("\"");
    reveal_strlit("'");
    reveal_strlit("`");
    reveal_strlit("«");
    reveal_strlit("»");
    reveal_strlit("‘");
    reveal_strlit("’");
    reveal_strlit("‚");
    reveal_strlit("“");
    reveal_strlit("”");
    reveal_strlit("‛");
    reveal_strlit("„");
    reveal_strlit("‟");
    reveal_strlit("‹");
    reveal_strlit("›");
    reveal_strlit("《");
    reveal_strlit("》");
    reveal_strlit("「");
    reveal_strlit("」");
    let p = QUOTE_PAIRS@;
    assert(p[0].1@ =~= seq!['\'', '\''] && p[0].0@ =~= seq!['\'', '\'']);
    assert(p[1].1@ =~= seq!['`', '`'] && p[1].0@ =~= seq!['`', '`']);
    assert(p[2].1@ =~= seq!['"'] && p[2].0@ =~= seq!['"']);
    assert(p[3].1@ =~= seq!['\''] && p[3].0@ =~= seq!['\'']);
    assert(p[4].1@ =~= seq!['`'] && p[4].0@ =~= seq!['`']);
    assert(p[5].1@ =~= seq!['»'] && p[5].0@ =~= seq!['«']);
    assert(p[6].1@ =~= seq!['’'] && p[6].0@ =~= seq!['‘']);
    assert(p[7].1@ =~= seq!['‚'] && p[7].0@ =~= seq!['‚']);
    assert(p[8].1@ =~= seq!['”'] && p[8].0@ =~= seq!['“']);
    assert(p[9].1@ =~= seq!['‛'] && p[9].0@ =~= seq!['‛']);
    assert(p[10].1@ =~= seq!['“'] && p[10].0@ =~= seq!['„']);
    assert(p[11].1@ =~= seq!['‟'] && p[11].0@ =~= seq!['‟']);
    assert(p[12].1@ =~= seq!['›'] && p[12].0@ =~= seq!['‹']);
    assert(p[13].1@ =~= seq!['》'] && p[13].0@ =~= seq!['《']);
    assert(p[14].1@ =~= seq!['」'] && p[14].0@ =~= seq!['「']);
}

/// The closers as texts.
proof fn lemma_closer_literals()
    ensures
        ({
            let c = QUOTE_CLOSERS_BY_LEN@;
            &&& c[0]@ == seq!['’'] && c[1]@ == seq!['‚'] && c[2]@ == seq!['”']
            &&& c[3]@ == seq!['‛'] && c[4]@ == seq!['“'] && c[5]@ == seq!['‟']
            &&& c[6]@ == seq!['›'] && c[7]@ == seq!['》'] && c[8]@ == seq!['」']
            &&& c[9]@ == seq!['\'', '\''] && c[10]@ == seq!['`', '`'] && c[11]@ == seq!['»']
            &&& c[12]@ == seq!['"'] && c[13]@ == seq!['\''] && c[14]@ == seq!['`']
        }),
{
    reveal_strlit("''");
    reveal_strlit("``");
    reveal_strlit("\"");
    reveal_strlit("'");
    reveal_strlit("`");
    reveal_strlit("»");
    reveal_strlit("’");
    reveal_strlit("‚");
    reveal_strlit("“");
    reveal_strlit("”");
    reveal_strlit("‛");
    reveal_strlit("‟");
    reveal_strlit("›");
    reveal_strlit("》");
    reveal_strlit("」");
    let c = QUOTE_CLOSERS_BY_LEN@;
    assert(c[0]@ =~= seq!['’'] && c[1]@ =~= seq!['‚'] && c[2]@ =~= seq!['”']);
    assert(c[3]@ =~= seq!['‛'] && c[4]@ =~= seq!['“'] && c[5]@ =~= seq!['‟']);
    assert(c[6]@ =~= seq!['›'] && c[7]@ =~= seq!['》'] && c[8]@ =~= seq!['」']);
    assert(c[9]@ =~= seq!['\'', '\''] && c[10]@ =~= seq!['`', '`'] && c[11]@ =~= seq!['»']);
    assert(c[12]@ =~= seq!['"'] && c[13]@ =~= seq!['\''] && c[14]@ =~= seq!['`']);
}

/// A token occurs where the text from there on starts with it.
pub proof fn lemma_occurs_behind(a: Seq<char>, b: Seq<char>, token: Seq<char>)
    ensures
        occurs_at(a + b, token, size(a)) <==> starts(b, token),
{
    lemma_encode_concat(a, b);
    lemma_starts(b, token);
    let t = a + b;
    let n = size(token);
    if n <= size(b) {
        assert(encode_utf8(t).subrange(size(a), size(a) + n) =~= encode_utf8(b).subrange(0, n));
    }
}

/// A single character is a start.
proof fn lemma_starts_single(b: Seq<char>, c: char)
    ensures
        starts(b, seq![c]) <==> b.len() > 0 && b[0] == c,
{
    if b.len() > 0 {
        assert(b.take(1)[0] == b[0]);
        if b[0] == c {
            assert(b.take(1) =~= seq![c]);
        }
    }
}

/// Which closer stands at the boundary.
proof fn lemma_which_closer(a: Seq<char>, c: char, b: Seq<char>, k: int)
    requires
        only_closes(c) || opens_and_closes(c),
        (c == '\'' || c == '`') && b.len() > 0 ==> b[0] != c,
        0 <= k < QUOTE_CLOSERS_BY_LEN@.len(),
    ensures
        occurs_at(a + seq![c] + b, QUOTE_CLOSERS_BY_LEN@[k]@, size(a)) <==> QUOTE_CLOSERS_BY_LEN@[k]@
            == seq![c],
{
    let t = seq![c] + b;
    assert(a + seq![c] + b =~= a + t);
    let m = QUOTE_CLOSERS_BY_LEN@[k]@;
    lemma_occurs_behind(a, t, m);
    lemma_closer_literals();
    assert(t[0] == c);
    if m.len() == 1 {
        assert(m =~= seq![m[0]]);
        lemma_starts_single(t, m[0]);
        assert(m[0] == c <==> m == seq![c]) by {
            if m == seq![c] {
                assert(m[0] == seq![c][0]);
            }
        }
    } else {
        assert(m.len() == 2);
        assert(m != seq![c]) by {
            assert(seq![c].len() == 1);
        }
        if starts(t, m) {
            assert(t.take(2)[0] == t[0] && t.take(2)[1] == t[1]);
            assert(t[1] == b[0]);
        }
    }
}

/// The closer that is found at the boundary.
proof fn lemma_orphan_at(
    a: Seq<char>,
    c: char,
    b: Seq<char>,
    ranges: Seq<SkippableRange>,
    k: int,
    n: int,
)
    requires
        only_closes(c) || opens_and_closes(c),
        (c == '\'' || c == '`') && b.len() > 0 ==> b[0] != c,
        0 <= k <= n < QUOTE_CLOSERS_BY_LEN@.len(),
        QUOTE_CLOSERS_BY_LEN@[n]@ == seq![c],
        forall|j: int|
            0 <= j < QUOTE_CLOSERS_BY_LEN@.len() && j != n ==> (
            #[trigger] QUOTE_CLOSERS_BY_LEN@[j])@ != seq![c],
    ensures
        orphan_at(a + seq![c] + b, size(a), ranges, k) == if orphan_closer(
            a + seq![c] + b,
            size(a),
            seq![c],
            ranges,
        ) {
            Some(n)
        } else {
            None
        },
    decreases n - k,
{
    let p = a + seq![c] + b;
    lemma_which_closer(a, c, b, k);
    if k < n {
        assert(QUOTE_CLOSERS_BY_LEN@[k]@ != seq![c]);
        lemma_orphan_at(a, c, b, ranges, k + 1, n);
    } else if !orphan_closer(p, size(a), seq![c], ranges) {
        lemma_no_closer_behind(a, c, b, ranges, n + 1);
    }
}

proof fn lemma_no_closer_behind(
    a: Seq<char>,
    c: char,
    b: Seq<char>,
    ranges: Seq<SkippableRange>,
    k: int,
)
    requires
        only_closes(c) || opens_and_closes(c),
        (c == '\'' || c == '`') && b.len() > 0 ==> b[0] != c,
        0 <= k,
        forall|j: int|
            k <= j < QUOTE_CLOSERS_BY_LEN@.len() ==> (#[trigger] QUOTE_CLOSERS_BY_LEN@[j])@
                != seq![c],
    ensures
        orphan_at(a + seq![c] + b, size(a), ranges, k) is None,
    decreases QUOTE_CLOSERS_BY_LEN@.len() - k,
{
    if k < QUOTE_CLOSERS_BY_LEN@.len() {
        lemma_which_closer(a, c, b, k);
        lemma_no_closer_behind(a, c, b, ranges, k + 1);
    }
}

/// Where the closer is listed.
proof fn lemma_listed_closer(c: char) -> (n: int)
    requires
        only_closes(c) || opens_and_closes(c),
    ensures
        0 <= n < QUOTE_CLOSERS_BY_LEN@.len(),
        QUOTE_CLOSERS_BY_LEN@[n]@ == seq![c],
        forall|j: int|
            0 <= j < QUOTE_CLOSERS_BY_LEN@.len() && j != n ==> (
            #[trigger] QUOTE_CLOSERS_BY_LEN@[j])@ != seq![c],
{
    lemma_closer_literals();
    let n: int = if c == '’' {
        0
    } else if c == '‚' {
        1
    } else if c == '”' {
        2
    } else if c == '‛' {
        3
    } else if c == '“' {
        4
    } else if c == '‟' {
        5
    } else if c == '›' {
        6
    } else if c == '》' {
        7
    } else if c == '」' {
        8
    } else if c == '»' {
        11
    } else if c == '"' {
        12
    } else if c == '\'' {
        13
    } else {
        14
    };
    assert forall|j: int| 0 <= j < QUOTE_CLOSERS_BY_LEN@.len() && j != n implies (
    #[trigger] QUOTE_CLOSERS_BY_LEN@[j])@ != seq![c] by {
        let m = QUOTE_CLOSERS_BY_LEN@[j]@;
        if m == seq![c] {
            assert(m.len() == 1);
            assert(m[0] == c);
        }
    }
    n
}

/// White space is passed to its end.
proof fn lemma_past_space(a: Seq<char>, w: Seq<char>, rest: Seq<char>)
    requires
        all_white(w),
        no_white_first(rest),
    ensures
        past_space(a + (w + rest), size(a)) == size(a) + size(w),
{
    lemma_meet(a, w + rest);
    law_strip_front(w, rest);
    assert((w + rest).take(w.len() as int) =~= w);
}

/// A mark that only closes, which no range starts with, belongs to the sentence that ends
/// before it, with the white space behind it and the terminators that follow.
pub proof fn law_closing_mark_belongs_to_sentence(
    rules: Rules,
    a: Seq<char>,
    c: char,
    w: Seq<char>,
    rest: Seq<char>,
    ranges: Seq<SkippableRange>,
)
    requires
        only_closes(c),
        all_white(w),
        no_white_first(rest),
        forall|k: int| 0 <= k < ranges.len() ==> (#[trigger] ranges[k]).start != size(a),
    ensures
        rules.past_orphan(a + seq![c] + (w + rest), size(a), ranges) == rules.past_terminators(
            a + seq![c] + (w + rest),
            size(a) + size(seq![c]) + size(w),
        ),
{
    let p = a + seq![c] + (w + rest);
    let n = lemma_listed_closer(c);
    law_which_marks_open_and_close(seq![c]);
    assert(seq![c][0] == c);
    assert(orphan_closer(p, size(a), seq![c], ranges));
    lemma_orphan_at(a, c, w + rest, ranges, 0, n);
    lemma_meet(a, seq![c]);
    lemma_past_space(a + seq![c], w, rest);
}

/// A mark that both opens and closes belongs to the sentence that ends before it when it was
/// left over, unless it rather opens the next: a quote in these marks has ended before, and
/// behind the mark stand white space and a capital.
pub proof fn law_two_sided_mark_at_sentence_end(
    rules: Rules,
    a: Seq<char>,
    c: char,
    w: Seq<char>,
    rest: Seq<char>,
    ranges: Seq<SkippableRange>,
)
    requires
        opens_and_closes(c),
        all_white(w),
        no_white_first(rest),
        w.len() == 0 && rest.len() > 0 ==> rest[0] != c,
        forall|k: int| 0 <= k < ranges.len() ==> (#[trigger] ranges[k]).start != size(a),
    ensures
        ({
            let p = a + seq![c] + (w + rest);
            rules.past_orphan(p, size(a), ranges) == if !orphan_closer(
                p,
                size(a),
                seq![c],
                ranges,
            ) || (quoted_earlier(p, size(a), seq![c], ranges) && w.len() > 0 && rest.len() > 0
                && ascii_upper(rest[0])) {
                size(a)
            } else {
                rules.past_terminators(p, size(a) + size(seq![c]) + size(w))
            }
        }),
{
    let p = a + seq![c] + (w + rest);
    let n = lemma_listed_closer(c);
    law_which_marks_open_and_close(seq![c]);
    assert(seq![c][0] == c);
    let b = w + rest;
    if b.len() > 0 {
        if w.len() > 0 {
            assert(b[0] == w[0]);
            assert(white_space(w[0]));
        } else {
            assert(b =~= rest);
        }
    }
    lemma_orphan_at(a, c, b, ranges, 0, n);
    lemma_meet_three(a, seq![c], b);
    lemma_meet(a, seq![c]);
    lemma_past_space(a + seq![c], w, rest);
    law_strip_front(w, rest);
}

/// Where a range starts at the boundary, the boundary stays.
pub proof fn law_range_at_boundary(
    rules: Rules,
    p: Seq<char>,
    b: int,
    ranges: Seq<SkippableRange>,
    k: int,
)
    requires
        0 <= k < ranges.len(),
        ranges[k].start == b,
    ensures
        rules.past_orphan(p, b, ranges) == b,
{
    assert(range_starts(ranges, b));
}

/// Where no closing mark stands at the boundary, it stays.
pub proof fn law_no_mark_at_boundary(
    rules: Rules,
    a: Seq<char>,
    b: Seq<char>,
    ranges: Seq<SkippableRange>,
)
    requires
        b.len() > 0 ==> !only_closes(b[0]) && !opens_and_closes(b[0]),
    ensures
        rules.past_orphan(a + b, size(a), ranges) == size(a),
{
    lemma_none_at(a, b, ranges, 0);
}

proof fn lemma_none_at(a: Seq<char>, b: Seq<char>, ranges: Seq<SkippableRange>, k: int)
    requires
        b.len() > 0 ==> !only_closes(b[0]) && !opens_and_closes(b[0]),
        0 <= k,
    ensures
        orphan_at(a + b, size(a), ranges, k) is None,
    decreases QUOTE_CLOSERS_BY_LEN@.len() - k,
{
    if k < QUOTE_CLOSERS_BY_LEN@.len() {
        let m = QUOTE_CLOSERS_BY_LEN@[k]@;
        lemma_closer_literals();
        lemma_occurs_behind(a, b, m);
        assert(m.len() > 0 && (only_closes(m[0]) || opens_and_closes(m[0])));
        if starts(b, m) {
            assert(b.take(m.len() as int)[0] == b[0]);
        }
        lemma_none_at(a, b, ranges, k + 1);
    }
}

/// Terminators that stand at once behind an orphan closer belong to the sentence too, each
/// with the white space behind it.
pub proof fn law_terminators_behind_orphan(
    rules: Rules,
    a: Seq<char>,
    run: Seq<char>,
    w: Seq<char>,
    rest: Seq<char>,
)
    requires
        run.len() > 0,
        all_white(w),
        no_white_first(rest),
        regex_find(rules.break_pattern, run + (w + rest)) == Some((0int, size(run))),
    ensures
        rules.past_terminators(a + run + (w + rest), size(a)) == rules.past_terminators(
            a + run + (w + rest),
            size(a) + size(run) + size(w),
        ),
{
    let p = a + run + (w + rest);
    assert(p =~= a + (run + (w + rest)));
    lemma_meet(a, run + (w + rest));
    lemma_meet(a, run);
    lemma_meet(a + run, w + rest);
    lemma_meet(w, rest);
    lemma_past_space(a + run, w, rest);
    lemma_size(run);
    lemma_size(w);
}

/// Where no terminator follows at once, nothing more belongs to the sentence.
pub proof fn law_no_terminator_behind_orphan(rules: Rules, a: Seq<char>, rest: Seq<char>)
    requires
        match regex_find(rules.break_pattern, rest) {
            Some(m) => m.0 > 0,
            None => true,
        },
    ensures
        rules.past_terminators(a + rest, size(a)) == size(a),
{
    lemma_meet(a, rest);
}

/// A quote in the mark `m` that ends at or before the boundary has used that mark before.
pub proof fn law_mark_was_used_before(
    a: Seq<char>,
    m: Seq<char>,
    x: Seq<char>,
    rest: Seq<char>,
    boundary: int,
    ranges: Seq<SkippableRange>,
    k: int,
)
    requires
        m.len() > 0,
        is_two_sided(m),
        0 <= k < ranges.len(),
        ranges[k].range_type == SkippableRangeType::Quote,
        ranges[k].start == size(a),
        ranges[k].end == size(a + m + x + m),
        size(a + m + x + m) <= boundary,
    ensures
        quoted_earlier(a + (m + x + m) + rest, boundary, m, ranges),
{
    let q = m + x + m;
    let p = a + q + rest;
    assert(a + m + x + m =~= a + q);
    lemma_meet_three(a, q, rest);
    lemma_meet(a, q);
    lemma_meet_three(m, x, m);
    assert(q =~= m + (x + m));
    lemma_starts(q, m);
    assert(q.take(m.len() as int) =~= m);
    lemma_occurs_behind(m + x, m, m);
    lemma_meet(m, x);
    assert(m.take(m.len() as int) =~= m);
    assert(p =~= a + (q + rest));
    lemma_occurs_behind(a, q + rest, m);
    assert((q + rest).take(m.len() as int) =~= m);
    let i = choose|i: int|
        0 <= i < QUOTE_PAIRS@.len() && QUOTE_PAIRS@[i].0@ == m && (#[trigger] QUOTE_PAIRS@[i]).1@
            == m;
    assert(is_symmetric(i));
    assert(symmetric_span(q));
    assert(ranges[k].end <= boundary);
}

/// A mark that no quote starts with which ends at or before the boundary was not used before.
pub proof fn law_mark_was_not_used_before(
    p: Seq<char>,
    m: Seq<char>,
    boundary: int,
    ranges: Seq<SkippableRange>,
)
    requires
        forall|k: int|
            0 <= k < ranges.len() && (#[trigger] ranges[k]).range_type == SkippableRangeType::Quote
                && ranges[k].end <= boundary ==> !occurs_at(p, m, ranges[k].start as int),
    ensures
        !quoted_earlier(p, boundary, m, ranges),
{
    if quoted_earlier(p, boundary, m, ranges) {
        let k = choose|k: int|
            0 <= k < ranges.len() && (#[trigger] ranges[k]).end <= boundary && symmetric_range(
                p,
                ranges[k],
            ) && occurs_at(p, m, ranges[k].start as int);
        assert(ranges[k].quote());
    }
}

/// Where a terminator ends a sentence and no range lies around that place, the text is divided
/// there, or behind the orphan closer that stands there.
pub proof fn law_division_behind_orphan(
    rules: Rules,
    p: Seq<char>,
    ranges: Seq<SkippableRange>,
    cuts: Seq<int>,
    m: (int, int),
    b: int,
)
    requires
        rules.boundary(p, m.0, m.1) == Some(b),
        forall|k: int|
            0 <= k < ranges.len() ==> !((#[trigger] ranges[k]).start < b < ranges[k].end),
    ensures
        rules.after_match(p, ranges, cuts, m) == pushed(cuts, rules.past_orphan(p, b, ranges)),
{
    lemma_no_forbidding(rules, p, ranges, b, m, 0);
}

/// A mark that only closes, behind the end of a sentence, is not parted from it: the text is
/// divided behind the mark and its white space, where no terminator follows there.
pub proof fn law_division_behind_closing_mark(
    rules: Rules,
    a: Seq<char>,
    c: char,
    w: Seq<char>,
    rest: Seq<char>,
    ranges: Seq<SkippableRange>,
    cuts: Seq<int>,
    m: (int, int),
)
    requires
        only_closes(c),
        all_white(w),
        no_white_first(rest),
        rules.boundary(a + seq![c] + (w + rest), m.0, m.1) == Some(size(a)),
        forall|k: int|
            0 <= k < ranges.len() ==> !((#[trigger] ranges[k]).start <= size(a) < ranges[k].end),
        forall|k: int| 0 <= k < ranges.len() ==> (#[trigger] ranges[k]).start != size(a),
        match regex_find(rules.break_pattern, rest) {
            Some(f) => f.0 > 0,
            None => true,
        },
    ensures
        rules.after_match(a + seq![c] + (w + rest), ranges, cuts, m) == pushed(
            cuts,
            size(a) + size(seq![c]) + size(w),
        ),
{
    let p = a + seq![c] + (w + rest);
    law_division_behind_orphan(rules, p, ranges, cuts, m, size(a));
    law_closing_mark_belongs_to_sentence(rules, a, c, w, rest, ranges);
    let front = a + seq![c] + w;
    assert(p =~= front + rest);
    lemma_meet(a, seq![c]);
    lemma_meet(a + seq![c], w);
    law_no_terminator_behind_orphan(rules, front, rest);
}

} // verus!
