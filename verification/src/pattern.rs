//! Regular expressions.

use vstd::pervasive::unreached;
use vstd::prelude::*;
use vstd::string::*;

use crate::chars::{
    ascii_digit, ascii_lower, ascii_upper, run_front, AsciiDigit, CarriageReturn, CharClass, Dot,
    Emphatic, HorizontalSpace, White,
};
use crate::constants::{
    terminator, CONTINUE_AFTER_NONWORD_PATTERN, CONTINUE_PATTERN, ELLIPSIS_CONTINUE_PATTERN,
    EMAIL_PATTERN, GLOBAL_SENTENCE_TERMINATORS, INLINE_BREAK_PATTERN, NUMBERED_REFERENCE_PATTERN,
    PARAGRAPH_PATTERN, PARENS_PATTERN, QUOTES_PATTERN, QUOTE_PAIRS, SENTENCE_BREAK_BACK,
    SENTENCE_BREAK_FRONT, SPACE_AFTER_SEPARATOR, Terminator,
};
use crate::text::occurs_at;
use crate::utf8::{is_cut, size};

verus! {

/// A compiled regular expression of the crate `regex`.
#[verifier::external_type_specification]
#[verifier::external_body]
pub struct ExRegex(regex::Regex);

/// Why the crate `regex` refused a pattern.
#[verifier::external_type_specification]
#[verifier::external_body]
pub struct ExRegexError(regex::Error);

/// `regex::Regex::clone` copies a compiled expression. Nothing is claimed of the
/// copy.
pub assume_specification[ <regex::Regex as Clone>::clone ](r: &regex::Regex) -> regex::Regex
;

/// Whether the expression `pattern` matches anywhere in `text`.
pub uninterp spec fn regex_is_match(pattern: Seq<char>, text: Seq<char>) -> bool;

/// The first match of the expression `pattern` in `text`: where it starts and ends.
pub uninterp spec fn regex_find(pattern: Seq<char>, text: Seq<char>) -> Option<(int, int)>;

/// The successive matches of the expression `pattern` in `text`.
pub uninterp spec fn regex_find_iter(pattern: Seq<char>, text: Seq<char>) -> Seq<(int, int)>;

/// The expression for runs of terminators.
pub open spec fn sentence_break_pattern() -> Seq<char> {
    SENTENCE_BREAK_FRONT@ + GLOBAL_SENTENCE_TERMINATORS@ + SENTENCE_BREAK_BACK@
}

/// True for the expressions that this crate is built on.
pub open spec fn is_own_pattern(p: Seq<char>) -> bool {
    ||| p == sentence_break_pattern()
    ||| p == CONTINUE_PATTERN@
    ||| p == CONTINUE_AFTER_NONWORD_PATTERN@
    ||| p == ELLIPSIS_CONTINUE_PATTERN@
    ||| p == PARAGRAPH_PATTERN@
    ||| p == INLINE_BREAK_PATTERN@
    ||| p == QUOTES_PATTERN@
    ||| p == PARENS_PATTERN@
    ||| p == EMAIL_PATTERN@
    ||| p == NUMBERED_REFERENCE_PATTERN@
    ||| p == SPACE_AFTER_SEPARATOR@
}

/// A lower case letter or a digit of ASCII.
pub open spec fn lower_or_digit(c: char) -> bool {
    ascii_lower(c) || ascii_digit(c)
}

/// The characters of ASCII that belong to no word.
pub struct AsciiNonWord;

impl CharClass for AsciiNonWord {
    open spec fn has(c: char) -> bool {
        c <= '\u{7F}' && !ascii_lower(c) && !ascii_upper(c) && !ascii_digit(c) && c != '_'
    }

    fn test(c: char) -> bool {
        c <= '\u{7F}' && !('a' <= c && c <= 'z') && !('A' <= c && c <= 'Z') && !('0' <= c && c
            <= '9') && c != '_'
    }
}

/// White space and then a lower case letter, a digit, or `I` as a word.
pub open spec fn continues_after_ellipsis(t: Seq<char>) -> bool {
    let n = run_front::<White>(t, true);
    &&& 0 < n < t.len()
    &&& {
        ||| lower_or_digit(t[n])
        ||| t[n] == 'I' && (n + 1 == t.len() || White::has(t[n + 1]) || t[n + 1] == '\'' || t[n + 1]
            == '\u{2019}')
    }
}

/// `.` or `!`, one or more spaces or tabs, and a capital of ASCII.
pub open spec fn has_inline_break(t: Seq<char>) -> bool {
    exists|i: int, j: int|
        #![trigger t[i], t[j]]
        0 <= i && i + 1 < j < t.len() && (t[i] == '.' || t[i] == '!') && ascii_upper(t[j])
            && forall|k: int| i < k < j ==> (#[trigger] t[k] == ' ' || t[k] == '\t')
}

/// What the expressions that are only tested for a match say.
pub open spec fn is_match_facts(pattern: Seq<char>, text: Seq<char>, found: bool) -> bool {
    &&& pattern == CONTINUE_PATTERN@ ==> found == (text.len() > 0 && lower_or_digit(text[0]))
    &&& pattern == CONTINUE_AFTER_NONWORD_PATTERN@ ==> {
        let n = run_front::<AsciiNonWord>(text, true);
        &&& n == text.len() ==> !found
        &&& n < text.len() && text[n] <= '\u{7F}' ==> found == lower_or_digit(text[n])
    }
    &&& pattern == ELLIPSIS_CONTINUE_PATTERN@ ==> found == continues_after_ellipsis(text)
    &&& pattern == INLINE_BREAK_PATTERN@ ==> found == has_inline_break(text)
}

/// What the expressions whose first match counts say.
pub open spec fn find_facts(pattern: Seq<char>, text: Seq<char>, found: Option<(int, int)>) -> bool {
    &&& found matches Some(m) ==> is_span(text, m)
    &&& pattern == SPACE_AFTER_SEPARATOR@ ==> {
        let n = run_front::<White>(text, true);
        found == if n > 0 {
            Some((0int, size(text.take(n))))
        } else {
            None
        }
    }
    &&& pattern == NUMBERED_REFERENCE_PATTERN@ ==> {
        let n = references_length(text);
        &&& n > 0 ==> found is Some
        &&& found matches Some(m) ==> m.0 == 0 && m.1 > 0 && text[0] == '['
        &&& !has_wider_digits(text.skip(n)) ==> found == if n > 0 {
            Some((0int, size(text.take(n))))
        } else {
            None
        }
    }
    &&& pattern == sentence_break_pattern() ==> found == if runs_from(text, 0).len() > 0 {
        Some(runs_from(text, 0)[0])
    } else {
        None
    }
}

/// How many characters at the front of `t` are reference numbers such as `[1][23]`,
/// written with the digits of ASCII.
pub open spec fn references_length(t: Seq<char>) -> int
    decreases t.len(),
{
    let n = run_front::<AsciiDigit>(t.drop_first(), true);
    if t.len() > 0 && t[0] == '[' && 0 < n && n + 1 < t.len() && t[n + 1] == ']' {
        n + 2 + references_length(t.skip(n + 2))
    } else {
        0
    }
}

/// True when `t` starts with `[` and digits of ASCII that a character beyond ASCII
/// follows, which may be a digit too.
pub open spec fn has_wider_digits(t: Seq<char>) -> bool {
    let n = run_front::<AsciiDigit>(t.drop_first(), true);
    t.len() > 0 && t[0] == '[' && n + 1 < t.len() && t[n + 1] > '\u{7F}'
}

/// True when `m` starts and ends at cuts of `text`.
pub open spec fn is_span(text: Seq<char>, m: (int, int)) -> bool {
    is_cut(text, m.0) && is_cut(text, m.1) && m.0 <= m.1
}

/// True when the matches follow one another without overlap.
pub open spec fn are_spans(text: Seq<char>, ms: Seq<(int, int)>) -> bool {
    &&& forall|i: int| 0 <= i < ms.len() ==> is_span(text, #[trigger] ms[i])
    &&& forall|i: int, j: int| 0 <= i < j < ms.len() ==> (#[trigger] ms[i]).1 <= (#[trigger] ms[j]).0
}

/// How many characters at the front of `t` are groups of spaces or tabs and then a mark
/// of `C`.
pub open spec fn groups<C: CharClass>(t: Seq<char>) -> int
    decreases t.len(),
{
    let n = run_front::<HorizontalSpace>(t, true);
    if 0 < n < t.len() && C::has(t[n]) {
        n + 1 + groups::<C>(t.skip(n + 1))
    } else {
        0
    }
}

/// How many such groups there are.
pub open spec fn group_count<C: CharClass>(t: Seq<char>) -> int
    decreases t.len(),
{
    let n = run_front::<HorizontalSpace>(t, true);
    if 0 < n < t.len() && C::has(t[n]) {
        1 + group_count::<C>(t.skip(n + 1))
    } else {
        0
    }
}

/// How many characters the run has that starts with the terminator `t[0]`: three or more
/// dots that are spread out; two or more of `!`, `?` and `…` that are spread out; or else
/// all terminators up to the next other character.
pub open spec fn run_length(t: Seq<char>) -> int {
    if t[0] == '.' && group_count::<Dot>(t.drop_first()) >= 2 {
        1 + groups::<Dot>(t.drop_first())
    } else if Emphatic::has(t[0]) && group_count::<Emphatic>(t.drop_first()) >= 1 {
        1 + groups::<Emphatic>(t.drop_first())
    } else {
        run_front::<Terminator>(t, true)
    }
}

/// The runs of terminators in `t`, which stands behind `at` bytes.
pub open spec fn runs_from(t: Seq<char>, at: int) -> Seq<(int, int)>
    decreases t.len(),
{
    if t.len() == 0 {
        Seq::empty()
    } else if terminator(t[0]) && 0 < run_length(t) <= t.len() {
        let to = at + size(t.take(run_length(t)));
        seq![(at, to)] + runs_from(t.skip(run_length(t)), to)
    } else {
        runs_from(t.drop_first(), at + size(t.take(1)))
    }
}

/// The gap between two paragraphs: a line feed, any number of carriage returns, a
/// line feed.
pub open spec fn is_paragraph_gap(t: Seq<char>) -> bool {
    &&& t.len() >= 2
    &&& t[0] == '\n'
    &&& t.last() == '\n'
    &&& forall|i: int| 0 < i < t.len() - 1 ==> #[trigger] t[i] == '\r'
}

/// How many characters the gap between two paragraphs has that `t` starts with, or zero.
pub open spec fn gap_length(t: Seq<char>) -> int {
    let n = run_front::<CarriageReturn>(t.drop_first(), true);
    if t.len() > 0 && t[0] == '\n' && n + 1 < t.len() && t[n + 1] == '\n' {
        n + 2
    } else {
        0
    }
}

/// The gaps between paragraphs in `t`, which stands behind `at` bytes.
pub open spec fn gaps_from(t: Seq<char>, at: int) -> Seq<(int, int)>
    decreases t.len(),
{
    if t.len() == 0 {
        Seq::empty()
    } else if 0 < gap_length(t) <= t.len() {
        let to = at + size(t.take(gap_length(t)));
        seq![(at, to)] + gaps_from(t.skip(gap_length(t)), to)
    } else {
        gaps_from(t.drop_first(), at + size(t.take(1)))
    }
}

/// True when the match `m` is enclosed in a pair of quotation marks.
pub open spec fn is_quoted(text: Seq<char>, m: (int, int)) -> bool {
    exists|i: int|
        #![trigger QUOTE_PAIRS@[i]]
        0 <= i < QUOTE_PAIRS@.len() && {
            let open = QUOTE_PAIRS@[i].0@;
            let close = QUOTE_PAIRS@[i].1@;
            &&& m.0 + size(open) + size(close) <= m.1
            &&& occurs_at(text, open, m.0)
            &&& occurs_at(text, close, m.1 - size(close))
        }
}

/// True when nothing in `t` can end a sentence.
pub open spec fn has_no_terminator(t: Seq<char>) -> bool {
    forall|i: int| 0 <= i < t.len() ==> !terminator(#[trigger] t[i])
}

/// What the expressions whose matches are all taken say.
pub open spec fn find_iter_facts(pattern: Seq<char>, text: Seq<char>, ms: Seq<(int, int)>) -> bool {
    &&& are_spans(text, ms)
    &&& pattern == sentence_break_pattern() ==> ms == runs_from(text, 0)
    &&& pattern == PARAGRAPH_PATTERN@ ==> ms == gaps_from(text, 0)
    &&& pattern == QUOTES_PATTERN@ ==> forall|i: int|
        0 <= i < ms.len() ==> is_quoted(text, #[trigger] ms[i])
    &&& pattern == PARENS_PATTERN@ || pattern == EMAIL_PATTERN@ ==> forall|i: int|
        0 <= i < ms.len() ==> (#[trigger] ms[i]).0 < ms[i].1
}

/// A match as a pair of positions.
pub open spec fn as_span(r: Option<(usize, usize)>) -> Option<(int, int)> {
    match r {
        Some((s, e)) => Some((s as int, e as int)),
        None => None,
    }
}

/// Matches as pairs of positions.
pub open spec fn as_spans(r: Seq<(usize, usize)>) -> Seq<(int, int)> {
    r.map_values(|m: (usize, usize)| (m.0 as int, m.1 as int))
}

/// A pattern that is no regular expression, or one that is too large.
#[derive(Debug, Clone, Copy, PartialEq, Eq, Structural)]
pub struct PatternError;

/// A regular expression, and the text that it was compiled from.
///
/// The fields are private and a value is made by `Pattern::compile`, or as a copy of
/// another, so the expression is always the one that `regex` makes of the text.
#[derive(Debug)]
pub struct Pattern {
    source: String,
    regex: regex::Regex,
}

impl Pattern {
    /// The text of the expression.
    pub closed spec fn source(&self) -> Seq<char> {
        self.source@
    }

    /// `regex::Regex::new` compiles the expression `source`, with the options that
    /// `regex` takes by default. It succeeds on the expressions of this crate, which
    /// are well formed and small; of others nothing is claimed.
    #[verifier::external_body]
    fn compile(source: &str) -> (r: Result<Pattern, regex::Error>)
        ensures
            r matches Ok(p) ==> p.source() == source@,
            is_own_pattern(source@) ==> r is Ok,
    {
        let regex = regex::Regex::new(source)?;
        Ok(Pattern { source: source.to_string(), regex })
    }

    /// `regex::Regex::is_match` tells whether the expression matches anywhere in
    /// `text`, which depends on the expression and the text alone. For four
    /// expressions the contract says when that is.
    #[verifier::external_body]
    pub(crate) fn is_match(&self, text: &str) -> (r: bool)
        ensures
            r == regex_is_match(self.source(), text@),
            is_match_facts(self.source(), text@, r),
    {
        self.regex.is_match(text)
    }

    /// `regex::Regex::find` gives the first match, which depends on the expression
    /// and the text alone; it starts and ends between characters. For white space
    /// at the front and for runs of terminators the contract says what it is, and for
    /// reference numbers too, unless digits beyond ASCII may be among them.
    #[verifier::external_body]
    pub(crate) fn find(&self, text: &str) -> (r: Option<(usize, usize)>)
        ensures
            as_span(r) == regex_find(self.source(), text@),
            find_facts(self.source(), text@, as_span(r)),
    {
        self.regex.find(text).map(|m| (m.start(), m.end()))
    }

    /// `regex::Regex::find_iter` gives the successive matches, which depend on the
    /// expression and the text alone; they start and end between characters and do
    /// not overlap. For runs of terminators and for the gaps between paragraphs the
    /// contract says what they are; for quotes, that each is enclosed in a pair of marks;
    /// for brackets and addresses, that none is empty.
    #[verifier::external_body]
    pub(crate) fn find_iter(&self, text: &str) -> (r: Vec<(usize, usize)>)
        ensures
            as_spans(r@) == regex_find_iter(self.source(), text@),
            find_iter_facts(self.source(), text@, as_spans(r@)),
    {
        self.regex.find_iter(text).map(|m| (m.start(), m.end())).collect()
    }

    /// Compiles the expression `source`.
    pub fn new(source: &str) -> (r: Result<Pattern, PatternError>)
        ensures
            r matches Ok(p) ==> p.source() == source@,
            is_own_pattern(source@) ==> r is Ok,
    {
        match Pattern::compile(source) {
            Ok(p) => Ok(p),
            Err(_) => Err(PatternError),
        }
    }

    /// Compiles one of the expressions of this crate.
    pub(crate) fn own(source: &str) -> (r: Pattern)
        requires
            is_own_pattern(source@),
        ensures
            r.source() == source@,
    {
        match Pattern::compile(source) {
            Ok(p) => p,
            Err(_) => unreached(),
        }
    }
}

impl Clone for Pattern {
    fn clone(&self) -> (r: Self)
        ensures
            r.source() == self.source(),
    {
        Pattern { source: self.source.clone(), regex: self.regex.clone() }
    }
}

/// The expressions of this crate, compiled.
#[derive(Debug)]
pub struct Patterns {
    pub sentence_break: Pattern,
    pub continues: Pattern,
    pub continues_after_nonword: Pattern,
    pub continues_after_ellipsis: Pattern,
    pub paragraph_gap: Pattern,
    pub inline_break: Pattern,
    pub quotes: Pattern,
    pub parens: Pattern,
    pub email: Pattern,
    pub numbered_reference: Pattern,
    pub space: Pattern,
}

impl Patterns {
    /// True when every field holds the expression that it is named after.
    pub open spec fn wf(&self) -> bool {
        &&& self.sentence_break.source() == sentence_break_pattern()
        &&& self.continues.source() == CONTINUE_PATTERN@
        &&& self.continues_after_nonword.source() == CONTINUE_AFTER_NONWORD_PATTERN@
        &&& self.continues_after_ellipsis.source() == ELLIPSIS_CONTINUE_PATTERN@
        &&& self.paragraph_gap.source() == PARAGRAPH_PATTERN@
        &&& self.inline_break.source() == INLINE_BREAK_PATTERN@
        &&& self.quotes.source() == QUOTES_PATTERN@
        &&& self.parens.source() == PARENS_PATTERN@
        &&& self.email.source() == EMAIL_PATTERN@
        &&& self.numbered_reference.source() == NUMBERED_REFERENCE_PATTERN@
        &&& self.space.source() == SPACE_AFTER_SEPARATOR@
    }

    /// Compiles the expressions.
    pub fn new() -> (r: Patterns)
        ensures
            r.wf(),
    {
        let mut sentence_break = SENTENCE_BREAK_FRONT.to_owned();
        sentence_break.append(GLOBAL_SENTENCE_TERMINATORS);
        sentence_break.append(SENTENCE_BREAK_BACK);
        Patterns {
            sentence_break: Pattern::own(sentence_break.as_str()),
            continues: Pattern::own(CONTINUE_PATTERN),
            continues_after_nonword: Pattern::own(CONTINUE_AFTER_NONWORD_PATTERN),
            continues_after_ellipsis: Pattern::own(ELLIPSIS_CONTINUE_PATTERN),
            paragraph_gap: Pattern::own(PARAGRAPH_PATTERN),
            inline_break: Pattern::own(INLINE_BREAK_PATTERN),
            quotes: Pattern::own(QUOTES_PATTERN),
            parens: Pattern::own(PARENS_PATTERN),
            email: Pattern::own(EMAIL_PATTERN),
            numbered_reference: Pattern::own(NUMBERED_REFERENCE_PATTERN),
            space: Pattern::own(SPACE_AFTER_SEPARATOR),
        }
    }
}

impl Clone for Patterns {
    fn clone(&self) -> (r: Self)
        ensures
            self.wf() ==> r.wf(),
    {
        Patterns {
            sentence_break: self.sentence_break.clone(),
            continues: self.continues.clone(),
            continues_after_nonword: self.continues_after_nonword.clone(),
            continues_after_ellipsis: self.continues_after_ellipsis.clone(),
            paragraph_gap: self.paragraph_gap.clone(),
            inline_break: self.inline_break.clone(),
            quotes: self.quotes.clone(),
            parens: self.parens.clone(),
            email: self.email.clone(),
            numbered_reference: self.numbered_reference.clone(),
            space: self.space.clone(),
        }
    }
}

} // verus!
