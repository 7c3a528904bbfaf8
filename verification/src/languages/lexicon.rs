//! Languages that have word lists of their own, and nothing else.

use vstd::prelude::*;

use crate::chars::White;
use crate::languages::language::Language;
use crate::languages::list_markers::detect_list_items;
use crate::languages::rules::Rules;
use crate::pattern::{Pattern, Patterns};
use crate::text::{first_char, trim_front};
use crate::words::WordSet;

verus! {

/// The word lists of a language, and the expressions that all languages share.
#[derive(Debug)]
pub struct Lexicon {
    abbreviations: WordSet,
    starters: WordSet,
    patterns: Patterns,
}

impl Lexicon {
    #[verifier::type_invariant]
    spec fn compiled(self) -> bool {
        self.patterns.wf()
    }

    /// The abbreviations, without the mark at their end.
    pub closed spec fn abbreviations(&self) -> Set<Seq<char>> {
        self.abbreviations@
    }

    /// Words that, with a capital, nearly always open a sentence.
    pub closed spec fn starters(&self) -> Set<Seq<char>> {
        self.starters@
    }

    pub fn new(abbreviations: WordSet, starters: WordSet) -> (r: Lexicon)
        ensures
            r.abbreviations() == abbreviations@,
            r.starters() == starters@,
    {
        Lexicon { abbreviations, starters, patterns: Patterns::new() }
    }

    pub fn get_abbreviations(&self) -> (r: &WordSet)
        ensures
            r@ == self.abbreviations(),
    {
        &self.abbreviations
    }

    pub fn get_starters(&self) -> (r: &WordSet)
        ensures
            r@ == self.starters(),
    {
        &self.starters
    }

    pub fn get_patterns(&self) -> (r: &Patterns)
        ensures
            r.wf(),
    {
        proof {
            use_type_invariant(self);
        }
        &self.patterns
    }
}

impl Clone for Lexicon {
    fn clone(&self) -> (r: Self)
        ensures
            r.abbreviations() == self.abbreviations(),
            r.starters() == self.starters(),
    {
        proof {
            use_type_invariant(self);
        }
        Lexicon {
            abbreviations: self.abbreviations.clone(),
            starters: self.starters.clone(),
            patterns: self.patterns.clone(),
        }
    }
}

/// A language that has word lists of its own, and otherwise goes by what most languages
/// do.
pub trait Lexical {
    /// The word lists.
    spec fn words(&self) -> Lexicon;

    /// The word lists.
    fn lexicon(&self) -> (r: &Lexicon)
        ensures
            *r == self.words(),
    ;
}

impl<T: Lexical> Language for T {
    open spec fn rules(&self) -> Rules {
        Rules::standard(self.words().abbreviations(), self.words().starters())
    }

    fn patterns(&self) -> (r: &Patterns) {
        self.lexicon().get_patterns()
    }

    fn get_sentence_break_regex(&self) -> (r: &Pattern) {
        &self.lexicon().get_patterns().sentence_break
    }

    fn get_abbreviation_char(&self) -> (r: &str) {
        "."
    }

    fn get_abbreviations(&self) -> (r: &WordSet) {
        self.lexicon().get_abbreviations()
    }

    fn get_sentence_starters(&self) -> (r: &WordSet) {
        self.lexicon().get_starters()
    }

    /// A lower case letter or a digit goes on with the sentence; so does a comma behind
    /// white space, before which the terminator is stray.
    fn continue_in_next_word(&self, text_after_boundary: &str) -> (r: bool) {
        if self.lexicon().get_patterns().continues.is_match(text_after_boundary) {
            return true;
        }
        match first_char(trim_front::<White>(text_after_boundary)) {
            Some(c) => c == ',',
            None => false,
        }
    }

    fn list_items(&self, paragraph: &str) -> (r: Option<Vec<usize>>) {
        Some(detect_list_items(paragraph))
    }
}

} // verus!
