//! Punjabi.

use vstd::prelude::*;

use crate::languages::en::ENGLISH_ABBREVIATIONS;
use crate::languages::language::Language;
use crate::languages::lexicon::{Lexical, Lexicon};
use crate::languages::rules::Rules;
use crate::words::{listed, parse_word_list, WordSet};

verus! {

/// Abbreviations in Punjabi, one to a line.
pub const PUNJABI_ABBREVIATIONS: &'static str = "
// Titles.
ਡਾ
ਸ
ਸ੍ਰ
ਸ੍ਰੀ
ਪ੍ਰੋ
ਮਿ
ਪ੍ਰਿੰ
ਕੁ
// The calendar.
ਈ
ਈ.ਪੂ
ਪੂ
ਬਿ
// Measures and numbers.
ਰੁ
ਕਿ.ਮੀ
ਕਿ
ਮੀ
ਨੰ
ਪੰ
// Initials.
ਐਮ
ਐਸ
ਐਨ
ਐਲ
ਐਫ
ਆਰ
ਜੀ
ਜੇ
ਕੇ
ਪੀ
ਬੀ
ਸੀ
ਡੀ
ਟੀ
ਵੀ
";

#[derive(Debug)]
pub struct Punjabi {
    lexicon: Lexicon,
}

impl Punjabi {
    pub fn new() -> (r: Punjabi)
        ensures
            r.rules() == Rules::standard(
                listed(seq![PUNJABI_ABBREVIATIONS, ENGLISH_ABBREVIATIONS]),
                Set::empty(),
            ),
    {
        let lists: [&str; 2] = [PUNJABI_ABBREVIATIONS, ENGLISH_ABBREVIATIONS];
        assert(lists@ =~= seq![PUNJABI_ABBREVIATIONS, ENGLISH_ABBREVIATIONS]);
        Punjabi { lexicon: Lexicon::new(parse_word_list(&lists), WordSet::new()) }
    }
}

impl Lexical for Punjabi {
    closed spec fn words(&self) -> Lexicon {
        self.lexicon
    }

    fn lexicon(&self) -> (r: &Lexicon) {
        &self.lexicon
    }
}

impl Clone for Punjabi {
    fn clone(&self) -> (r: Self)
        ensures
            r.rules() == self.rules(),
    {
        Punjabi { lexicon: self.lexicon.clone() }
    }
}

} // verus!
