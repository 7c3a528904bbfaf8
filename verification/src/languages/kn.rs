//! Kannada.

use vstd::prelude::*;

use crate::languages::en::ENGLISH_ABBREVIATIONS;
use crate::languages::language::Language;
use crate::languages::lexicon::{Lexical, Lexicon};
use crate::languages::rules::Rules;
use crate::words::{listed, parse_word_list, WordSet};

verus! {

/// Abbreviations in Kannada, one to a line.
pub const KANNADA_ABBREVIATIONS: &'static str = "
// Titles.
ಡಾ
ಶ್ರೀ
ಪ್ರೊ
ಮಿ
ಕು
ಸೌ
ಚಿ
ಡಿ
ಪಂ
ರೆ
// The calendar.
ಕ್ರಿ
ಕ್ರಿ.ಶ
ಕ್ರಿ.ಪೂ
ಪೂ
ಶ
// Measures and numbers.
ರೂ
ಕಿ.ಮೀ
ಕಿ
ಮೀ
ಕೆ.ಜಿ
ಸಂ
ಪು
ನಂ
// Initials.
ಎ
ಬಿ
ಸಿ
ಡಿ
ಇ
ಎಫ್
ಜಿ
ಎಚ್
ಐ
ಜೆ
ಕೆ
ಎಲ್
ಎಂ
ಎನ್
ಓ
ಪಿ
ಕ್ಯೂ
ಆರ್
ಎಸ್
ಟಿ
ಯು
ವಿ
ಡಬ್ಲ್ಯು
ಎಕ್ಸ್
ವೈ
ಝಡ್
";

#[derive(Debug)]
pub struct Kannada {
    lexicon: Lexicon,
}

impl Kannada {
    pub fn new() -> (r: Kannada)
        ensures
            r.rules() == Rules::standard(
                listed(seq![KANNADA_ABBREVIATIONS, ENGLISH_ABBREVIATIONS]),
                Set::empty(),
            ),
    {
        let lists: [&str; 2] = [KANNADA_ABBREVIATIONS, ENGLISH_ABBREVIATIONS];
        assert(lists@ =~= seq![KANNADA_ABBREVIATIONS, ENGLISH_ABBREVIATIONS]);
        Kannada { lexicon: Lexicon::new(parse_word_list(&lists), WordSet::new()) }
    }
}

impl Lexical for Kannada {
    closed spec fn words(&self) -> Lexicon {
        self.lexicon
    }

    fn lexicon(&self) -> (r: &Lexicon) {
        &self.lexicon
    }
}

impl Clone for Kannada {
    fn clone(&self) -> (r: Self)
        ensures
            r.rules() == self.rules(),
    {
        Kannada { lexicon: self.lexicon.clone() }
    }
}

} // verus!
