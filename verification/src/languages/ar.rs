//! Arabic.

use vstd::prelude::*;

use crate::languages::en::ENGLISH_ABBREVIATIONS;
use crate::languages::language::Language;
use crate::languages::lexicon::{Lexical, Lexicon};
use crate::languages::rules::Rules;
use crate::words::{listed, parse_word_list, WordSet};

verus! {

/// Abbreviations in Arabic, one to a line.
pub const ARABIC_ABBREVIATIONS: &'static str = "
// Titles.
أ
د
م
ش
أ.د
// The calendar.
ق.م
م
هـ
ق
// References.
ص
ج
ط
ت
إلخ
الخ
ع
// Countries and bodies.
و.م.أ
أ.ش.أ
";

#[derive(Debug)]
pub struct Arabic {
    lexicon: Lexicon,
}

impl Arabic {
    pub fn new() -> (r: Arabic)
        ensures
            r.rules() == Rules::standard(
                listed(seq![ARABIC_ABBREVIATIONS, ENGLISH_ABBREVIATIONS]),
                Set::empty(),
            ),
    {
        let lists: [&str; 2] = [ARABIC_ABBREVIATIONS, ENGLISH_ABBREVIATIONS];
        assert(lists@ =~= seq![ARABIC_ABBREVIATIONS, ENGLISH_ABBREVIATIONS]);
        Arabic { lexicon: Lexicon::new(parse_word_list(&lists), WordSet::new()) }
    }
}

impl Lexical for Arabic {
    closed spec fn words(&self) -> Lexicon {
        self.lexicon
    }

    fn lexicon(&self) -> (r: &Lexicon) {
        &self.lexicon
    }
}

impl Clone for Arabic {
    fn clone(&self) -> (r: Self)
        ensures
            r.rules() == self.rules(),
    {
        Arabic { lexicon: self.lexicon.clone() }
    }
}

} // verus!
