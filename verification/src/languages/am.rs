//! Amharic.

use vstd::prelude::*;

use crate::languages::language::Language;
use crate::languages::lexicon::{Lexical, Lexicon};
use crate::languages::rules::Rules;
use crate::words::{listed, parse_word_list, WordSet};

verus! {

/// Abbreviations in Amharic, one to a line.
pub const AMHARIC_ABBREVIATIONS: &'static str = "
// The calendar.
ዓ
ም
ዓ.ም
እ.ኤ.አ
እ
ኤ
አ
ዓ.ዓ
ቅ.ል.ክ
ዓ/ም
ክ.ክ
ከ.ክ.ል.በ
// Titles.
ዶ
ፕ
ፕሮፌ
አ
ወ
ዶር
ኮ
ሌ
ሻ
ሻምበ
// Places and numbers.
ገጽ
ቁ
ት.ቤ
ት
ቤ
ሆ
ፖ.ሣ.ቁ
ስ.ቁ
// Others.
ወዘተ
ጠ.ሚ
ተ.መ.ድ
";

#[derive(Debug)]
pub struct Amharic {
    lexicon: Lexicon,
}

impl Amharic {
    pub fn new() -> (r: Amharic)
        ensures
            r.rules() == Rules::standard(
                listed(seq![AMHARIC_ABBREVIATIONS]),
                Set::empty(),
            ),
    {
        let lists: [&str; 1] = [AMHARIC_ABBREVIATIONS];
        assert(lists@ =~= seq![AMHARIC_ABBREVIATIONS]);
        Amharic { lexicon: Lexicon::new(parse_word_list(&lists), WordSet::new()) }
    }
}

impl Lexical for Amharic {
    closed spec fn words(&self) -> Lexicon {
        self.lexicon
    }

    fn lexicon(&self) -> (r: &Lexicon) {
        &self.lexicon
    }
}

impl Clone for Amharic {
    fn clone(&self) -> (r: Self)
        ensures
            r.rules() == self.rules(),
    {
        Amharic { lexicon: self.lexicon.clone() }
    }
}

} // verus!
