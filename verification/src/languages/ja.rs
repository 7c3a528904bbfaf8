//! Japanese.

use vstd::prelude::*;

use crate::languages::language::Language;
use crate::languages::lexicon::{Lexical, Lexicon};
use crate::languages::rules::Rules;
use crate::words::WordSet;

verus! {


#[derive(Debug)]
pub struct Japanese {
    lexicon: Lexicon,
}

impl Japanese {
    pub fn new() -> (r: Japanese)
        ensures
            r.rules() == Rules::standard(
                Set::empty(),
                Set::empty(),
            ),
    {
        Japanese { lexicon: Lexicon::new(WordSet::new(), WordSet::new()) }
    }
}

impl Lexical for Japanese {
    closed spec fn words(&self) -> Lexicon {
        self.lexicon
    }

    fn lexicon(&self) -> (r: &Lexicon) {
        &self.lexicon
    }
}

impl Clone for Japanese {
    fn clone(&self) -> (r: Self)
        ensures
            r.rules() == self.rules(),
    {
        Japanese { lexicon: self.lexicon.clone() }
    }
}

} // verus!
