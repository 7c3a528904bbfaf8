//! Bulgarian.

use vstd::prelude::*;

use crate::languages::language::Language;
use crate::languages::lexicon::{Lexical, Lexicon};
use crate::languages::rules::Rules;
use crate::words::{listed, parse_word_list, WordSet};

verus! {

/// Abbreviations in Bulgarian, one to a line.
pub const BULGARIAN_ABBREVIATIONS: &'static str = "
// Titles.
г
г-жа
г-н
г-ца
д-р
инж
доц
проф
акад
ген
полк
кап
арх
адв
св
преп
// Measures and numbers.
бр
вр
гр
лв
мин
млн
млрд
сек
ст
тел
хил
хил
чл
кв
куб
// References.
вж
вкл
гл
напр
пр
стр
т
т.е
т.н
и.д
ч
т.нар
ал
ср
срв
виж
рис
фиг
// Places and times.
бл
бул
вх
ет
жк
обл
общ
с
ул
пл
пр.н.е
н.е
р
см
км
кг
";

#[derive(Debug)]
pub struct Bulgarian {
    lexicon: Lexicon,
}

impl Bulgarian {
    pub fn new() -> (r: Bulgarian)
        ensures
            r.rules() == Rules::standard(
                listed(seq![BULGARIAN_ABBREVIATIONS]),
                Set::empty(),
            ),
    {
        let lists: [&str; 1] = [BULGARIAN_ABBREVIATIONS];
        assert(lists@ =~= seq![BULGARIAN_ABBREVIATIONS]);
        Bulgarian { lexicon: Lexicon::new(parse_word_list(&lists), WordSet::new()) }
    }
}

impl Lexical for Bulgarian {
    closed spec fn words(&self) -> Lexicon {
        self.lexicon
    }

    fn lexicon(&self) -> (r: &Lexicon) {
        &self.lexicon
    }
}

impl Clone for Bulgarian {
    fn clone(&self) -> (r: Self)
        ensures
            r.rules() == self.rules(),
    {
        Bulgarian { lexicon: self.lexicon.clone() }
    }
}

} // verus!
