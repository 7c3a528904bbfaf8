//! Tamil.

use vstd::prelude::*;
use vstd::string::*;

use crate::languages::en::ENGLISH_ABBREVIATIONS;
use crate::languages::language::Language;
use crate::languages::lexicon::{Lexical, Lexicon};
use crate::languages::rules::Rules;
use crate::words::{listed, parse_word_list, set_of, WordSet};

verus! {

/// Abbreviations in Tamil, one to a line.
pub const TAMIL_ABBREVIATIONS: &'static str = "
// Titles.
திரு
டாக்டர்
பேரா
தி.மு
செல்வி
திருமதி
// The calendar.
கி
கி.மு
கி.பி
பி
மு
// Measures and numbers.
ரூ
கி.மீ
கி
மீ
எண்
பக்
நூ
// Initials.
எ
பி
சி
டி
ஈ
எஃப்
ஜி
ஹெச்
ஐ
ஜே
கே
எல்
எம்
என்
ஓ
பி
கியூ
ஆர்
எஸ்
டி
யு
வி
டபிள்யூ
எக்ஸ்
வை
இசட்
";

/// The signs that stand for vowels behind a consonant.
pub const VOWEL_SIGNS: [&'static str; 11] = [
    "ா", "ி", "ீ", "ু", "ূ", "ে", "ে", "ৈ", "ও", "ো", "ৌ",
];

/// The vowels.
pub const VOWELS: [&'static str; 12] = [
    "அ", "ஆ", "இ", "ஈ", "உ", "ஊ", "எ", "ஏ", "ஐ", "ஒ", "ஓ", "ஔ",
];

/// The consonants.
pub const CONSONANTS: [&'static str; 18] = [
    "க", "ங", "ச", "ஞ", "ட", "ண", "த", "ந", "ப", "ம", "ய", "ர", "ல", "வ", "ழ", "ள", "ற", "ன",
];

/// True when `w` is one of the first `n` consonants with a sign behind it, or the next
/// one with one of the first `m` signs.
spec fn is_syllable_upto(w: Seq<char>, n: int, m: int) -> bool {
    exists|i: int, j: int|
        0 <= i <= n && i < CONSONANTS@.len() && 0 <= j < VOWEL_SIGNS@.len() && (i < n || j < m) && w
            == #[trigger] CONSONANTS@[i]@ + #[trigger] VOWEL_SIGNS@[j]@
}

/// The syllables: each consonant with each sign behind it.
pub open spec fn syllables() -> Set<Seq<char>> {
    Set::new(
        |w: Seq<char>|
            exists|i: int, j: int|
                0 <= i < CONSONANTS@.len() && 0 <= j < VOWEL_SIGNS@.len() && w
                    == #[trigger] CONSONANTS@[i]@ + #[trigger] VOWEL_SIGNS@[j]@,
    )
}

/// The abbreviations in Tamil: those that are listed, the English ones, and, as the
/// initials of names, the vowels, consonants and syllables.
pub open spec fn tamil_abbreviations() -> Set<Seq<char>> {
    listed(seq![TAMIL_ABBREVIATIONS, ENGLISH_ABBREVIATIONS]).union(set_of(VOWELS@)).union(
        set_of(CONSONANTS@),
    ).union(syllables())
}

/// Adds the syllables.
fn with_syllables(words: WordSet) -> (r: WordSet)
    ensures
        r@ == words@.union(syllables()),
{
    let ghost was = words@;
    let mut words = words;
    let mut i: usize = 0;
    proof {
        assert(words@ =~= was.union(Set::new(|w: Seq<char>| is_syllable_upto(w, 0, 0))));
    }
    while i < CONSONANTS.len()
        invariant
            i <= CONSONANTS@.len(),
            words@ == was.union(Set::new(|w: Seq<char>| is_syllable_upto(w, i as int, 0))),
        decreases CONSONANTS@.len() - i,
    {
        let mut j: usize = 0;
        while j < VOWEL_SIGNS.len()
            invariant
                i < CONSONANTS@.len(),
                j <= VOWEL_SIGNS@.len(),
                words@ == was.union(
                    Set::new(|w: Seq<char>| is_syllable_upto(w, i as int, j as int)),
                ),
            decreases VOWEL_SIGNS@.len() - j,
        {
            let consonant: &'static str = CONSONANTS[i];
            let sign: &'static str = VOWEL_SIGNS[j];
            let mut syllable: String = consonant.to_owned();
            syllable.append(sign);
            words = words.with(syllable.as_str());
            proof {
                let c = CONSONANTS@[i as int]@ + VOWEL_SIGNS@[j as int]@;
                assert(syllable@ == c);
                assert forall|w: Seq<char>|
                    is_syllable_upto(w, i as int, j + 1) <==> is_syllable_upto(w, i as int, j as int)
                        || w == c by {}
                assert(words@ =~= was.union(
                    Set::new(|w: Seq<char>| is_syllable_upto(w, i as int, j + 1)),
                ));
            }
            j += 1;
        }
        proof {
            assert forall|w: Seq<char>|
                is_syllable_upto(w, i as int, VOWEL_SIGNS@.len() as int) <==> is_syllable_upto(
                    w,
                    i + 1,
                    0,
                ) by {
                if is_syllable_upto(w, i + 1, 0) {
                    let (a, b) = choose|a: int, b: int|
                        0 <= a <= i + 1 && a < CONSONANTS@.len() && 0 <= b < VOWEL_SIGNS@.len() && (
                        a < i + 1 || b < 0) && w == #[trigger] CONSONANTS@[a]@
                            + #[trigger] VOWEL_SIGNS@[b]@;
                    assert(w == CONSONANTS@[a]@ + VOWEL_SIGNS@[b]@);
                }
            }
            assert(words@ =~= was.union(
                Set::new(|w: Seq<char>| is_syllable_upto(w, i + 1, 0)),
            ));
        }
        i += 1;
    }
    proof {
        assert forall|w: Seq<char>|
            is_syllable_upto(w, CONSONANTS@.len() as int, 0) <==> syllables().contains(w) by {}
        assert(words@ =~= was.union(syllables()));
    }
    words
}

#[derive(Debug)]
pub struct Tamil {
    lexicon: Lexicon,
}

impl Tamil {
    pub fn new() -> (r: Tamil)
        ensures
            r.rules() == Rules::standard(
                tamil_abbreviations(),
                Set::empty(),
            ),
    {
        let lists: [&str; 2] = [TAMIL_ABBREVIATIONS, ENGLISH_ABBREVIATIONS];
        assert(lists@ =~= seq![TAMIL_ABBREVIATIONS, ENGLISH_ABBREVIATIONS]);
        let abbreviations = with_syllables(
            parse_word_list(&lists).with_all(&VOWELS).with_all(&CONSONANTS),
        );
        Tamil { lexicon: Lexicon::new(abbreviations, WordSet::new()) }
    }
}

impl Lexical for Tamil {
    closed spec fn words(&self) -> Lexicon {
        self.lexicon
    }

    fn lexicon(&self) -> (r: &Lexicon) {
        &self.lexicon
    }
}

impl Clone for Tamil {
    fn clone(&self) -> (r: Self)
        ensures
            r.rules() == self.rules(),
    {
        Tamil { lexicon: self.lexicon.clone() }
    }
}

} // verus!
