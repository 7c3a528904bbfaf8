//! Which abbreviations the languages know beside those that are listed.

use vstd::prelude::*;

use crate::case::unicode_upper_case;
use crate::constants::ROMAN_NUMERALS;
use crate::languages::en::ENGLISH_ABBREVIATIONS;
use crate::languages::pt::{portuguese_abbreviations, PORTUGUESE_ABBREVIATIONS};
use crate::languages::ta::{
    tamil_abbreviations, CONSONANTS, TAMIL_ABBREVIATIONS, VOWELS, VOWEL_SIGNS,
};
use crate::words::{is_among, listed, lists};

verus! {

/// In Portuguese the Roman numerals are abbreviations, in lower and in upper case; beside
/// them only what is listed is one.
pub proof fn law_portuguese_abbreviations(w: Seq<char>)
    ensures
        portuguese_abbreviations().contains(w) <==> lists(PORTUGUESE_ABBREVIATIONS@, w) || is_among(
            ROMAN_NUMERALS@,
            w,
        ) || exists|i: int|
            0 <= i < ROMAN_NUMERALS@.len() && w == unicode_upper_case(
                (#[trigger] ROMAN_NUMERALS@[i])@,
            ),
{
    let texts = seq![PORTUGUESE_ABBREVIATIONS];
    assert(texts[0] == PORTUGUESE_ABBREVIATIONS);
}

/// In Tamil the vowels, the consonants and the syllables are abbreviations, as the initials
/// of names, and so are those of English; beside them only what is listed is one.
pub proof fn law_tamil_abbreviations(w: Seq<char>)
    ensures
        tamil_abbreviations().contains(w) <==> lists(TAMIL_ABBREVIATIONS@, w) || lists(
            ENGLISH_ABBREVIATIONS@,
            w,
        ) || is_among(VOWELS@, w) || is_among(CONSONANTS@, w) || exists|i: int, j: int|
            0 <= i < CONSONANTS@.len() && 0 <= j < VOWEL_SIGNS@.len() && w
                == #[trigger] CONSONANTS@[i]@ + #[trigger] VOWEL_SIGNS@[j]@,
{
    let texts = seq![TAMIL_ABBREVIATIONS, ENGLISH_ABBREVIATIONS];
    assert(texts[0] == TAMIL_ABBREVIATIONS && texts[1] == ENGLISH_ABBREVIATIONS);
    assert(listed(texts).contains(w) <==> lists(TAMIL_ABBREVIATIONS@, w) || lists(
        ENGLISH_ABBREVIATIONS@,
        w,
    ));
}

} // verus!
