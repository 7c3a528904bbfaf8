//! Upper and lower case.

use vstd::prelude::*;
use vstd::string::*;

use crate::chars::{ascii_lower, ascii_upper};

verus! {

/// What Unicode makes of `s` in lower case.
pub uninterp spec fn unicode_lower_case(s: Seq<char>) -> Seq<char>;

/// What Unicode makes of `s` in upper case.
pub uninterp spec fn unicode_upper_case(s: Seq<char>) -> Seq<char>;

/// True when `s` holds characters of ASCII alone.
pub open spec fn all_ascii(s: Seq<char>) -> bool {
    forall|i: int| 0 <= i < s.len() ==> #[trigger] s[i] <= '\u{7F}'
}

/// `c` with a capital of ASCII made small.
pub open spec fn ascii_lowered(c: char) -> char {
    if ascii_upper(c) {
        (c as u32 + 32) as char
    } else {
        c
    }
}

/// `c` with a small letter of ASCII made a capital.
pub open spec fn ascii_raised(c: char) -> char {
    if ascii_lower(c) {
        (c as u32 - 32) as char
    } else {
        c
    }
}

/// `str::to_lowercase` puts a text in lower case by Unicode's tables; text in ASCII
/// is mapped letter by letter.
pub assume_specification[ str::to_lowercase ](s: &str) -> (r: String)
    ensures
        r@ == unicode_lower_case(s@),
        all_ascii(s@) ==> r@ == s@.map_values(|c: char| ascii_lowered(c)),
;

/// `str::to_uppercase` puts a text in upper case by Unicode's tables; text in ASCII
/// is mapped letter by letter.
pub assume_specification[ str::to_uppercase ](s: &str) -> (r: String)
    ensures
        r@ == unicode_upper_case(s@),
        all_ascii(s@) ==> r@ == s@.map_values(|c: char| ascii_raised(c)),
;

} // verus!
