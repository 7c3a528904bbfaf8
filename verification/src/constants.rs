//! The marks, words and patterns that all languages share.

use vstd::prelude::*;

use crate::chars::{is_white_space, white_space, CharClass};
use crate::text::{byte_len, same, step};
use crate::utf8::{before, is_cut, lemma_cut_ends, lemma_split, lemma_whole, size};

verus! {

/// The characters that can end a sentence, in any script.
pub const GLOBAL_SENTENCE_TERMINATORS: &'static str =
    "!.?…։؟۔܀܁܂߹।॥၊။።፧፨᙮᜵᜶᠃᠉᥄᥅᪨᪩᪪᪫᭚᭛᭞᭟᰻᰼᱾᱿‼‽⁇⁈⁉⸮⸼꓿꘎꘏꛳꛷꡶꡷꣎꣏꤯꧈꧉꩝꩞꩟꫰꫱꯫﹒﹖﹗！．？｡。𐩖𐩗𑁇𑁈𑂾𑂿𑃀𑃁𑅁𑅂𑅃𑇅𑇆𑇍𑇞𑇟𑈸𑈹𑈻𑈼𑊩𑑋𑑌𑗂𑗃𑗉𑗊𑗋𑗌𑗍𑗎𑗏𑗐𑗑𑗒𑗓𑗔𑗕𑗖𑗗𑙁𑙂𑜼𑜽𑜾𑩂𑩃𑪛𑪜𑱁𑱂𖩮𖩯𖫵𖬷𖬸𖭄𛲟𝪈";

/// True for the characters that can end a sentence.
pub open spec fn terminator(c: char) -> bool {
    GLOBAL_SENTENCE_TERMINATORS@.contains(c)
}

pub fn is_terminator(c: char) -> (r: bool)
    ensures
        r == terminator(c),
{
    let all: &'static str = GLOBAL_SENTENCE_TERMINATORS;
    let n: usize = byte_len(all);
    let mut i: usize = 0;
    proof {
        lemma_cut_ends(all@);
        lemma_whole(all@);
    }
    while i < n
        invariant
            all == GLOBAL_SENTENCE_TERMINATORS,
            n == size(all@),
            is_cut(all@, i as int),
            !before(all@, i as int).contains(c),
        decreases n - i,
    {
        let (d, j) = step(all, i);
        if d == c {
            proof {
                lemma_split(all@, i as int);
                assert(all@[before(all@, i as int).len() as int] == c);
            }
            return true;
        }
        proof {
            assert forall|k: int| 0 <= k < before(all@, j as int).len() implies before(
                all@,
                j as int,
            )[k] != c by {
                if k < before(all@, i as int).len() {
                    assert(before(all@, i as int)[k] != c);
                }
            }
        }
        i = j;
    }
    false
}

/// The characters that can end a sentence.
pub struct Terminator;

impl CharClass for Terminator {
    open spec fn has(c: char) -> bool {
        terminator(c)
    }

    fn test(c: char) -> bool {
        is_terminator(c)
    }
}

/// What may trail behind a sentence: white space and terminators.
pub struct Trailing;

/// What ends the first word of a sentence: white space, a comma, or a terminator.
pub struct OpenerEnd;

impl CharClass for Trailing {
    open spec fn has(c: char) -> bool {
        white_space(c) || terminator(c)
    }

    fn test(c: char) -> bool {
        is_white_space(c) || is_terminator(c)
    }
}

impl CharClass for OpenerEnd {
    open spec fn has(c: char) -> bool {
        white_space(c) || c == ',' || terminator(c)
    }

    fn test(c: char) -> bool {
        is_white_space(c) || c == ',' || is_terminator(c)
    }
}

/// The pairs of quotation marks: opener, closer, and whether the mark also serves
/// as an apostrophe, so that it must be guarded against words like `don't`. Longer
/// marks come before the marks that they start with.
pub const QUOTE_PAIRS: [(&'static str, &'static str, bool); 15] = [
    ("''", "''", false),
    ("``", "``", false),
    ("\"", "\"", false),
    ("'", "'", true),
    ("`", "`", true),
    ("«", "»", false),
    ("‘", "’", false),
    ("‚", "‚", false),
    ("“", "”", false),
    ("‛", "‛", false),
    ("„", "“", false),
    ("‟", "‟", false),
    ("‹", "›", false),
    ("《", "》", false),
    ("「", "」", false),
];

/// The closers of all pairs, the longest first.
pub const QUOTE_CLOSERS_BY_LEN: [&'static str; 15] = [
    "’", "‚", "”", "‛", "“", "‟", "›", "》", "」", "''", "``", "»", "\"", "'", "`",
];

/// Words and names that are written with an exclamation mark, which ends no sentence
/// behind them.
pub const EXCLAMATION_WORDS: [&'static str; 19] = [
    "!Xũ", "!Kung", "ǃʼOǃKung", "!Xuun", "!Kung-Ekoka", "ǃHu", "ǃKhung", "ǃKu", "ǃung", "ǃXo",
    "ǃXû", "ǃXung", "ǃXũ", "!Xun", "Yahoo!", "Y!J", "Yum!", "Hey!",
    "Wow!",
];

/// True for the words and names that are written with an exclamation mark.
pub open spec fn exclamation_word(w: Seq<char>) -> bool {
    exists|i: int| 0 <= i < EXCLAMATION_WORDS@.len() && (#[trigger] EXCLAMATION_WORDS@[i])@ == w
}

pub fn is_exclamation_word(w: &str) -> (r: bool)
    ensures
        r == exclamation_word(w@),
{
    let mut i: usize = 0;
    while i < EXCLAMATION_WORDS.len()
        invariant
            i <= EXCLAMATION_WORDS@.len(),
            forall|j: int| 0 <= j < i ==> (#[trigger] EXCLAMATION_WORDS@[j])@ != w@,
        decreases EXCLAMATION_WORDS@.len() - i,
    {
        if same(EXCLAMATION_WORDS[i], w) {
            assert(EXCLAMATION_WORDS@[i as int]@ == w@);
            return true;
        }
        i += 1;
    }
    false
}

/// The Roman numerals from one to twenty.
pub const ROMAN_NUMERALS: [&'static str; 20] = [
    "i", "ii", "iii", "iv", "v", "vi", "vii", "viii", "ix", "x", "xi", "xii", "xiii", "xiv", "xv",
    "xvi", "xvii", "xviii", "xix", "xx",
];

/// Runs of terminators, in front of the terminators themselves. The first two
/// alternatives take in runs that are spread out with spaces or tabs: three or more
/// dots (two may be a full stop and the start of an ellipsis), and two or more of
/// `!`, `?` and `…`. No line break is taken in, so that paragraphs stay apart.
pub const SENTENCE_BREAK_FRONT: &'static str = r"\.(?:[ \t]+\.){2,}|[!?…](?:[ \t]+[!?…])+|[";

/// Runs of terminators, behind the terminators themselves.
pub const SENTENCE_BREAK_BACK: &'static str = r"]+";

/// A lower case letter or a digit.
pub const CONTINUE_PATTERN: &'static str = r"^[0-9a-z]";

/// A lower case letter or a digit, behind any characters that belong to no word.
pub const CONTINUE_AFTER_NONWORD_PATTERN: &'static str = r"^\W*[0-9a-z]";

/// What goes on behind an ellipsis: white space, and then a lower case letter, a
/// digit or the pronoun `I`, which is written with a capital everywhere.
pub const ELLIPSIS_CONTINUE_PATTERN: &'static str = r"^\s+(?:[0-9a-z]|I(?:[\s'\u{2019}]|$))";

/// The gap between two paragraphs.
pub const PARAGRAPH_PATTERN: &'static str = r"\n[\r]*\n";

/// The end of one sentence and the start of the next. Questions are left out: a
/// quoted question is often followed by the rest of its sentence.
pub const INLINE_BREAK_PATTERN: &'static str = r"[.!][ \t]+[A-Z]";

/// Quoted text. Behind a guarded opener a word must follow at once.
pub const QUOTES_PATTERN: &'static str =
    "''(?s:.*?)''|``(?s:.*?)``|\"(?s:.*?)\"|\\B'\\b(?s:.*?)'\\B|\\B`\\b(?s:.*?)`\\B|«(?s:.*?)»|‘(?s:.*?)’|‚(?s:.*?)‚|“(?s:.*?)”|‛(?s:.*?)‛|„(?s:.*?)“|‟(?s:.*?)‟|‹(?s:.*?)›|《(?s:.*?)》|「(?s:.*?)」";

/// Text in brackets.
pub const PARENS_PATTERN: &'static str = r"[\(（<{\[](?:\\.|[^\\\[\]\(\){}<>（）])*[\)\]}）]";

/// Addresses of electronic mail.
pub const EMAIL_PATTERN: &'static str = r"[a-zA-Z0-9._%+-]+@[a-zA-Z0-9.-]+\.[a-zA-Z]{2,}";

/// Reference numbers such as `[1][23]`.
pub const NUMBERED_REFERENCE_PATTERN: &'static str = r"^(\[\d+\])+";

/// White space behind a terminator.
pub const SPACE_AFTER_SEPARATOR: &'static str = r"^\s+";

} // verus!
