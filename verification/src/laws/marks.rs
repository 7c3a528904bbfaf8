//! Which characters are terminators.

use vstd::prelude::*;

use crate::chars::{ascii_digit, ascii_lower, ascii_upper, white_space};
use crate::constants::{
    exclamation_word, terminator, EXCLAMATION_WORDS, GLOBAL_SENTENCE_TERMINATORS, ROMAN_NUMERALS,
};
use crate::words::is_among;

verus! {

/// Of ASCII, `.`, `!` and `?` end sentences, and nothing else does.
pub proof fn law_terminators_of_ascii(c: char)
    requires
        c <= '\u{7F}',
    ensures
        terminator(c) <==> c == '.' || c == '!' || c == '?',
{
    reveal_strlit("!.?…։؟۔܀܁܂߹।॥၊။።፧፨᙮᜵᜶᠃᠉᥄᥅᪨᪩᪪᪫᭚᭛᭞᭟᰻᰼᱾᱿‼‽⁇⁈⁉⸮⸼꓿꘎꘏꛳꛷꡶꡷꣎꣏꤯꧈꧉꩝꩞꩟꫰꫱꯫﹒﹖﹗！．？｡。𐩖𐩗𑁇𑁈𑂾𑂿𑃀𑃁𑅁𑅂𑅃𑇅𑇆𑇍𑇞𑇟𑈸𑈹𑈻𑈼𑊩𑑋𑑌𑗂𑗃𑗉𑗊𑗋𑗌𑗍𑗎𑗏𑗐𑗑𑗒𑗓𑗔𑗕𑗖𑗗𑙁𑙂𑜼𑜽𑜾𑩂𑩃𑪛𑪜𑱁𑱂𖩮𖩯𖫵𖬷𖬸𖭄𛲟𝪈");
    let all = GLOBAL_SENTENCE_TERMINATORS@;
    assert(all[0] == '!' && all[1] == '.' && all[2] == '?');
    assert forall|i: int| 3 <= i < all.len() implies #[trigger] all[i] > '\u{7F}' by {}
}

/// No white space ends a sentence.
pub proof fn law_white_space_is_no_terminator(c: char)
    requires
        white_space(c),
    ensures
        !terminator(c),
{
    reveal_strlit("!.?…։؟۔܀܁܂߹।॥၊။።፧፨᙮᜵᜶᠃᠉᥄᥅᪨᪩᪪᪫᭚᭛᭞᭟᰻᰼᱾᱿‼‽⁇⁈⁉⸮⸼꓿꘎꘏꛳꛷꡶꡷꣎꣏꤯꧈꧉꩝꩞꩟꫰꫱꯫﹒﹖﹗！．？｡。𐩖𐩗𑁇𑁈𑂾𑂿𑃀𑃁𑅁𑅂𑅃𑇅𑇆𑇍𑇞𑇟𑈸𑈹𑈻𑈼𑊩𑑋𑑌𑗂𑗃𑗉𑗊𑗋𑗌𑗍𑗎𑗏𑗐𑗑𑗒𑗓𑗔𑗕𑗖𑗗𑙁𑙂𑜼𑜽𑜾𑩂𑩃𑪛𑪜𑱁𑱂𖩮𖩯𖫵𖬷𖬸𖭄𛲟𝪈");
    let all = GLOBAL_SENTENCE_TERMINATORS@;
    assert forall|i: int| 0 <= i < all.len() implies !white_space(#[trigger] all[i]) by {}
}

/// The marks of other scripts that end sentences in the languages here: the ellipsis, and
/// the full stops of Armenian, Arabic, Ethiopic, Indic, Burmese and East Asian writing.
pub proof fn law_terminators_of_other_scripts()
    ensures
        terminator('…') && terminator('։') && terminator('؟') && terminator('۔'),
        terminator('።') && terminator('፧') && terminator('፨'),
        terminator('।') && terminator('॥') && terminator('။') && terminator('၊'),
        terminator('。') && terminator('｡') && terminator('！') && terminator('？')
            && terminator('．'),
{
    reveal_strlit("!.?…։؟۔܀܁܂߹।॥၊။።፧፨᙮᜵᜶᠃᠉᥄᥅᪨᪩᪪᪫᭚᭛᭞᭟᰻᰼᱾᱿‼‽⁇⁈⁉⸮⸼꓿꘎꘏꛳꛷꡶꡷꣎꣏꤯꧈꧉꩝꩞꩟꫰꫱꯫﹒﹖﹗！．？｡。𐩖𐩗𑁇𑁈𑂾𑂿𑃀𑃁𑅁𑅂𑅃𑇅𑇆𑇍𑇞𑇟𑈸𑈹𑈻𑈼𑊩𑑋𑑌𑗂𑗃𑗉𑗊𑗋𑗌𑗍𑗎𑗏𑗐𑗑𑗒𑗓𑗔𑗕𑗖𑗗𑙁𑙂𑜼𑜽𑜾𑩂𑩃𑪛𑪜𑱁𑱂𖩮𖩯𖫵𖬷𖬸𖭄𛲟𝪈");
    let all = GLOBAL_SENTENCE_TERMINATORS@;
    assert(all[3] == '…');
    assert(all[4] == '։');
    assert(all[5] == '؟');
    assert(all[6] == '۔');
    assert(all[15] == '።');
    assert(all[16] == '፧');
    assert(all[17] == '፨');
    assert(all[11] == '।');
    assert(all[12] == '॥');
    assert(all[14] == '။');
    assert(all[13] == '၊');
    assert(all[69] == '。');
    assert(all[68] == '｡');
    assert(all[65] == '！');
    assert(all[67] == '？');
    assert(all[66] == '．');
}

/// White space is what Unicode says it is: the spaces of all widths, the tab, the line
/// breaks, and the separators of lines and paragraphs; of ASCII, nothing else.
pub proof fn law_white_space(c: char)
    ensures
        c == ' ' || c == '\t' || c == '\n' || c == '\u{B}' || c == '\u{C}' || c == '\r'
            ==> white_space(c),
        c == '\u{85}' || c == '\u{A0}' || c == '\u{1680}' || '\u{2000}' <= c <= '\u{200A}' || c
            == '\u{2028}' || c == '\u{2029}' || c == '\u{202F}' || c == '\u{205F}' || c
            == '\u{3000}' ==> white_space(c),
        c <= '\u{7F}' && white_space(c) ==> c == ' ' || '\t' <= c <= '\r',
        c == '\u{200B}' || c == '\u{FEFF}' || c == '\u{180E}' ==> !white_space(c),
{
}

/// Letters and digits of ASCII.
pub proof fn law_ascii_letters_and_digits(c: char)
    ensures
        ascii_upper(c) <==> 'A' <= c <= 'Z',
        ascii_lower(c) <==> 'a' <= c <= 'z',
        ascii_digit(c) <==> '0' <= c <= '9',
        white_space(c) ==> !ascii_upper(c) && !ascii_lower(c) && !ascii_digit(c),
        terminator(c) ==> !ascii_upper(c) && !ascii_lower(c) && !ascii_digit(c),
{
    if c <= '\u{7F}' {
        law_terminators_of_ascii(c);
    }
}

/// All the characters that end sentences.
pub proof fn law_all_terminators(c: char)
    ensures
        terminator(c) <==> "!.?…։؟۔܀܁܂߹।॥၊။።፧፨᙮᜵᜶᠃᠉᥄᥅᪨᪩᪪᪫᭚᭛᭞᭟᰻᰼᱾᱿‼‽⁇⁈⁉⸮⸼꓿꘎꘏꛳꛷꡶꡷꣎꣏꤯꧈꧉꩝꩞꩟꫰꫱꯫﹒﹖﹗！．？｡。𐩖𐩗𑁇𑁈𑂾𑂿𑃀𑃁𑅁𑅂𑅃𑇅𑇆𑇍𑇞𑇟𑈸𑈹𑈻𑈼𑊩𑑋𑑌𑗂𑗃𑗉𑗊𑗋𑗌𑗍𑗎𑗏𑗐𑗑𑗒𑗓𑗔𑗕𑗖𑗗𑙁𑙂𑜼𑜽𑜾𑩂𑩃𑪛𑪜𑱁𑱂𖩮𖩯𖫵𖬷𖬸𖭄𛲟𝪈"@.contains(c),
{
}

/// Words and names that are written with an exclamation mark.
pub proof fn law_exclamation_words()
    ensures
        exclamation_word("!Xũ"@) && exclamation_word("!Kung"@),
        exclamation_word("ǃʼOǃKung"@) && exclamation_word("!Xuun"@),
        exclamation_word("!Kung-Ekoka"@) && exclamation_word("ǃHu"@),
        exclamation_word("ǃKhung"@) && exclamation_word("ǃKu"@),
        exclamation_word("ǃung"@) && exclamation_word("ǃXo"@),
        exclamation_word("ǃXû"@) && exclamation_word("ǃXung"@),
        exclamation_word("ǃXũ"@) && exclamation_word("!Xun"@),
        exclamation_word("Yahoo!"@) && exclamation_word("Y!J"@),
        exclamation_word("Yum!"@) && exclamation_word("Hey!"@),
        exclamation_word("Wow!"@),
{
    let all = EXCLAMATION_WORDS@;
    assert(all[0]@ == "!Xũ"@);
    assert(all[1]@ == "!Kung"@);
    assert(all[2]@ == "ǃʼOǃKung"@);
    assert(all[3]@ == "!Xuun"@);
    assert(all[4]@ == "!Kung-Ekoka"@);
    assert(all[5]@ == "ǃHu"@);
    assert(all[6]@ == "ǃKhung"@);
    assert(all[7]@ == "ǃKu"@);
    assert(all[8]@ == "ǃung"@);
    assert(all[9]@ == "ǃXo"@);
    assert(all[10]@ == "ǃXû"@);
    assert(all[11]@ == "ǃXung"@);
    assert(all[12]@ == "ǃXũ"@);
    assert(all[13]@ == "!Xun"@);
    assert(all[14]@ == "Yahoo!"@);
    assert(all[15]@ == "Y!J"@);
    assert(all[16]@ == "Yum!"@);
    assert(all[17]@ == "Hey!"@);
    assert(all[18]@ == "Wow!"@);
}

/// The Roman numerals from one to twenty.
pub proof fn law_roman_numerals()
    ensures
        is_among(ROMAN_NUMERALS@, "i"@) && is_among(ROMAN_NUMERALS@, "ii"@),
        is_among(ROMAN_NUMERALS@, "iii"@) && is_among(ROMAN_NUMERALS@, "iv"@),
        is_among(ROMAN_NUMERALS@, "v"@) && is_among(ROMAN_NUMERALS@, "vi"@),
        is_among(ROMAN_NUMERALS@, "vii"@) && is_among(ROMAN_NUMERALS@, "viii"@),
        is_among(ROMAN_NUMERALS@, "ix"@) && is_among(ROMAN_NUMERALS@, "x"@),
        is_among(ROMAN_NUMERALS@, "xi"@) && is_among(ROMAN_NUMERALS@, "xii"@),
        is_among(ROMAN_NUMERALS@, "xiii"@) && is_among(ROMAN_NUMERALS@, "xiv"@),
        is_among(ROMAN_NUMERALS@, "xv"@) && is_among(ROMAN_NUMERALS@, "xvi"@),
        is_among(ROMAN_NUMERALS@, "xvii"@) && is_among(ROMAN_NUMERALS@, "xviii"@),
        is_among(ROMAN_NUMERALS@, "xix"@) && is_among(ROMAN_NUMERALS@, "xx"@),
{
    let all = ROMAN_NUMERALS@;
    assert(all[0]@ == "i"@);
    assert(all[1]@ == "ii"@);
    assert(all[2]@ == "iii"@);
    assert(all[3]@ == "iv"@);
    assert(all[4]@ == "v"@);
    assert(all[5]@ == "vi"@);
    assert(all[6]@ == "vii"@);
    assert(all[7]@ == "viii"@);
    assert(all[8]@ == "ix"@);
    assert(all[9]@ == "x"@);
    assert(all[10]@ == "xi"@);
    assert(all[11]@ == "xii"@);
    assert(all[12]@ == "xiii"@);
    assert(all[13]@ == "xiv"@);
    assert(all[14]@ == "xv"@);
    assert(all[15]@ == "xvi"@);
    assert(all[16]@ == "xvii"@);
    assert(all[17]@ == "xviii"@);
    assert(all[18]@ == "xix"@);
    assert(all[19]@ == "xx"@);
}

} // verus!
