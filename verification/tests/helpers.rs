use sentencex::languages::list_markers::detect_list_items;
use sentencex::languages::phrases::{
    continuation_after_orphan_quote, continues_after_boundary, is_single_ascii_upper,
    is_time_abbreviation, starts_with_initial, starts_with_month, time_phrase_is_fronted,
};
use sentencex::languages::ranges::{
    append_space_padded_quote_pairs, collect_ranges, is_contraction_quote, is_in_quote_range,
    is_opener_shape, is_orphan_closer, is_symmetric_quote_closer, is_symmetric_quote_range,
    quote_partially_overlaps_parens, starts_new_utterance, symmetric_token_count_is_odd,
    SkippableRange, SkippableRangeType,
};
use sentencex::languages::terminators::{find_terminator_matches, fold_matches};
use sentencex::languages::{English, Japanese, Language, Polish, Portuguese, Tamil};
use sentencex::pattern::{Pattern, PatternError, Patterns};

fn quote(start: usize, end: usize) -> SkippableRange {
    SkippableRange::new(start, end, SkippableRangeType::Quote)
}

fn spans(ranges: &[SkippableRange]) -> Vec<(usize, usize)> {
    ranges.iter().map(|r| (r.start, r.end)).collect()
}

#[test]
fn ranges_contain_what_is_strictly_inside() {
    let r = quote(2, 5);
    assert!(!r.contains(2));
    assert!(r.contains(3));
    assert!(r.contains(4));
    assert!(!r.contains(5));
    assert!(r.is_quote());
    assert!(!SkippableRange::new(0, 1, SkippableRangeType::Email).is_quote());
    assert_eq!(r.range_type, SkippableRangeType::Quote);
}

#[test]
fn inner_terminators() {
    let text = "\"Stop.\" x";
    let r = quote(0, 7);
    assert!(r.is_inner_terminator(text, 6));
    assert!(!r.is_inner_terminator(text, 5));
    assert!(!r.is_inner_terminator(text, 7));
    assert!(!SkippableRange::new(0, 7, SkippableRangeType::Parentheses).is_inner_terminator(text, 6));
    let double = "''Stop.''";
    assert!(quote(0, 9).is_inner_terminator(double, 7));
    assert!(quote(0, 9).is_inner_terminator(double, 8));
}

#[test]
fn symmetric_marks() {
    for mark in ["'", "''", "\"", "`", "``", "‚", "‛", "‟"] {
        assert!(is_symmetric_quote_closer(mark), "{mark}");
    }
    for mark in ["»", "”", "’", "", "x"] {
        assert!(!is_symmetric_quote_closer(mark), "{mark}");
    }
}

#[test]
fn symmetric_ranges() {
    assert!(is_symmetric_quote_range("''a''", &quote(0, 5)));
    assert!(is_symmetric_quote_range("\"a\"", &quote(0, 3)));
    assert!(!is_symmetric_quote_range("«a»", &quote(0, 5)));
    assert!(!is_symmetric_quote_range("\"", &quote(0, 1)));
    let parens = SkippableRange::new(0, 3, SkippableRangeType::Parentheses);
    assert!(!is_symmetric_quote_range("\"a\"", &parens));
}

#[test]
fn odd_and_even_marks() {
    assert!(symmetric_token_count_is_odd("\"a\" \"", &quote(0, 3)));
    assert!(!symmetric_token_count_is_odd("\"a\"", &quote(0, 3)));
    assert!(!symmetric_token_count_is_odd("«a» »", &quote(0, 5)));
}

#[test]
fn quotes_that_cross_brackets() {
    let parens = SkippableRange::new(3, 8, SkippableRangeType::Parentheses);
    assert!(quote_partially_overlaps_parens(&quote(0, 5), &[parens]));
    assert!(quote_partially_overlaps_parens(&quote(5, 9), &[parens]));
    assert!(!quote_partially_overlaps_parens(&quote(0, 9), &[parens]));
    assert!(!quote_partially_overlaps_parens(&quote(4, 6), &[parens]));
    assert!(!quote_partially_overlaps_parens(&quote(0, 5), &[quote(3, 8)]));
}

#[test]
fn positions_in_quotes() {
    assert!(is_in_quote_range(&[quote(2, 4)], 2));
    assert!(is_in_quote_range(&[quote(2, 4)], 3));
    assert!(!is_in_quote_range(&[quote(2, 4)], 4));
    let email = SkippableRange::new(2, 4, SkippableRangeType::Email);
    assert!(!is_in_quote_range(&[email], 3));
}

#[test]
fn apostrophes() {
    assert!(is_contraction_quote("wasn't", 4, "'"));
    assert!(is_contraction_quote("é'á", 2, "'"));
    assert!(!is_contraction_quote("dogs' x", 4, "'"));
    assert!(!is_contraction_quote("'x", 0, "'"));
}

#[test]
fn openers_that_stand_apart() {
    assert!(is_opener_shape("' word", 0, "'"));
    assert!(is_opener_shape("a ' word", 2, "'"));
    assert!(!is_opener_shape("a 'word", 2, "'"));
    assert!(!is_opener_shape("a' word", 1, "'"));
    assert!(!is_opener_shape("a '", 2, "'"));
}

#[test]
fn new_utterances() {
    assert!(starts_new_utterance("x Word", 1));
    assert!(starts_new_utterance("x \tWord", 1));
    assert!(!starts_new_utterance("xWord", 1));
    assert!(!starts_new_utterance("x word", 1));
    assert!(starts_new_utterance("x\nWord", 1));
    assert!(starts_new_utterance("\nA", 0));
    assert!(!starts_new_utterance("", 0));
}

#[test]
fn orphans() {
    // A mark that only closes is an orphan once it has been left unpaired.
    assert!(is_orphan_closer("a»", 1, "»", &[]));
    // The only free mark.
    assert!(is_orphan_closer("a. ' B", 3, "'", &[]));
    // One free mark before it.
    assert!(is_orphan_closer("' a. ' B", 5, "'", &[]));
    // None before it and two from it on.
    assert!(!is_orphan_closer("a. ' b '", 3, "'", &[]));
    // Apostrophes do not count.
    assert!(is_orphan_closer("wasn't. ' B", 8, "'", &[]));
}

#[test]
fn padded_quotes() {
    let patterns = Patterns::new();
    let mut ranges = Vec::new();
    append_space_padded_quote_pairs("' one two ' three", &mut ranges, &patterns);
    assert_eq!(spans(&ranges), vec![(0, 11)]);
    // The second mark rather opens the next quote.
    let mut ranges = Vec::new();
    append_space_padded_quote_pairs("' One. Two. ' Three '", &mut ranges, &patterns);
    assert_eq!(spans(&ranges), vec![(12, 21)]);
    // A quote with more than one sentence, and more text behind it.
    let mut ranges = Vec::new();
    append_space_padded_quote_pairs("' One. Two. ' he said", &mut ranges, &patterns);
    assert_eq!(spans(&ranges), vec![(0, 13)]);
}

#[test]
fn ranges_are_sorted_by_their_start() {
    let ranges = English::new().get_skippable_ranges("(x) a@b.com \"q\" ' r s ' [z]");
    assert_eq!(spans(&ranges), vec![(0, 3), (4, 11), (12, 15), (16, 23), (24, 27)]);
    let kinds: Vec<SkippableRangeType> = ranges.iter().map(|r| r.range_type).collect();
    assert_eq!(
        kinds,
        vec![
            SkippableRangeType::Parentheses,
            SkippableRangeType::Email,
            SkippableRangeType::Quote,
            SkippableRangeType::Quote,
            SkippableRangeType::Parentheses,
        ]
    );
    for r in &ranges {
        assert!(r.start < r.end);
        assert_ne!(r.range_type, SkippableRangeType::ListItem);
    }
    let given = collect_ranges("", &[(5, 6)], &[(1, 2)], &[(3, 4)], &Patterns::new());
    assert_eq!(spans(&given), vec![(1, 2), (3, 4), (5, 6)]);
}

#[test]
fn initials() {
    assert!(is_single_ascii_upper("A"));
    assert!(!is_single_ascii_upper("a"));
    assert!(!is_single_ascii_upper("AB"));
    assert!(!is_single_ascii_upper("É"));
    assert!(!is_single_ascii_upper(""));
    assert!(starts_with_initial(" J. R. Tolkien"));
    assert!(starts_with_initial("J."));
    assert!(!starts_with_initial("Jones"));
    assert!(!starts_with_initial("J.R.R."));
    assert!(!starts_with_initial("A.B"));
    assert!(!starts_with_initial(""));
}

#[test]
fn initials_of_names() {
    let language = Polish::new();
    assert!(language.is_name_initial("George W", "W", " Bush"));
    assert!(language.is_name_initial("J", "J", " R. Tolkien"));
    assert!(!language.is_name_initial("by W", "W", " Bush"));
    assert!(!language.is_name_initial("George Wx", "Wx", " Bush"));
    // A space before the full stop: the initial is not its own predecessor.
    assert!(!language.is_name_initial("by W ", "W", " Bush"));
    assert!(language.is_name_initial("George W ", "W", " Bush"));
    assert!(language.is_name_initial("George W\u{3000}", "W", " Bush"));
    // Heads that do not end with the initial.
    assert!(!language.is_name_initial(" ", "W", " Bush"));
    assert!(!language.is_name_initial("é ", "W", " Bush"));
    assert!(language.is_name_initial("é ", "W", " J. Bush"));
}

#[test]
fn times_of_day() {
    assert!(is_time_abbreviation("at 6 p.m"));
    assert!(is_time_abbreviation("A.M"));
    assert!(!is_time_abbreviation("p.n"));
    assert!(!is_time_abbreviation("pm"));
    assert!(time_phrase_is_fronted("At 5 a.m"));
    assert!(time_phrase_is_fronted("By 9:00 P.M"));
    assert!(!time_phrase_is_fronted("he left at 6 p.m"));
    assert!(!time_phrase_is_fronted("6 p.m"));
}

#[test]
fn continuations_behind_quotes() {
    assert!(continuation_after_orphan_quote(" is a"));
    assert!(continuation_after_orphan_quote(" '' and"));
    assert!(continuation_after_orphan_quote("' he"));
    assert!(continuation_after_orphan_quote(" \" 5"));
    assert!(!continuation_after_orphan_quote(" And"));
    assert!(!continuation_after_orphan_quote(" '' '' and"));
    assert!(!continuation_after_orphan_quote(" » and"));
    assert!(!continuation_after_orphan_quote(""));
}

#[test]
fn months() {
    let months = ["Mai", "Élan"];
    assert!(continues_after_boundary("xyz", &months));
    assert!(continues_after_boundary(" - 5", &months));
    assert!(continues_after_boundary("Mai 5", &months));
    assert!(continues_after_boundary("Mai.", &months));
    assert!(!continues_after_boundary("Juni", &months));
    assert!(!continues_after_boundary("", &months));
    // The first letter is put in upper case.
    assert!(continues_after_boundary("élan", &months));
    assert!(starts_with_month("mai", &months));
    assert!(!starts_with_month("MAI", &months));
    assert!(!starts_with_month("...", &months));
}

#[test]
fn runs_of_terminators() {
    let patterns = Patterns::new();
    let find = |text: &str| find_terminator_matches(text, &patterns.sentence_break);
    assert_eq!(find("a. b!? c"), vec![(1, 2), (4, 6)]);
    assert_eq!(find("a . . . b"), vec![(2, 7)]);
    assert_eq!(find("a. .b"), vec![(1, 2), (3, 4)]);
    assert_eq!(find("Bravo ! . x"), vec![(6, 9)]);
    assert_eq!(find("Bravo … . x"), vec![(6, 11)]);
    assert_eq!(find("! ..."), vec![(0, 1), (2, 5)]);
    assert_eq!(find("a . . b"), vec![(2, 3), (4, 5)]);
    assert_eq!(find("none"), vec![]);
    assert_eq!(find("..."), vec![(0, 3)]);
    assert_eq!(find(". . ..!"), vec![(0, 5), (5, 7)]);
    assert_eq!(find("! ? …!"), vec![(0, 7), (7, 8)]);
    assert_eq!(fold_matches("! . .", &[(0, 1), (2, 3), (4, 5)]), vec![(0, 3), (4, 5)]);
}

#[test]
fn last_words() {
    let language = English::new();
    assert_eq!(language.get_last_word("in the U.S "), "S");
    assert_eq!(language.get_last_word("route 171/U.S"), "S");
    assert_eq!(language.get_last_word("end."), "");
    assert_eq!(language.get_last_word("word"), "word");
    assert_eq!(language.get_last_word_full("in the U.S "), "U.S");
    assert_eq!(language.get_last_word_full("route 171/U.S"), "U.S");
    assert_eq!(language.get_last_word_full(""), "");
}

#[test]
fn next_words() {
    let language = English::new();
    let text = "abcdefghijklmnopqrstuvwxyzabcdefghij";
    assert_eq!(language.get_next_word_approx(text, 2), &text[2..32]);
    assert_eq!(language.get_next_word_approx(text, 30), &text[30..]);
    assert_eq!(language.get_next_word_approx(text, 36), "");
    assert_eq!(language.get_next_word_approx(text, usize::MAX), "");
    // Positions inside a character are moved out of it.
    assert_eq!(language.get_next_word_approx("éa", 1), "éa");
    let long = "é".repeat(20);
    assert_eq!(language.get_next_word_approx(&long, 1), "é".repeat(16));
    assert!(language.get_next_word_approx(&long, 0).chars().count() <= 30);
}

#[test]
fn abbreviations() {
    let language = English::new();
    assert!(language.is_abbreviation("", "Dr", "."));
    assert!(language.is_abbreviation("", "ETC", "."));
    assert!(language.is_abbreviation("", "i", "."));
    assert!(!language.is_abbreviation("", "Smith", "."));
    assert!(!language.is_abbreviation("", "Dr", "!"));
    assert!(!language.is_abbreviation("", "", "."));
    for word in ["Dr", "Prof", "Mr", "Mrs", "Ph", "Jan", "etc", "U.S"] {
        assert!(language.is_listed(word), "{word}");
    }
    for word in ["Johnson", "meeting", "embassy", "there", "until"] {
        assert!(!language.is_listed(word), "{word}");
    }
    assert!(language.is_multi_dot_abbreviation("it counts w.e.f", 1));
    assert!(!language.is_multi_dot_abbreviation("it counts etc", 3));
    assert!(!Japanese::new().is_abbreviation("", "Dr", "."));
    // Roman numerals in both cases.
    assert!(Portuguese::new().get_abbreviations().contains("xiv"));
    assert!(Portuguese::new().get_abbreviations().contains("XIV"));
    assert!(!Portuguese::new().get_abbreviations().contains("Xiv"));
    // A consonant with a sign.
    assert!(Tamil::new().get_abbreviations().contains("கா"));
    assert!(Tamil::new().get_abbreviations().contains("Mr"));
}

#[test]
fn sentence_starters() {
    let language = English::new();
    assert!(language.next_word_is_sentence_starter(" The end"));
    assert!(language.next_word_is_sentence_starter("Did, however"));
    assert!(language.next_word_is_sentence_starter("He."));
    assert!(!language.next_word_is_sentence_starter(" Smith"));
    assert!(!language.next_word_is_sentence_starter(""));
    assert!(!Polish::new().next_word_is_sentence_starter(" The end"));
}

#[test]
fn overrides() {
    let language = English::new();
    assert!(language.should_override_abbrev_suppression("in Penn", "Penn", " The"));
    assert!(language.should_override_abbrev_suppression("w.e.f", "f", " The"));
    assert!(language.should_override_abbrev_suppression("etc", "etc", " The"));
    assert!(!language.should_override_abbrev_suppression("i", "i", " The"));
    assert!(!language.should_override_abbrev_suppression("in Penn", "Penn", " Smith"));
}

#[test]
fn strong_breaks() {
    let language = English::new();
    assert!(language.has_strong_sentence_break("it ends. The next", 7, 8));
    assert!(!language.has_strong_sentence_break("it ends. Next", 7, 8));
    assert!(!language.has_strong_sentence_break("it ends! The next", 7, 8));
    assert!(!language.has_strong_sentence_break("the Dr. The next", 6, 7));
    assert!(!language.has_strong_sentence_break("a B. The next", 3, 4));
    assert!(language.has_strong_sentence_break("x '' . Lead", 5, 6));
    assert!(!language.has_strong_sentence_break("x '' . lead", 5, 6));
}

#[test]
fn exclamations() {
    let language = English::new();
    assert!(language.is_exclamation("at Yahoo", " Inc"));
    assert!(language.is_exclamation("Hey", " You"));
    assert!(language.is_exclamation("and Wow", " It"));
    assert!(!language.is_exclamation("at Google", " Inc"));
}

#[test]
fn boundaries_of_terminators() {
    let language = English::new();
    assert_eq!(language.find_boundary("It ends. Next", 7, 8), Some(9));
    assert_eq!(language.find_boundary("It ends.", 7, 8), Some(8));
    assert_eq!(language.find_boundary("It ends. next", 7, 8), Some(9));
    assert_eq!(language.find_boundary("It ends.next", 7, 8), None);
    assert_eq!(language.find_boundary("It ends , next. , x", 14, 15), None);
    assert_eq!(language.find_boundary("It ends.[1][23] Next", 7, 8), Some(15));
    assert_eq!(language.find_boundary("a Dr. Smith", 4, 5), None);
    assert_eq!(language.find_boundary("Go! is it", 2, 3), None);
    assert_eq!(language.find_boundary("7.Bg5", 1, 2), None);
    assert_eq!(language.find_boundary("1,000.That", 5, 6), Some(6));
    assert_eq!(language.find_boundary("語。文", 3, 6), Some(6));
    assert_eq!(language.find_boundary("so... no", 2, 5), None);
    assert_eq!(language.find_boundary("so... No", 2, 5), Some(6));
    assert_eq!(language.find_boundary("so... I'm", 2, 5), None);
    assert_eq!(language.find_boundary("raak. ...en", 6, 9), Some(9));
    assert_eq!(language.find_boundary("mean...see", 4, 7), None);
    assert_eq!(language.find_boundary("It ends.[1][x] Next", 7, 8), Some(11));
    assert_eq!(language.find_boundary("It ends.[] Next", 7, 8), Some(8));
    assert_eq!(language.find_boundary("It ends.[१] Next", 7, 8), Some(13));
    // The end of reference numbers is given.
    assert_eq!(language.decide_boundary("It ends.[1] Next", 7, 8, Some(3)), Some(11));
    assert_eq!(language.decide_boundary("It ends.[1] Next", 7, 8, None), Some(8));
}

#[test]
fn extensions_of_boundaries() {
    let language = English::new();
    assert_eq!(language.get_boundary_extend(" She"), 1);
    assert_eq!(language.get_boundary_extend(". She"), 2);
    assert_eq!(language.get_boundary_extend("She"), 0);
    assert_eq!(language.get_boundary_extend(" she"), -1);
    assert_eq!(language.get_boundary_extend(" - 5"), -1);
    assert_eq!(language.get_boundary_extend(" , She"), -1);
    // Characters are counted, not bytes.
    assert_eq!(language.get_boundary_extend("。 She"), 2);
    assert_eq!(language.get_boundary_extend("。 Next"), 2);
    assert_eq!(language.get_boundary_extend(&" ".repeat(200)), 127);
    assert_eq!(language.extend_unless(" She", true), -1);
    assert_eq!(language.extend_unless(" She", false), 1);
}

#[test]
fn orphan_closers_are_passed() {
    let language = English::new();
    assert_eq!(language.extend_past_orphan_closer("a.' B", 2, &[]), 4);
    assert_eq!(language.extend_past_orphan_closer("a. '' . B", 3, &[]), 8);
    assert_eq!(language.extend_past_orphan_closer("a. » B", 3, &[]), 6);
    assert_eq!(language.extend_past_orphan_closer("a. B", 3, &[]), 3);
    // A quote starts here.
    assert_eq!(language.extend_past_orphan_closer("a. 'B'", 3, &[quote(3, 6)]), 3);
    // The mark has been used before, and a capital follows.
    assert_eq!(language.extend_past_orphan_closer("\"x\" a. \" B", 7, &[quote(0, 3)]), 7);
    assert_eq!(language.extend_past_orphan_closer("\"x\" a. \" b", 7, &[quote(0, 3)]), 9);
    // Quotes behind the boundary are not looked at.
    assert_eq!(language.extend_past_orphan_closer("a. » B", 3, &[quote(4, 90)]), 6);
}

#[test]
fn continuation_by_default() {
    let language = English::new();
    assert!(language.continue_in_next_word("abc"));
    assert!(language.continue_in_next_word("5"));
    assert!(language.continue_in_next_word("  , x"));
    assert!(!language.continue_in_next_word(" abc"));
    assert!(!language.continue_in_next_word("Abc"));
    assert!(!language.continue_in_next_word(""));
    assert_eq!(language.get_abbreviation_char(), ".");
    assert_eq!(language.list_items("* a b\n* c d\n"), Some(detect_list_items("* a b\n* c d\n")));
}

#[test]
fn patterns() {
    assert!(Pattern::new("[a-z]+").is_ok());
    assert_eq!(Pattern::new("(").unwrap_err(), PatternError);
    Patterns::new().clone();
}
