use sentencex::chars::{
    is_white_space, ClockDigit, HorizontalSpace, NameSeparator, SentenceMark, White,
};
use sentencex::constants::{is_exclamation_word, is_terminator};
use sentencex::languages::cuts::{insert_boundary, push_if_increasing};
use sentencex::languages::ranges::{SkippableRange, SkippableRangeType};
use sentencex::order::sort;
use sentencex::text::{
    behind, byte_len, ceil_char_boundary, ends_with, find_all, first_char, floor_char_boundary,
    has_at, head, last_char, piece, pop_back, pop_front, same, starts_with, step, step_back, tail,
    trim_back, trim_front, word_back, word_front,
};
use sentencex::words::{parse_word_list, trim, word_is_among, WordSet};

#[test]
fn pieces() {
    let text = "aé日b";
    assert_eq!(byte_len(text), 7);
    assert_eq!(head(text, 3), "aé");
    assert_eq!(tail(text, 3), "日b");
    assert_eq!(piece(text, 1, 6), "é日");
    assert_eq!(behind(text, "aé", 0), "日b");
    assert_eq!(step(text, 1), ('é', 3));
    assert_eq!(step_back(text, 6), ('日', 3));
    assert_eq!(first_char(text), Some('a'));
    assert_eq!(last_char(text), Some('b'));
    assert_eq!(first_char(""), None);
    assert_eq!(last_char(""), None);
    assert_eq!(pop_front("éx"), Some(('é', "x")));
    assert_eq!(pop_back("xé"), Some(("x", 'é')));
    assert_eq!(pop_front(""), None);
    assert_eq!(pop_back(""), None);
}

#[test]
fn cuts_around_positions() {
    let text = "aé日";
    assert_eq!(floor_char_boundary(text, 2), 1);
    assert_eq!(floor_char_boundary(text, 3), 3);
    assert_eq!(floor_char_boundary(text, 5), 3);
    assert_eq!(floor_char_boundary(text, 99), 6);
    assert_eq!(ceil_char_boundary(text, 2), 3);
    assert_eq!(ceil_char_boundary(text, 4), 6);
    assert_eq!(ceil_char_boundary(text, 99), 6);
    assert_eq!(ceil_char_boundary(text, 0), 0);
}

#[test]
fn occurrences_do_not_overlap() {
    assert_eq!(find_all("aaaa", "aa"), vec![0, 2]);
    assert_eq!(find_all("''' '", "''"), vec![0]);
    assert_eq!(find_all("x", "'"), vec![]);
    assert!(has_at("abc", "bc", 1));
    assert!(!has_at("abc", "bc", 2));
    assert!(!has_at("abc", "c", usize::MAX));
    assert!(starts_with("abc", "ab"));
    assert!(ends_with("abc", "bc"));
    assert!(!ends_with("c", "bc"));
    assert!(same("é", "é"));
    assert!(!same("é", "e"));
}

#[test]
fn trimming() {
    assert_eq!(trim("\u{3000} a b \t\n"), "a b");
    assert_eq!(trim_front::<HorizontalSpace>(" \t\na"), "\na");
    assert_eq!(trim_back::<ClockDigit>("at 9:30"), "at ");
    assert_eq!(trim_front::<SentenceMark>("?!x."), "x.");
    assert_eq!(word_back::<NameSeparator>("a/b.c"), "c");
    assert_eq!(word_front::<White>("ab cd"), "ab");
    for c in '\0'..='\u{10FFFF}' {
        assert_eq!(is_white_space(c), c.is_whitespace(), "{:?}", c);
    }
}

#[test]
fn terminators_and_exclamations() {
    for c in "!.?。｡։؟۔".chars() {
        assert!(is_terminator(c), "{c}");
    }
    for c in "a,;: \n".chars() {
        assert!(!is_terminator(c), "{c}");
    }
    assert!(is_exclamation_word("Yahoo!"));
    assert!(!is_exclamation_word("Yahoo"));
}

#[test]
fn word_lists() {
    let set = parse_word_list(&["// comment\r\n  Dr \r\n\r\nMr", "Mr\n//Ms\nét. al"]);
    assert!(set.contains("Dr"));
    assert!(set.contains("Mr"));
    assert!(set.contains("ét. al"));
    assert!(!set.contains("Ms"));
    assert!(!set.contains("//Ms"));
    assert!(!set.contains(""));
    assert!(!set.is_empty());
    assert!(parse_word_list(&["", "\n\n", "// x"]).is_empty());
    assert!(parse_word_list(&[]).is_empty());
}

#[test]
fn reading_twice_and_in_another_order() {
    let once = parse_word_list(&["a\nb"]);
    let twice = parse_word_list(&["a\nb", "a\nb"]);
    assert_eq!(format!("{:?}", once), format!("{:?}", twice));
    let there = parse_word_list(&["a\nb", "c"]);
    let back = parse_word_list(&["c", "a\nb"]);
    for w in ["a", "b", "c", "d"] {
        assert_eq!(there.contains(w), back.contains(w));
    }
}

#[test]
fn word_sets() {
    let set = WordSet::new();
    assert!(set.is_empty());
    let set = set.with("a").with("a").with_all(&["b", "c"]).with_all_raised(&["ii", "é"]);
    for w in ["a", "b", "c", "II", "É"] {
        assert!(set.contains(w), "{w}");
    }
    assert!(!set.contains("ii"));
    let copy = set.clone();
    assert!(copy.contains("II") && !copy.contains("x"));
    assert!(word_is_among(&["x", "y"], "y"));
    assert!(!word_is_among(&["x", "y"], "z"));
}

#[test]
fn sorting() {
    let at = |start: usize, end: usize| SkippableRange::new(start, end, SkippableRangeType::Email);
    let mut v = vec![at(3, 9), at(1, 5), at(3, 4), at(0, 7)];
    sort(&mut v);
    let spans: Vec<(usize, usize)> = v.iter().map(|r| (r.start, r.end)).collect();
    assert_eq!(spans, vec![(0, 7), (1, 5), (3, 9), (3, 4)]);
    sort(&mut v);
    let again: Vec<(usize, usize)> = v.iter().map(|r| (r.start, r.end)).collect();
    assert_eq!(again, spans);
}

#[test]
fn boundaries_increase() {
    let mut v: Vec<usize> = vec![0, 5];
    push_if_increasing(&mut v, 5);
    push_if_increasing(&mut v, 3);
    assert_eq!(v, vec![0, 5]);
    push_if_increasing(&mut v, 9);
    insert_boundary(&mut v, 7);
    insert_boundary(&mut v, 5);
    insert_boundary(&mut v, 0);
    insert_boundary(&mut v, 11);
    assert_eq!(v, vec![0, 5, 7, 9, 11]);
}
