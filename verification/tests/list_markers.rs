use sentencex::languages::list_markers::detect_list_items;

fn detect(s: &str) -> Vec<usize> {
    detect_list_items(s)
}

// Line-start cases.

#[test]
fn line_start_unicode_bullets() {
    // `•` is 3 UTF-8 bytes, so "• apples\n" is 11 bytes.
    assert_eq!(detect("• apples\n• oranges\n"), vec![0, 11]);
}

#[test]
fn line_start_ascii_bullets() {
    assert_eq!(detect("* one\n* two\n* three\n"), vec![0, 6, 12]);
}

#[test]
fn line_start_numeric() {
    assert_eq!(detect("1. apples\n2) oranges\n"), vec![0, 10]);
}

#[test]
fn line_start_roman() {
    assert_eq!(detect("ii. First\niii. Second\n"), vec![0, 10]);
}

#[test]
fn line_start_paren_form_single() {
    // Tier 1 fires on a single line-start match.
    assert_eq!(detect("(a) only one item here\n"), vec![0]);
}

#[test]
fn line_start_intro_then_bullets() {
    assert_eq!(
        detect("Here are the rules:\n* Be kind.\n* Be honest.\n"),
        vec![20, 31]
    );
}

// Inline cases.

#[test]
fn inline_numeric_dot_paren() {
    // 1.) ... 2.)
    let starts = detect("1.) The first item. 2.) The second item.");
    assert_eq!(starts, vec![0, 20]);
}

#[test]
fn inline_numeric_paren_only() {
    // 1) ... 2) (no dots)
    let starts = detect("1) The first item 2) The second item");
    assert_eq!(starts, vec![0, 18]);
}

#[test]
fn inline_numeric_dot_only_not_handled() {
    // Deliberately NOT split: bare-dot closer (`1.` / `2.`) inline is
    // ambiguous with a wrapped prose sentence ending in `...Foo 1.`.
    // Without semantic context we err on the side of not over-splitting.
    let starts = detect("1. The first item. 2. The second item.");
    assert!(starts.is_empty(), "got {:?}", starts);
}

#[test]
fn inline_letter_dot_not_handled() {
    // Same reasoning: bare-dot closer + lowercase letter is a common
    // initials shape (e. e. cummings) and a common date/abbrev shape.
    let starts = detect("a. The first item b. The second item");
    assert!(starts.is_empty(), "got {:?}", starts);
}

#[test]
fn inline_roman_dot_not_handled() {
    let starts = detect("ii. The first item iii. The second item");
    assert!(starts.is_empty(), "got {:?}", starts);
}

#[test]
fn inline_unicode_bullet_with_decoration() {
    // • 9. ... • 10. — bullets are the items, numerics are decoration.
    let s = "• 9. The first item • 10. The second item";
    let starts = detect(s);
    assert_eq!(starts.len(), 2);
    assert_eq!(starts[0], 0);
    assert_eq!(&s[starts[1]..starts[1] + 3], "•");
}

#[test]
fn inline_year_parens_not_a_list() {
    let s = "Examples include 'Sonar Tari' ( 1894 ), 'Chitra' ( 1896 ), \
             and 'Katha O Kahini' ( 1900 ).";
    assert!(detect(s).is_empty(), "got {:?}", detect(s));
    let s2 = "Works (1894), (1896), and (1900) are notable.";
    assert!(detect(s2).is_empty(), "got {:?}", detect(s2));
}

#[test]
fn inline_letter_dot_paren() {
    // a.) ... b.)
    let starts = detect("a.) The first item b.) The second item");
    assert_eq!(starts, vec![0, 19]);
}

#[test]
fn inline_letter_paren_only() {
    // a) ... b)
    let starts = detect("a) The first item b) The second item");
    assert_eq!(starts, vec![0, 18]);
}

#[test]
fn inline_roman_dot_paren_with_promotion() {
    // i.) ... ii.) — single-letter `i` promoted to Roman because `ii` is Roman.
    let starts = detect("i.) The first item ii.) The second item");
    assert_eq!(starts, vec![0, 19]);
}

// Gap-pruning safety.

#[test]
fn ee_cummings_no_segmentation() {
    // `e. e.` has zero non-marker content between markers → drop the second.
    let starts = detect("From\ne. e. cummings, with love.");
    // No siblings survive after gap pruning, so the LetterDot ≥2 rule fails.
    assert!(starts.is_empty(), "got {:?}", starts);
}

// Shapes that are no lists.

#[test]
fn uppercase_letter_dot_excluded() {
    let starts = detect("Reviewed by\nA. Smith and\nB. Jones.");
    assert!(starts.is_empty(), "got {:?}", starts);
}

#[test]
fn lone_lowercase_letter_dot_no_siblings() {
    let starts = detect("The answer is a.\nFollow up later.");
    assert!(starts.is_empty(), "got {:?}", starts);
}

#[test]
fn lone_numeric_after_wrap() {
    let starts = detect("The total was\n1. Two hundred dollars exactly.");
    assert!(starts.is_empty(), "got {:?}", starts);
}

#[test]
fn eg_at_line_start() {
    let starts = detect("e.g. one\ne.g. two\n");
    assert!(starts.is_empty(), "got {:?}", starts);
}

#[test]
fn marker_only_lines() {
    let starts = detect("*\n*\n*\n");
    assert!(starts.is_empty(), "got {:?}", starts);
}

#[test]
fn no_markers_plain_prose() {
    let starts = detect("Hello world. This is a test. Three sentences here.");
    assert!(starts.is_empty(), "got {:?}", starts);
}

#[test]
fn empty_paragraph() {
    let starts = detect("");
    assert!(starts.is_empty(), "got {:?}", starts);
}

#[test]
fn indented_markers() {
    // Line-start classify_line skips indent; pos still points to line start.
    assert_eq!(detect("   * indented\n   * also indented\n"), vec![0, 14]);
}
