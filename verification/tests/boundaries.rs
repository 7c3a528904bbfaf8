use sentencex::languages::boundary::find_symbol;
use sentencex::languages::list_markers::detect_list_items;
use sentencex::languages::{English, Japanese, Language};
use sentencex::SentenceBoundary;

fn boundaries(text: &str) -> Vec<SentenceBoundary<'_>> {
    English::new().get_sentence_boundaries(text)
}

#[test]
fn fields_of_boundaries() {
    let bs = boundaries("Hi there. Bye!\n\nNew one");
    assert_eq!(bs.len(), 4);
    assert_eq!(bs[0].text, "Hi there. ");
    assert_eq!((bs[0].start_byte, bs[0].end_byte), (0, 10));
    assert_eq!((bs[0].start_index, bs[0].end_index), (0, 10));
    assert_eq!(bs[0].boundary_symbol.as_deref(), Some("."));
    assert!(!bs[0].is_paragraph_break);
    assert_eq!(bs[1].text, "Bye!");
    assert_eq!(bs[1].boundary_symbol.as_deref(), Some("!"));
    assert_eq!(bs[2].text, "\n\n");
    assert!(bs[2].is_paragraph_break);
    assert_eq!((bs[2].start_byte, bs[2].end_byte), (14, 16));
    assert_eq!((bs[2].start_index, bs[2].end_index), (14, 16));
    assert_eq!(bs[2].boundary_symbol, None);
    assert_eq!(bs[3].text, "New one");
    assert_eq!((bs[3].start_byte, bs[3].end_byte), (16, 23));
    assert_eq!(bs[3].boundary_symbol, None);
}

#[test]
fn characters_and_bytes_are_counted_apart() {
    let text = "日本語。次の文。\n\né. End";
    let bs = Japanese::new().get_sentence_boundaries(text);
    assert_eq!(bs[0].text, "日本語。");
    assert_eq!((bs[0].start_byte, bs[0].end_byte), (0, 12));
    assert_eq!((bs[0].start_index, bs[0].end_index), (0, 4));
    assert_eq!((bs[1].start_byte, bs[1].end_byte), (12, 24));
    assert_eq!((bs[1].start_index, bs[1].end_index), (4, 8));
    assert_eq!((bs[2].start_byte, bs[2].end_byte), (24, 26));
    assert_eq!((bs[2].start_index, bs[2].end_index), (8, 10));
    assert_eq!(bs[3].text, "é. ");
    assert_eq!((bs[3].start_byte, bs[3].end_byte), (26, 30));
    assert_eq!((bs[3].start_index, bs[3].end_index), (10, 13));
    for b in &bs {
        assert_eq!(&text[b.start_byte..b.end_byte], b.text);
        assert_eq!(text[..b.start_byte].chars().count(), b.start_index);
        assert_eq!(text[..b.end_byte].chars().count(), b.end_index);
    }
}

#[test]
fn boundaries_adjoin_and_make_up_the_text() {
    let texts = [
        "One. Two! Three? Four",
        "A.\n\nB.\n\n\nC",
        "\n\n\n\n",
        "He said 'no. ' And '' so '' on. (x. y) \"z. w.\" Fin.",
        "1. a b\n2. c d\n\n* x. Y\n* z",
        "…！ 日本。 ok ! . ? . .",
        "a\n\r\nb\n\r\r\n\nc",
        "„x.“ 「y。」 z \"q.\"。\u{3000}Next.",
    ];
    for text in texts {
        let bs = boundaries(text);
        let mut byte = 0;
        let mut index = 0;
        for b in &bs {
            assert_eq!(b.start_byte, byte);
            assert_eq!(b.start_index, index);
            assert!(!b.text.is_empty());
            byte = b.end_byte;
            index = b.end_index;
        }
        assert_eq!(byte, text.len());
        assert_eq!(English::new().segment(text).concat(), text);
    }
}

#[test]
fn one_break_for_each_gap() {
    let bs = boundaries("A.\n\nB.\n\nC.");
    assert_eq!(bs.iter().filter(|b| b.is_paragraph_break).count(), 2);
    assert_eq!(bs.len(), 5);
}

#[test]
fn carriage_returns_between_paragraphs() {
    // A gap is reported as it stands.
    let text = "A\n\r\nB";
    let bs = Japanese::new().get_sentence_boundaries(text);
    assert_eq!(bs.len(), 3);
    assert_eq!(bs[1].text, "\n\r\n");
    assert!(bs[1].is_paragraph_break);
    assert_eq!((bs[1].start_byte, bs[1].end_byte), (1, 4));
    assert_eq!((bs[1].start_index, bs[1].end_index), (1, 4));
    assert_eq!(bs[2].text, "B");
    assert_eq!((bs[2].start_byte, bs[2].end_byte), (4, 5));
    assert_eq!((bs[2].start_index, bs[2].end_index), (4, 5));
    assert_eq!(English::new().segment(text).concat(), text);
    // A carriage return elsewhere changes nothing.
    assert_eq!(English::new().segment("a\r\nb"), vec!["a\r\nb"]);
}

#[test]
fn paragraphs_are_divided_apart() {
    let language = English::new();
    let parts = ["", "One. Two.", "a\n\nb", "\nx. Y", "1. a b\n2. c d", "\r\nz", "Q\n\r\nr."];
    for a in parts {
        for b in parts {
            let text = format!("{a}\n\n{b}");
            let mut expected = language.segment(a);
            expected.push("\n\n");
            expected.extend(language.segment(b));
            assert_eq!(language.segment(&text), expected, "{:?}", text);
        }
    }
}

#[test]
fn items_are_the_sentences() {
    let text = "Before it. Then:\n1. Wash it. Dry it! Now?\n2. Put (all of. It) away. Go.\n";
    let starts = detect_list_items(text);
    assert_eq!(starts, vec![17, 42]);
    let found: Vec<usize> = English::new()
        .get_sentence_boundaries(text)
        .iter()
        .map(|b| b.start_byte)
        .filter(|&start| start >= starts[0])
        .collect();
    assert_eq!(found, starts);
}

#[test]
fn items_with_quotes_are_the_sentences() {
    let language = English::new();
    for text in [
        "1. Don't run. Walk.\n2. It's late. Go.\n",
        "Rules. Read them:\n1. Say \"Stop. Now.\" aloud. Wait.\n2. Don't. Ever.\n",
        "* He said 'no. ' And left.\n* That is all I know.' Really. It is.\n",
    ] {
        let starts = detect_list_items(text);
        assert_eq!(starts.len(), 2);
        let found: Vec<usize> = language
            .get_sentence_boundaries(text)
            .iter()
            .map(|b| b.start_byte)
            .filter(|&start| start >= starts[0])
            .collect();
        assert_eq!(found, starts, "{text}");
    }
    // What trails a quote leads over the start of the first item, which is indented.
    let text = "\"Go.\"\n  * Wash it.\n  * Dry it.\n";
    assert_eq!(detect_list_items(text), vec![6, 19]);
    assert_eq!(language.divide(text), vec![0, 6, 8, 19, 31]);
}

#[test]
fn empty_text() {
    assert!(boundaries("").is_empty());
    assert!(English::new().segment("").is_empty());
}

#[test]
fn empty_paragraphs() {
    assert_eq!(English::new().segment("\n\n"), vec!["\n\n"]);
    assert_eq!(English::new().segment("\n\n\n\na"), vec!["\n\n", "\n\n", "a"]);
}

#[test]
fn text_without_terminators_is_one_sentence() {
    assert_eq!(English::new().segment("no end in sight"), vec!["no end in sight"]);
    assert_eq!(English::new().divide("no end"), vec![0, 6]);
    assert_eq!(English::new().divide(""), vec![0]);
}

#[test]
fn items_start_sentences_and_are_whole() {
    let text = "1. Wash it. Dry it.\n2. Put it away. Now.\n";
    assert_eq!(English::new().divide(text), vec![0, 20, 41]);
}

#[test]
fn symbols() {
    assert_eq!(find_symbol("Hello. ").as_deref(), Some("."));
    assert_eq!(find_symbol("日本。").as_deref(), Some("。"));
    assert_eq!(find_symbol("Hello"), None);
    assert_eq!(find_symbol("  "), None);
}

#[test]
fn clones_do_the_same() {
    let language = English::new().clone();
    assert_eq!(language.segment("Dr. Smith came. He left."), vec!["Dr. Smith came. ", "He left."]);
}

#[test]
fn double_marks_and_single_marks_do_the_same() {
    let single = "' Look at that. It moves. ' he said. They ran.";
    let double = single.replace('\'', "''");
    let a = English::new().segment(single).len();
    let b = English::new().segment(&double).len();
    assert_eq!(a, b);
    assert_eq!(a, 2);
}
