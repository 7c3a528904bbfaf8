// The expressions, held against plain scans on all short texts over a few characters.

use sentencex::languages::terminators::find_terminator_matches;
use sentencex::languages::{Japanese, Language};
use sentencex::pattern::Patterns;

/// All texts of up to `n` characters over `alphabet`.
fn all_texts(alphabet: &[char], n: usize) -> Vec<String> {
    let mut all = vec![String::new()];
    let mut last = all.clone();
    for _ in 0..n {
        let mut next = Vec::new();
        for text in &last {
            for &c in alphabet {
                next.push(format!("{text}{c}"));
            }
        }
        all.extend(next.iter().cloned());
        last = next;
    }
    all
}

fn blank(c: char) -> bool {
    c == ' ' || c == '\t'
}

/// How long the groups of blanks and then a mark are at the front of `t`, and their number.
fn groups(t: &[char], marks: &[char]) -> (usize, usize) {
    let (mut length, mut count) = (0, 0);
    loop {
        let n = t[length..].iter().take_while(|&&c| blank(c)).count();
        if n > 0 && length + n < t.len() && marks.contains(&t[length + n]) {
            length += n + 1;
            count += 1;
        } else {
            return (length, count);
        }
    }
}

fn runs(text: &str, terminators: &[char], emphatic: &[char]) -> Vec<(usize, usize)> {
    let t: Vec<char> = text.chars().collect();
    let bytes = |k: usize| t[..k].iter().map(|c| c.len_utf8()).sum::<usize>();
    let mut out: Vec<(usize, usize)> = Vec::new();
    let mut k = 0;
    while k < t.len() {
        if !terminators.contains(&t[k]) {
            k += 1;
            continue;
        }
        let dots = groups(&t[k + 1..], &['.']);
        let spread = groups(&t[k + 1..], emphatic);
        let n = if t[k] == '.' && dots.1 >= 2 {
            1 + dots.0
        } else if emphatic.contains(&t[k]) && spread.1 >= 1 {
            1 + spread.0
        } else {
            t[k..].iter().take_while(|c| terminators.contains(c)).count()
        };
        let joins = n == 1 && t[k] == '.' && out.last().is_some_and(|&(_, end)| {
            let gap = &text[end..bytes(k)];
            text[..end].ends_with(emphatic) && !gap.is_empty() && gap.chars().all(blank)
        });
        if joins {
            out.last_mut().unwrap().1 = bytes(k + n);
        } else {
            out.push((bytes(k), bytes(k + n)));
        }
        k += n;
    }
    out
}

#[test]
fn runs_of_terminators_on_all_short_texts() {
    let patterns = Patterns::new();
    for text in all_texts(&['.', '!', '…', '。', ' ', 'a'], 6) {
        let expected = runs(&text, &['.', '!', '…', '。'], &['!', '…']);
        let found = find_terminator_matches(&text, &patterns.sentence_break);
        assert_eq!(found, expected, "{:?}", text);
    }
}

#[test]
fn gaps_on_all_short_texts() {
    let language = Japanese::new();
    for text in all_texts(&['\n', '\r', 'é'], 7) {
        let bytes = text.as_bytes();
        let mut expected = Vec::new();
        let mut at = 0;
        while at < bytes.len() {
            let n = bytes[at + 1..].iter().take_while(|&&b| b == b'\r').count();
            if bytes[at] == b'\n' && bytes.get(at + 1 + n) == Some(&b'\n') {
                expected.push((at, at + n + 2));
                at += n + 2;
            } else {
                at += 1;
            }
        }
        let bs = language.get_sentence_boundaries(&text);
        let found: Vec<(usize, usize)> = bs
            .iter()
            .filter(|b| b.is_paragraph_break)
            .map(|b| (b.start_byte, b.end_byte))
            .collect();
        assert_eq!(found, expected, "{:?}", text);
        assert_eq!(bs.iter().map(|b| b.text).collect::<String>(), text);
    }
}

#[test]
fn references_on_all_short_texts() {
    let language = Japanese::new();
    for rest in all_texts(&['[', '1', ']', 'A'], 7) {
        let t: Vec<char> = rest.chars().collect();
        let mut length = 0;
        loop {
            let n = t[(length + 1).min(t.len())..].iter().take_while(|&&c| c == '1').count();
            let closes = t.get(length) == Some(&'[') && n > 0 && t.get(length + n + 1) == Some(&']');
            if !closes {
                break;
            }
            length += n + 2;
        }
        let text = format!("Ab.{rest}");
        let found = language.find_boundary(&text, 2, 3);
        if length > 0 {
            assert_eq!(found, Some(3 + length), "{text}");
        } else {
            assert!(found.is_none() || found == Some(3), "{text}");
        }
    }
}
