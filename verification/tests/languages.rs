use sentencex::languages::{
    Amharic, Arabic, Bulgarian, English, Japanese, Kannada, Language, Polish, Portuguese, Punjabi,
    Tamil,
};

/// Runs the cases in `raw`. Cases are parted by `===`, the input of a case from its
/// sentences by `---`, and lines that start with `#` are comments. White space is
/// compared as single spaces, and `\n` stands for a line feed.
fn run_language_tests<T: Language>(language: T, name: &str, raw: &str) -> usize {
    let content = raw.replace("\r\n", "\n");
    let mut cases = 0;
    for case in content.split("===") {
        let cleaned: String = case
            .lines()
            .filter(|line| !line.trim_start().starts_with('#'))
            .collect::<Vec<_>>()
            .join("\n");
        let cleaned = cleaned.trim();
        if cleaned.is_empty() {
            continue;
        }
        let parts: Vec<&str> = cleaned
            .split("---")
            .map(|part| part.trim())
            .filter(|part| !part.is_empty())
            .collect();
        if parts.len() != 2 {
            continue;
        }
        let decode = |s: &str| s.replace("\\n", "\n");
        let normalise = |s: &str| s.split_whitespace().collect::<Vec<_>>().join(" ");
        let input = decode(parts[0]);
        let expected: Vec<String> = parts[1]
            .lines()
            .map(decode)
            .map(|s| normalise(&s))
            .filter(|s| !s.is_empty())
            .collect();
        let result = language.segment(&input);
        let actual: Vec<String> = result
            .iter()
            .map(|item| normalise(item))
            .filter(|s| !s.is_empty())
            .collect();
        assert_eq!(actual, expected, "{name}: failed for input: \n{}", input);
        assert_eq!(result.concat(), input, "{name}: lost text of input: \n{}", input);
        cases += 1;
    }
    cases
}

const AM: &str = "
እንደምን አለህ። እኔ ደህና ነኝ።
---
እንደምን አለህ።
እኔ ደህና ነኝ።
===
ስምህ ማን ነው፧ ስሜ አበበ ነው።
---
ስምህ ማን ነው፧
ስሜ አበበ ነው።
===
# An abbreviation ends no sentence.
በ1990 ዓ.ም. ተወለደ።
---
በ1990 ዓ.ም. ተወለደ።
";

#[test]
fn am_test_segment() {
    assert_eq!(run_language_tests(Amharic::new(), "tests/am.txt", AM), 3);
}

const AR: &str = "
ذهب الولد إلى المدرسة. عاد إلى البيت.
---
ذهب الولد إلى المدرسة.
عاد إلى البيت.
===
كيف حالك؟ أنا بخير.
---
كيف حالك؟
أنا بخير.
===
# Arabic and English abbreviations.
وصل د. أحمد مع Dr. Smith اليوم.
---
وصل د. أحمد مع Dr. Smith اليوم.
";

#[test]
fn ar_test_segment() {
    assert_eq!(run_language_tests(Arabic::new(), "tests/ar.txt", AR), 3);
}

const BG: &str = "
Това е изречение. Това е второ изречение.
---
Това е изречение.
Това е второ изречение.
===
Срещнах проф. Иванов вчера. Той беше зает!
---
Срещнах проф. Иванов вчера.
Той беше зает!
";

#[test]
fn bg_test_segment() {
    assert_eq!(run_language_tests(Bulgarian::new(), "tests/bg.txt", BG), 2);
}

const EN: &str = "
This is a sentence. This is another one.
---
This is a sentence.
This is another one.
===
# Abbreviations.
Dr. Smith met Prof. Johnson at the embassy. They talked, etc. and left.
---
Dr. Smith met Prof. Johnson at the embassy.
They talked, etc. and left.
===
# In upper case too.
DR. Smith left. They sold boats, ETC. Mrs. Davis stayed in the u.s. Army.
---
DR. Smith left.
They sold boats, ETC. Mrs. Davis stayed in the u.s. Army.
===
# A word that opens sentences overrides an abbreviation.
They came from Penn. The trip was long.
---
They came from Penn.
The trip was long.
===
They sold cars, boats, etc. The shop closed.
---
They sold cars, boats, etc.
The shop closed.
===
It counts w.e.f. The rule is old.
---
It counts w.e.f.
The rule is old.
===
# Initials.
J. R. R. Tolkien wrote it. George W. Bush read it.
---
J. R. R. Tolkien wrote it.
George W. Bush read it.
===
# Times of day.
He left at 6 p.m. Mr. Smith stayed.
---
He left at 6 p.m.
Mr. Smith stayed.
===
At 5 a.m. Mr. Smith woke up.
---
At 5 a.m. Mr. Smith woke up.
===
# Names with an exclamation mark.
He works for Yahoo! Inc and likes it.
---
He works for Yahoo! Inc and likes it.
===
Hey! You there. Wow! It works.
---
Hey! You there.
Wow! It works.
===
# Reference numbers.
This is known.[1][2] That is not.
---
This is known.[1][2]
That is not.
===
# Chess.
He played 7.Bg5 and won.
---
He played 7.Bg5 and won.
===
# Ellipses.
I mean... nothing. Well. . . I see.
---
I mean... nothing.
Well. . . I see.
===
I mean...see what I mean. Then... Go!
---
I mean...see what I mean.
Then...
Go!
===
# Runs of marks.
What ! ? is this. Bravo ! . Go on.
---
What ! ? is this.
Bravo ! .
Go on.
===
# A comma goes on.
He asked Mr. X., the boss. Fine.
---
He asked Mr. X., the boss.
Fine.
===
# Quotes.
He said \"Stop. Now.\" and left. She stayed.
---
He said \"Stop. Now.\" and left.
She stayed.
===
He said \"Stop.\" She stayed.
---
He said \"Stop.\"
She stayed.
===
' Here we go again. ' he said. They went.
---
' Here we go again. ' he said.
They went.
===
# Orphan closers.
That is all I know.' He left.
---
That is all I know.'
He left.
===
That is all I know. '' . He left.
---
That is all I know. '' .
He left.
===
What is it, eh, boy? ' he said. Then he left.
---
What is it, eh, boy? ' he said.
Then he left.
===
# Brackets and addresses.
It works (I think. Really.) and more. Mail me at a.b@example.com. Thanks.
---
It works (I think. Really.) and more.
Mail me at a.b@example.com.
Thanks.
===
# Paragraphs.
One.\\n\\nTwo. Three.
---
One.
Two.
Three.
===
# No terminator.
Hello world
---
Hello world
";

#[test]
fn en_test_segment() {
    assert_eq!(run_language_tests(English::new(), "tests/en.txt", EN), 26);
}

const JA: &str = "
今日は晴れです。明日は雨です。
---
今日は晴れです。
明日は雨です。
===
これは何ですか？知りません！
---
これは何ですか？
知りません！
===
# A terminator and a wide space behind a quote belong to it.
彼は「行く。」。　次の文。
---
彼は「行く。」。
次の文。
===
# Nothing shows that the sentence goes on behind the quote.
彼は「行く。待って。」と言った。終わり。
---
彼は「行く。待って。」
と言った。
終わり。
";

#[test]
fn ja_test_segment() {
    assert_eq!(run_language_tests(Japanese::new(), "tests/ja.txt", JA), 4);
}

const KN: &str = "
ಇದು ಒಂದು ವಾಕ್ಯ. ಇದು ಇನ್ನೊಂದು.
---
ಇದು ಒಂದು ವಾಕ್ಯ.
ಇದು ಇನ್ನೊಂದು.
===
ಡಾ. ರಾಜ್ ಬಂದರು. Mr. Rao ಹೋದರು.
---
ಡಾ. ರಾಜ್ ಬಂದರು.
Mr. Rao ಹೋದರು.
";

#[test]
fn kn_test_segment() {
    assert_eq!(run_language_tests(Kannada::new(), "tests/kn.txt", KN), 2);
}

const PA: &str = "
ਇਹ ਇੱਕ ਵਾਕ ਹੈ। ਇਹ ਦੂਜਾ ਹੈ।
---
ਇਹ ਇੱਕ ਵਾਕ ਹੈ।
ਇਹ ਦੂਜਾ ਹੈ।
===
ਡਾ. ਸਿੰਘ ਆਏ। Mr. Singh ਗਏ।
---
ਡਾ. ਸਿੰਘ ਆਏ।
Mr. Singh ਗਏ।
";

#[test]
fn pa_test_segment() {
    assert_eq!(run_language_tests(Punjabi::new(), "tests/pa.txt", PA), 2);
}

const PL: &str = "
To jest zdanie. To jest drugie.
---
To jest zdanie.
To jest drugie.
===
Spotkał prof. Kowalskiego przy ul. Długiej. Wrócił późno.
---
Spotkał prof. Kowalskiego przy ul. Długiej.
Wrócił późno.
";

#[test]
fn pl_test_segment() {
    assert_eq!(run_language_tests(Polish::new(), "tests/pl.txt", PL), 2);
}

const PT: &str = "
Esta é uma frase. Esta é outra.
---
Esta é uma frase.
Esta é outra.
===
O Dr. Silva chegou. A Sra. Costa saiu.
---
O Dr. Silva chegou.
A Sra. Costa saiu.
===
# Roman numerals, in lower and in upper case.
Veja a parte iv. Depois leia o tomo XIX. Fim
---
Veja a parte iv. Depois leia o tomo XIX. Fim
";

#[test]
fn pt_test_segment() {
    assert_eq!(run_language_tests(Portuguese::new(), "tests/pt.txt", PT), 3);
}

const TA: &str = "
இது ஒரு வாக்கியம். இது இரண்டாவது.
---
இது ஒரு வாக்கியம்.
இது இரண்டாவது.
===
# Initials: a vowel, a consonant, a syllable.
அ. முத்து வந்தார். ம. ராஜா வந்தார். கி. கண்ணன் போனார்.
---
அ. முத்து வந்தார்.
ம. ராஜா வந்தார்.
கி. கண்ணன் போனார்.
";

#[test]
fn ta_test_segment() {
    assert_eq!(run_language_tests(Tamil::new(), "tests/ta.txt", TA), 2);
}

const LISTS: &str = "
1. Wash it. Dry it.\\n2. Put it away.\\n
---
1. Wash it. Dry it.
2. Put it away.
===
Here are the rules:\\n* Be kind.\\n* Be honest. Always.\\n
---
Here are the rules:
* Be kind.
* Be honest. Always.
===
(a) only one item here
---
(a) only one item here
";

#[test]
fn segments_lists() {
    assert_eq!(run_language_tests(English::new(), "tests/lists.txt", LISTS), 3);
}

#[test]
fn run_language_tests_handles_crlf_fixtures() {
    let lf_content = "\
Hello world. This is a test.
---
Hello world.
This is a test.
===
Multi line sentence
we should not split this
---
Multi line sentence we should not split this
===
";
    let crlf_content = lf_content.replace('\n', "\r\n");
    assert_eq!(run_language_tests(English::new(), "crlf", &crlf_content), 2);
}
