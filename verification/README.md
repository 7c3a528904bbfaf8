# sentencex

Takes texts apart into sentences, for many languages. Its own logic is proved against
contracts with Verus. What the crates `regex` and `memchr` and the standard library's
tables of characters give back is trusted: a few functions state it without proof, and
each says above it what it claims.

    use sentencex::languages::{English, Language};

    let sentences = English::new().segment("Dr. Smith left. He was late.");
    // ["Dr. Smith left. ", "He was late."]

A paragraph is divided at the terminators that end a sentence and at the items of lists.
Abbreviations, initials, times of day, quotes, brackets and addresses of electronic mail
do not divide it. Joined, the sentences and the gaps between paragraphs give back the
text.

- `utf8`, `chars`, `text`, `case`, `words`, `order`: texts as characters and bytes, and
  what is done with them.
- `constants`, `pattern`: the marks, words and regular expressions that all languages
  share. The expressions are matched by the crate `regex`.
- `languages::rules`: what makes a terminator the end of a sentence.
- `languages::language`: the trait `Language`, which does the dividing.
- `languages::ranges`, `phrases`, `terminators`, `cuts`, `list_markers`: its parts.
- `languages::boundary`: sentences and where they stand, and what holds of all of them.
- `languages::lexicon` and `am` to `ta`: the languages.
