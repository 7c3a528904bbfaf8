//! Sets of words, and the lists that they are read from.

use vstd::prelude::*;
use vstd::string::*;
use vstd::utf8::*;

use crate::case::unicode_upper_case;
use crate::chars::{strip_back, strip_front, White};
use crate::text::{byte_len, has_at, occurs_at, piece, same, trim_back, trim_front};
use crate::utf8::{between, is_cut, lemma_ascii, lemma_cut_ends, lemma_size, size};

verus! {

/// A set of words. No word is held twice.
#[derive(Debug)]
pub struct WordSet {
    words: Vec<String>,
}

impl View for WordSet {
    type V = Set<Seq<char>>;

    closed spec fn view(&self) -> Set<Seq<char>> {
        Set::new(|w: Seq<char>| holds(self.words@, w))
    }
}

/// True when one of `words` is `w`.
spec fn holds(words: Seq<String>, w: Seq<char>) -> bool {
    exists|i: int| 0 <= i < words.len() && (#[trigger] words[i])@ == w
}

impl WordSet {
    #[verifier::type_invariant]
    spec fn no_duplicates(self) -> bool {
        forall|i: int, j: int|
            0 <= i < j < self.words@.len() ==> (#[trigger] self.words@[i])@ != (
            #[trigger] self.words@[j])@
    }

    /// The set without words.
    pub fn new() -> (r: WordSet)
        ensures
            r@ == Set::<Seq<char>>::empty(),
    {
        let r = WordSet { words: Vec::new() };
        assert(r@ =~= Set::<Seq<char>>::empty());
        r
    }

    /// True when `word` is in the set.
    pub fn contains(&self, word: &str) -> (r: bool)
        ensures
            r == self@.contains(word@),
    {
        let mut i: usize = 0;
        while i < self.words.len()
            invariant
                i <= self.words@.len(),
                forall|j: int| 0 <= j < i ==> (#[trigger] self.words@[j])@ != word@,
            decreases self.words@.len() - i,
        {
            if same(self.words[i].as_str(), word) {
                assert(self.words@[i as int]@ == word@);
                return true;
            }
            i += 1;
        }
        false
    }

    /// True when the set has no words.
    pub fn is_empty(&self) -> (r: bool)
        ensures
            r <==> self@ == Set::<Seq<char>>::empty(),
    {
        let r: bool = self.words.len() == 0;
        proof {
            if r {
                assert(self@ =~= Set::<Seq<char>>::empty());
            } else {
                assert(self@.contains(self.words@[0]@));
            }
        }
        r
    }

    /// The set with one more word.
    pub fn with(self, word: &str) -> (r: WordSet)
        ensures
            r@ == self@.insert(word@),
    {
        proof {
            use_type_invariant(&self);
        }
        let ghost was = self@;
        if self.contains(word) {
            assert(was.insert(word@) =~= was);
            return self;
        }
        let mut words = self.words;
        let ghost old_words = words@;
        assert(forall|j: int| 0 <= j < old_words.len() ==> (#[trigger] old_words[j])@ != word@);
        words.push(word.to_owned());
        let r = WordSet { words };
        proof {
            assert forall|w: Seq<char>| r@.contains(w) <==> was.insert(word@).contains(w) by {
                if holds(old_words, w) {
                    let i = choose|i: int|
                        0 <= i < old_words.len() && (#[trigger] old_words[i])@ == w;
                    assert(r.words@[i]@ == w);
                }
                assert(r.words@[old_words.len() as int]@ == word@);
                if holds(r.words@, w) && w != word@ {
                    let i = choose|i: int|
                        0 <= i < r.words@.len() && (#[trigger] r.words@[i])@ == w;
                    assert(old_words[i]@ == w);
                }
            }
            assert(r@ =~= was.insert(word@));
        }
        r
    }
}

/// True when `w` is one of `words`.
pub open spec fn is_among(words: Seq<&str>, w: Seq<char>) -> bool {
    exists|i: int| 0 <= i < words.len() && (#[trigger] words[i])@ == w
}

/// True when `words` has the word `w`.
pub fn word_is_among(words: &[&str], w: &str) -> (r: bool)
    ensures
        r == is_among(words@, w@),
{
    let mut i: usize = 0;
    while i < words.len()
        invariant
            i <= words@.len(),
            forall|j: int| 0 <= j < i ==> (#[trigger] words@[j])@ != w@,
        decreases words@.len() - i,
    {
        if same(words[i], w) {
            assert(words@[i as int]@ == w@);
            return true;
        }
        i += 1;
    }
    false
}

/// The set of `words`.
pub open spec fn set_of(words: Seq<&str>) -> Set<Seq<char>> {
    Set::new(|w: Seq<char>| is_among(words, w))
}

/// The set of `words`, put in upper case.
pub open spec fn raised_set_of(words: Seq<&str>) -> Set<Seq<char>> {
    Set::new(
        |w: Seq<char>|
            exists|i: int| 0 <= i < words.len() && unicode_upper_case((#[trigger] words[i])@) == w,
    )
}

impl WordSet {
    /// The set with more words.
    pub fn with_all(self, words: &[&str]) -> (r: WordSet)
        ensures
            r@ == self@.union(set_of(words@)),
    {
        let ghost was = self@;
        let mut r = self;
        let mut i: usize = 0;
        proof {
            assert(r@ =~= was.union(set_of(words@.take(0))));
        }
        while i < words.len()
            invariant
                i <= words@.len(),
                r@ == was.union(set_of(words@.take(i as int))),
            decreases words@.len() - i,
        {
            r = r.with(words[i]);
            proof {
                let a = words@.take(i as int);
                let b = words@.take(i + 1);
                assert forall|w: Seq<char>| is_among(b, w) <==> is_among(a, w) || w
                    == words@[i as int]@ by {
                    if is_among(a, w) {
                        let k = choose|k: int| 0 <= k < a.len() && (#[trigger] a[k])@ == w;
                        assert(b[k]@ == w);
                    }
                    assert(b[i as int] == words@[i as int]);
                    if is_among(b, w) && w != words@[i as int]@ {
                        let k = choose|k: int| 0 <= k < b.len() && (#[trigger] b[k])@ == w;
                        assert(a[k]@ == w);
                    }
                }
                assert(r@ =~= was.union(set_of(b)));
            }
            i += 1;
        }
        proof {
            assert(words@.take(i as int) =~= words@);
        }
        r
    }

    /// The set with more words, put in upper case.
    pub fn with_all_raised(self, words: &[&str]) -> (r: WordSet)
        ensures
            r@ == self@.union(raised_set_of(words@)),
    {
        let ghost was = self@;
        let mut r = self;
        let mut i: usize = 0;
        proof {
            assert(r@ =~= was.union(raised_set_of(words@.take(0))));
        }
        while i < words.len()
            invariant
                i <= words@.len(),
                r@ == was.union(raised_set_of(words@.take(i as int))),
            decreases words@.len() - i,
        {
            let word: String = words[i].to_uppercase();
            r = r.with(word.as_str());
            proof {
                let a = words@.take(i as int);
                let b = words@.take(i + 1);
                assert forall|w: Seq<char>| raised_set_of(b).contains(w) <==> raised_set_of(
                    a,
                ).contains(w) || w == word@ by {
                    if raised_set_of(a).contains(w) {
                        let k = choose|k: int|
                            0 <= k < a.len() && unicode_upper_case((#[trigger] a[k])@) == w;
                        assert(unicode_upper_case(b[k]@) == w);
                    }
                    assert(b[i as int] == words@[i as int]);
                    if raised_set_of(b).contains(w) && w != word@ {
                        let k = choose|k: int|
                            0 <= k < b.len() && unicode_upper_case((#[trigger] b[k])@) == w;
                        assert(unicode_upper_case(a[k]@) == w);
                    }
                }
                assert(r@ =~= was.union(raised_set_of(b)));
            }
            i += 1;
        }
        proof {
            assert(words@.take(i as int) =~= words@);
        }
        r
    }
}

impl Clone for WordSet {
    fn clone(&self) -> (r: Self)
        ensures
            r@ == self@,
    {
        let mut r = WordSet::new();
        let mut i: usize = 0;
        while i < self.words.len()
            invariant
                i <= self.words@.len(),
                r@ =~= Set::new(|w: Seq<char>| holds(self.words@.take(i as int), w)),
            decreases self.words@.len() - i,
        {
            let ghost was = self.words@.take(i as int);
            let ghost now = self.words@.take(i + 1);
            r = r.with(self.words[i].as_str());
            proof {
                assert forall|w: Seq<char>| r@.contains(w) <==> holds(now, w) by {
                    if holds(was, w) {
                        let k = choose|k: int| 0 <= k < was.len() && (#[trigger] was[k])@ == w;
                        assert(now[k]@ == w);
                    }
                    assert(now[i as int]@ == self.words@[i as int]@);
                    if holds(now, w) && w != self.words@[i as int]@ {
                        let k = choose|k: int| 0 <= k < now.len() && (#[trigger] now[k])@ == w;
                        assert(was[k]@ == w);
                    }
                }
            }
            i += 1;
        }
        proof {
            assert(self.words@.take(i as int) =~= self.words@);
            assert(r@ =~= self@);
        }
        r
    }
}

/// `s` without the white space at its ends.
pub open spec fn trimmed(s: Seq<char>) -> Seq<char> {
    strip_back::<White>(strip_front::<White>(s))
}

/// `text` without the white space at its ends.
pub fn trim<'a>(text: &'a str) -> (r: &'a str)
    ensures
        r@ == trimmed(text@),
{
    trim_back::<White>(trim_front::<White>(text))
}

/// The line feed.
pub const LINE_FEED: u8 = 0x0a;

/// True when the bytes of `t` from `a` to `b` are a line, without its line feed.
pub open spec fn is_line(t: Seq<char>, a: int, b: int) -> bool {
    let bytes = encode_utf8(t);
    &&& 0 <= a <= b <= bytes.len()
    &&& a == 0 || bytes[a - 1] == LINE_FEED
    &&& b == bytes.len() || bytes[b] == LINE_FEED
    &&& forall|i: int| a <= i < b ==> #[trigger] bytes[i] != LINE_FEED
}

/// True when a trimmed line holds an entry: it is not empty and no comment.
pub open spec fn is_entry(w: Seq<char>) -> bool {
    w.len() > 0 && !occurs_at(w, "//"@, 0)
}

/// True when the list `t` has the entry `w` on a line of its own.
pub open spec fn lists(t: Seq<char>, w: Seq<char>) -> bool {
    is_entry(w) && exists|a: int, b: int| #[trigger] is_line(t, a, b) && trimmed(between(t, a, b)) == w
}

/// The words that the lists `texts` hold: one to a line, without the white space
/// around it. Empty lines and lines that start with `//` hold none.
pub open spec fn listed(texts: Seq<&str>) -> Set<Seq<char>> {
    Set::new(|w: Seq<char>| exists|i: int| 0 <= i < texts.len() && lists((#[trigger] texts[i])@, w))
}

/// The entries of `t` on lines that start before `end`.
spec fn listed_before(t: Seq<char>, end: int) -> Set<Seq<char>> {
    Set::new(
        |w: Seq<char>|
            is_entry(w) && exists|a: int, b: int|
                a < end && #[trigger] is_line(t, a, b) && trimmed(between(t, a, b)) == w,
    )
}

pub proof fn lemma_line_cuts(t: Seq<char>, a: int, b: int)
    requires
        is_line(t, a, b),
    ensures
        is_cut(t, a),
        is_cut(t, b),
{
    lemma_cut_ends(t);
    if a > 0 {
        lemma_ascii(t, a - 1);
    }
    if b < size(t) {
        lemma_ascii(t, b);
    }
}

/// Adds the words of one list to `set`.
fn add_list(set: WordSet, text: &str) -> (r: WordSet)
    ensures
        r@ == set@.union(Set::new(|w: Seq<char>| lists(text@, w))),
{
    let ghost before = set@;
    let mut set = set;
    let bytes = text.as_bytes();
    let n: usize = bytes.len();
    let mut start: usize = 0;
    let mut more: bool = true;
    proof {
        assert(set@ =~= before.union(listed_before(text@, 0))) by {
            assert(forall|a: int, b: int| is_line(text@, a, b) ==> 0 <= a);
        }
    }
    while more
        invariant
            n == bytes@.len(),
            bytes@ == encode_utf8(text@),
            start <= n,
            more ==> start == 0 || bytes@[start - 1] == LINE_FEED,
            more ==> set@ =~= before.union(listed_before(text@, start as int)),
            !more ==> set@ =~= before.union(Set::new(|w: Seq<char>| lists(text@, w))),
        decreases n - start + if more { 1int } else { 0 },
    {
        let mut end: usize = start;
        while end < n && bytes[end] != LINE_FEED
            invariant
                n == bytes@.len(),
                start <= end <= n,
                forall|i: int| start <= i < end ==> #[trigger] bytes@[i] != LINE_FEED,
            decreases n - end,
        {
            end += 1;
        }
        proof {
            assert(is_line(text@, start as int, end as int));
            lemma_line_cuts(text@, start as int, end as int);
        }
        let word = trim(piece(text, start, end));
        let comment: bool = has_at(word, "//", 0);
        let ghost was = set@;
        if byte_len(word) > 0 && !comment {
            set = set.with(word);
        }
        proof {
            lemma_size(word@);
            assert(set@ =~= if is_entry(word@) {
                was.insert(word@)
            } else {
                was
            });
            // Only the line from `start` to `end` starts in between.
            assert forall|a: int, b: int|
                start <= a && #[trigger] is_line(text@, a, b) && a <= end implies a == start && b
                == end by {
                if a > start {
                    assert(bytes@[a - 1] != LINE_FEED);
                } else if b < end {
                    assert(bytes@[b] != LINE_FEED);
                } else if b > end {
                    assert(bytes@[end as int] != LINE_FEED);
                }
            }
            let next = end + 1;
            assert forall|w: Seq<char>| set@.contains(w) <==> before.contains(w) || listed_before(
                text@,
                next,
            ).contains(w) by {
                if w == word@ && is_entry(w) {
                    assert(start < next && is_line(text@, start as int, end as int));
                }
                if listed_before(text@, start as int).contains(w) {
                    let (a, b) = choose|a: int, b: int|
                        a < start && #[trigger] is_line(text@, a, b) && trimmed(
                            between(text@, a, b),
                        ) == w;
                    assert(a < next && is_line(text@, a, b));
                }
                if listed_before(text@, next).contains(w) && !listed_before(
                    text@,
                    start as int,
                ).contains(w) {
                    let (a, b) = choose|a: int, b: int|
                        a < next && #[trigger] is_line(text@, a, b) && trimmed(
                            between(text@, a, b),
                        ) == w;
                    assert(start <= a);
                }
            }
            if end == n {
                assert forall|w: Seq<char>| listed_before(text@, next).contains(w) <==> lists(
                    text@,
                    w,
                ) by {
                    if lists(text@, w) {
                        let (a, b) = choose|a: int, b: int| #[trigger]
                            is_line(text@, a, b) && trimmed(between(text@, a, b)) == w;
                        assert(a < next && is_line(text@, a, b));
                    }
                }
            }
        }
        if end < n {
            start = end + 1;
        } else {
            more = false;
        }
    }
    set
}

/// Reads the words of the lists `texts`: one to a line; empty lines and lines that
/// start with `//` hold none.
pub fn parse_word_list(texts: &[&str]) -> (r: WordSet)
    ensures
        r@ == listed(texts@),
{
    let mut set = WordSet::new();
    let mut i: usize = 0;
    proof {
        assert(set@ =~= listed(texts@.take(0)));
    }
    while i < texts.len()
        invariant
            i <= texts@.len(),
            set@ == listed(texts@.take(i as int)),
        decreases texts@.len() - i,
    {
        set = add_list(set, texts[i]);
        proof {
            let was = texts@.take(i as int);
            let now = texts@.take(i + 1);
            assert forall|w: Seq<char>| set@.contains(w) <==> listed(now).contains(w) by {
                if listed(was).contains(w) {
                    let k = choose|k: int| 0 <= k < was.len() && lists((#[trigger] was[k])@, w);
                    assert(lists(now[k]@, w));
                }
                assert(now[i as int] == texts@[i as int]);
                if listed(now).contains(w) && !lists(texts@[i as int]@, w) {
                    let k = choose|k: int| 0 <= k < now.len() && lists((#[trigger] now[k])@, w);
                    assert(lists(was[k]@, w));
                }
            }
            assert(set@ =~= listed(now));
        }
        i += 1;
    }
    proof {
        assert(texts@.take(i as int) =~= texts@);
    }
    set
}

/// Reading a list twice adds nothing.
pub proof fn law_reading_twice_adds_nothing(text: &str)
    ensures
        listed(seq![text, text]) == listed(seq![text]),
{
    assert forall|w: Seq<char>| listed(seq![text, text]).contains(w) <==> listed(
        seq![text],
    ).contains(w) by {
        assert(seq![text, text][0] == text && seq![text, text][1] == text);
        assert(seq![text][0] == text);
    }
    assert(listed(seq![text, text]) =~= listed(seq![text]));
}

/// The order in which lists are read does not matter.
pub proof fn law_order_of_lists_does_not_matter(a: &str, b: &str)
    ensures
        listed(seq![a, b]) == listed(seq![b, a]),
        listed(seq![a, b]) == listed(seq![a]).union(listed(seq![b])),
{
    assert forall|w: Seq<char>|
        {
            &&& listed(seq![a, b]).contains(w) <==> lists(a@, w) || lists(b@, w)
            &&& listed(seq![b, a]).contains(w) <==> lists(a@, w) || lists(b@, w)
            &&& listed(seq![a]).contains(w) <==> lists(a@, w)
            &&& listed(seq![b]).contains(w) <==> lists(b@, w)
        } by {
        assert(seq![a, b][0] == a && seq![a, b][1] == b);
        assert(seq![b, a][0] == b && seq![b, a][1] == a);
        assert(seq![a][0] == a && seq![b][0] == b);
    }
    assert(listed(seq![a, b]) =~= listed(seq![b, a]));
    assert(listed(seq![a, b]) =~= listed(seq![a]).union(listed(seq![b])));
}

} // verus!
