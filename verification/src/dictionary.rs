//! The dictionary of the bitset generator: the distinct words of a word
//! list.
//!
//! Each line of the word list gives one word: the line without the
//! whitespace around it, in lower case. A word that several lines give is
//! kept once. A blank line gives the empty word.

use vstd::prelude::*;
use vstd::utf8::encode_utf8;
use crate::fnv32::{fnv32_fold, hash_bytes, FNV32_OFFSET_BASIS};

verus! {

/// The text without the whitespace at its two ends, as `str::trim_matches`
/// gives it for `char::is_whitespace`.
pub uninterp spec fn trimmed(text: Seq<char>) -> Seq<char>;

/// The lower-case form of the text, as `str::to_lowercase` gives it.
pub uninterp spec fn lowercased(text: Seq<char>) -> Seq<char>;

/// `str::trim_matches` with `char::is_whitespace`: the slice of the text
/// between its leading and its trailing whitespace.
#[verifier::external_body]
fn trim_whitespace(text: &str) -> (inner: &str)
    ensures
        inner@ == trimmed(text@),
{
    text.trim_matches(char::is_whitespace)
}

/// `str::to_lowercase`: the lower-case equivalent of the text, as a new
/// string.
#[verifier::external_body]
fn to_lowercase(text: &str) -> (lower: String)
    ensures
        lower@ == lowercased(text@),
{
    text.to_lowercase()
}

/// The word that a line of the word list gives.
pub open spec fn normalized(line: Seq<char>) -> Seq<char> {
    lowercased(trimmed(line))
}

/// The words of the lines, one for each line.
pub open spec fn normalized_lines(lines: Seq<String>) -> Seq<Seq<char>> {
    Seq::new(lines.len(), |i: int| normalized(lines[i]@))
}

/// The distinct words of a sequence, each at the place of its first
/// occurrence.
pub open spec fn distinct(words: Seq<Seq<char>>) -> Seq<Seq<char>>
    decreases words.len(),
{
    if words.len() == 0 {
        Seq::empty()
    } else {
        let front = distinct(words.drop_last());
        if front.contains(words.last()) {
            front
        } else {
            front.push(words.last())
        }
    }
}

/// The texts of a list of strings.
pub open spec fn texts(words: Seq<String>) -> Seq<Seq<char>> {
    Seq::new(words.len(), |i: int| words[i]@)
}

/// The distinct words hold every word of the sequence, hold nothing else,
/// and hold nothing twice.
pub proof fn lemma_distinct(words: Seq<Seq<char>>)
    ensures
        forall|w: Seq<char>| distinct(words).contains(w) <==> words.contains(w),
        distinct(words).no_duplicates(),
    decreases words.len(),
{
    if words.len() > 0 {
        let front_words = words.drop_last();
        let last = words.last();
        lemma_distinct(front_words);
        let front = distinct(front_words);
        assert forall|w: Seq<char>| distinct(words).contains(w) <==> words.contains(w) by {
            if words.contains(w) {
                let k = choose|k: int| 0 <= k < words.len() && words[k] == w;
                if k < front_words.len() {
                    assert(front_words[k] == w);
                    assert(front_words.contains(w));
                    assert(front.contains(w));
                    if !front.contains(last) {
                        let j = choose|j: int| 0 <= j < front.len() && front[j] == w;
                        assert(front.push(last)[j] == w);
                    }
                } else {
                    assert(w == last);
                    if !front.contains(last) {
                        assert(front.push(last)[front.len() as int] == last);
                    }
                }
            }
            if distinct(words).contains(w) {
                let j = choose|j: int| 0 <= j < distinct(words).len() && distinct(words)[j] == w;
                if front.contains(last) || j < front.len() {
                    assert(front[j] == w);
                    assert(front.contains(w));
                    assert(front_words.contains(w));
                    let k = choose|k: int| 0 <= k < front_words.len() && front_words[k] == w;
                    assert(words[k] == w);
                } else {
                    assert(words[words.len() - 1] == w);
                }
            }
        }
        if !front.contains(last) {
            assert forall|i: int, j: int|
                0 <= i < front.len() + 1 && 0 <= j < front.len() + 1 && i != j implies front.push(
                last,
            )[i] != front.push(last)[j] by {
                if i < front.len() && j < front.len() {
                    assert(front[i] != front[j]);
                } else if i < front.len() {
                    assert(front.contains(front[i]));
                } else {
                    assert(front.contains(front[j]));
                }
            }
        }
    }
}

/// Brings one line of the word list into the form of a word.
pub fn normalize_word(line: &str) -> (word: String)
    ensures
        word@ == normalized(line@),
{
    to_lowercase(trim_whitespace(line))
}

/// The bucket of a word in a set of `count` buckets: its 32-bit FNV-1a hash
/// modulo the number of buckets.
pub open spec fn bucket_of(text: Seq<char>, count: int) -> int {
    fnv32_fold(FNV32_OFFSET_BASIS, encode_utf8(text)) as int % count
}

/// Whether a bucket lists the position `k`.
pub open spec fn lists(bucket: Seq<usize>, k: int) -> bool {
    exists|u: int| 0 <= u < bucket.len() && bucket[u] == k
}

/// Computes the bucket of a word.
fn word_bucket(word: &str, count: usize) -> (bucket: usize)
    requires
        count >= 1,
    ensures
        bucket == bucket_of(word@, count as int),
        bucket < count,
{
    let hash: u32 = hash_bytes(word.as_bytes());
    (hash as usize) % count
}

/// A set of words that keeps them in the order in which they came. Each
/// word is also listed, by its position, in the bucket that its hash picks,
/// so that a word is looked for among the few that share its bucket.
#[derive(Debug)]
pub struct WordSet {
    words: Vec<String>,
    buckets: Vec<Vec<usize>>,
}

impl View for WordSet {
    type V = Seq<Seq<char>>;

    /// The words of the set, in the order in which they came.
    closed spec fn view(&self) -> Seq<Seq<char>> {
        texts(self.words@)
    }
}

impl WordSet {
    /// Every word is listed in its bucket, and the buckets list nothing
    /// else.
    pub closed spec fn wf(&self) -> bool {
        &&& self.buckets@.len() >= 1
        &&& forall|b: int, t: int|
            0 <= b < self.buckets@.len() && 0 <= t < self.buckets@[b]@.len() ==> 0 <= (
            #[trigger] self.buckets@[b]@[t]) < self.words@.len()
        &&& forall|k: int|
            0 <= k < self.words@.len() ==> lists(
                self.buckets@[bucket_of(
                    #[trigger] self.words@[k]@,
                    self.buckets@.len() as int,
                )]@,
                k,
            )
    }

    /// An empty set with the given number of buckets, and with one bucket
    /// where none is asked for.
    pub fn with_buckets(count: usize) -> (set: WordSet)
        ensures
            set.wf(),
            set@ == Seq::<Seq<char>>::empty(),
    {
        let mut buckets: Vec<Vec<usize>> = Vec::new();
        buckets.push(Vec::new());
        let mut i: usize = 1;
        while i < count
            invariant
                buckets@.len() == if count < 1 {
                    1
                } else {
                    i as int
                },
                count < 1 || i <= count,
                forall|b: int| 0 <= b < buckets@.len() ==> (#[trigger] buckets@[b])@.len() == 0,
            decreases count - i,
        {
            buckets.push(Vec::new());
            i = i + 1;
        }
        let set = WordSet { words: Vec::new(), buckets };
        assert(set@ =~= Seq::<Seq<char>>::empty());
        set
    }

    /// Tells whether the word is in the set.
    pub fn contains(&self, word: &String) -> (found: bool)
        requires
            self.wf(),
        ensures
            found == self@.contains(word@),
    {
        let b = word_bucket(word.as_str(), self.buckets.len());
        let bucket = &self.buckets[b];
        let mut t: usize = 0;
        while t < bucket.len()
            invariant
                self.wf(),
                b == bucket_of(word@, self.buckets@.len() as int),
                bucket == self.buckets@[b as int],
                t <= bucket@.len(),
                forall|u: int| 0 <= u < t ==> self.words@[bucket@[u] as int]@ != word@,
            decreases bucket.len() - t,
        {
            let k: usize = bucket[t];
            if self.words[k] == *word {
                assert(self@[k as int] == word@);
                return true;
            }
            t = t + 1;
        }
        proof {
            if self@.contains(word@) {
                let k = choose|k: int| 0 <= k < self@.len() && self@[k] == word@;
                assert(self.words@[k]@ == word@);
                assert(lists(bucket@, k));
                let u = choose|u: int| 0 <= u < bucket@.len() && bucket@[u] == k;
                assert(self.words@[bucket@[u] as int]@ != word@);
            }
        }
        false
    }

    /// Adds the word to the set, unless the set holds it already.
    pub fn insert(&mut self, word: String)
        requires
            old(self).wf(),
        ensures
            final(self).wf(),
            final(self)@ == if old(self)@.contains(word@) {
                old(self)@
            } else {
                old(self)@.push(word@)
            },
    {
        if self.contains(&word) {
            return ;
        }
        let b = word_bucket(word.as_str(), self.buckets.len());
        let position: usize = self.words.len();
        let ghost count = self.buckets@.len() as int;
        self.buckets[b].push(position);
        self.words.push(word);
        proof {
            assert(self@ =~= old(self)@.push(word@));
            assert forall|k: int| 0 <= k < self.words@.len() implies lists(
                self.buckets@[bucket_of(#[trigger] self.words@[k]@, count)]@,
                k,
            ) by {
                let c = bucket_of(self.words@[k]@, count);
                if k < position {
                    assert(self.words@[k] == old(self).words@[k]);
                    assert(lists(old(self).buckets@[c]@, k));
                    let u = choose|u: int|
                        0 <= u < old(self).buckets@[c]@.len() && old(self).buckets@[c]@[u] == k;
                    assert(self.buckets@[c]@[u] == k);
                } else {
                    assert(c == b);
                    assert(self.buckets@[b as int]@[old(self).buckets@[b as int]@.len() as int]
                        == position);
                }
            }
            assert forall|c: int, u: int|
                0 <= c < self.buckets@.len() && 0 <= u < self.buckets@[c]@.len() implies 0 <= (
            #[trigger] self.buckets@[c]@[u]) < self.words@.len() by {
                if c == b {
                    if u < old(self).buckets@[b as int]@.len() {
                        assert(self.buckets@[c]@[u] == old(self).buckets@[c]@[u]);
                    }
                } else {
                    assert(self.buckets@[c]@[u] == old(self).buckets@[c]@[u]);
                }
            }
        }
    }

    /// The number of words in the set.
    pub fn len(&self) -> (count: usize)
        ensures
            count == self@.len(),
    {
        self.words.len()
    }

    /// Gives up the set for its words, in the order in which they came.
    pub fn into_words(self) -> (words: Vec<String>)
        ensures
            texts(words@) == self@,
    {
        self.words
    }
}

/// Collects the dictionary of a word list: the word of every line, each
/// word once, in the order in which the words first occur.
pub fn collect_words(lines: &Vec<String>) -> (dict: Vec<String>)
    ensures
        texts(dict@) == distinct(normalized_lines(lines@)),
{
    let mut seen = WordSet::with_buckets(lines.len());
    let mut i: usize = 0;
    while i < lines.len()
        invariant
            i <= lines.len(),
            seen.wf(),
            seen@ == distinct(normalized_lines(lines@).take(i as int)),
        decreases lines.len() - i,
    {
        let key = normalize_word(lines[i].as_str());
        proof {
            let all = normalized_lines(lines@);
            assert(all.take(i + 1).drop_last() =~= all.take(i as int));
            assert(all.take(i + 1).last() == key@);
        }
        seen.insert(key);
        i = i + 1;
    }
    proof {
        let all = normalized_lines(lines@);
        assert(all.take(lines.len() as int) =~= all);
    }
    seen.into_words()
}

} // verus!
