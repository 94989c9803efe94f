//! Names for the nodes of a tree: short phrases of dictionary words.

use crate::corpus::{lines_of, texts, wordlist, WORDS};
use crate::random::{choose_multiple, drawn_at, gen_range, is_selection};
use rand::rngs::ThreadRng;
use vstd::prelude::*;
use vstd::string::*;

verus! {

/// Fewest words in a phrase.
pub const MIN_WORDS: usize = 1;

/// Most words in a phrase.
pub const MAX_WORDS: usize = 3;

/// What stands between two words of a phrase: one space.
pub open spec fn separator() -> Seq<char> {
    seq![' ']
}

/// The words joined, `sep` between each two neighbours.
pub open spec fn joined(words: Seq<Seq<char>>, sep: Seq<char>) -> Seq<char>
    decreases words.len(),
{
    if words.len() == 0 {
        Seq::empty()
    } else if words.len() == 1 {
        words[0]
    } else {
        joined(words.drop_last(), sep) + sep + words.last()
    }
}

/// `text` is `picked` joined by single spaces, where `picked` is a draw of
/// `amount` words from `corpus` and `amount` is a legal phrase length.
pub open spec fn phrase_of(
    corpus: Seq<Seq<char>>,
    picked: Seq<Seq<char>>,
    amount: nat,
    text: Seq<char>,
) -> bool {
    &&& MIN_WORDS <= amount <= MAX_WORDS
    &&& is_selection(corpus, picked, amount)
    &&& text == joined(picked, separator())
}

/// `text` is one of the phrases that can be drawn from `corpus`.
pub open spec fn is_phrase(corpus: Seq<Seq<char>>, text: Seq<char>) -> bool {
    exists|picked: Seq<Seq<char>>, amount: nat| phrase_of(corpus, picked, amount, text)
}

/// Joins `words` with `sep` between each two neighbours.
pub fn join(words: &Vec<&str>, sep: &str) -> (text: String)
    ensures
        text@ == joined(texts(words@), sep@),
{
    let mut text = String::new();
    let mut i: usize = 0;
    while i < words.len()
        invariant
            i <= words.len(),
            text@ == joined(texts(words@).take(i as int), sep@),
        decreases words.len() - i,
    {
        let ghost before = texts(words@).take(i as int);
        let ghost after = texts(words@).take(i + 1);
        assert(after.drop_last() == before);
        assert(after.last() == words@[i as int]@);
        if i > 0 {
            text.append(sep);
        }
        text.append(words[i]);
        i += 1;
    }
    assert(texts(words@).take(words.len() as int) == texts(words@));
    text
}

/// The name generator: a corpus of words and the generator it draws with.
pub struct Dict {
    wordlist: Vec<&'static str>,
    rng: ThreadRng,
}

impl Dict {
    /// The words of the corpus, in order.
    pub closed spec fn corpus(&self) -> Seq<Seq<char>> {
        texts(self.wordlist@)
    }

    /// A generator over the given words, drawing from the calling thread's
    /// random number generator.
    pub fn with_words(words: Vec<&'static str>) -> (dict: Dict)
        ensures
            dict.corpus() == texts(words@),
    {
        Dict { wordlist: words, rng: rand::thread_rng() }
    }

    /// Draws a phrase: one to three words of the corpus, taken at distinct
    /// positions in random order and joined by single spaces.
    ///
    /// A corpus shorter than the length drawn is not an error: the phrase
    /// then holds every word of the corpus once, and none for an empty
    /// corpus. The corpus itself is left as it was.
    pub fn random_phrase(&mut self) -> (phrase: String)
        ensures
            final(self).corpus() == old(self).corpus(),
            is_phrase(old(self).corpus(), phrase@),
    {
        let len = gen_range(&mut self.rng, MIN_WORDS, MAX_WORDS);
        let picked = choose_multiple(&self.wordlist, &mut self.rng, len);
        let phrase = join(&picked, " ");
        proof {
            reveal_strlit(" ");
            assert(" "@ == separator());
            assert(phrase_of(self.corpus(), texts(picked@), len as nat, phrase@));
        }
        phrase
    }
}

impl Default for Dict {
    /// The generator over the built-in corpus, which is split into its
    /// words once, here.
    fn default() -> (dict: Dict)
        ensures
            dict.corpus() == lines_of(WORDS@),
    {
        Dict { wordlist: wordlist(), rng: rand::thread_rng() }
    }
}

/// What a draw without replacement yields: at most `amount` words, each of
/// them a word of the pool; at least one where one was asked for and the
/// pool is not empty; and no word twice where the pool holds none twice.
pub proof fn lemma_selection(pool: Seq<Seq<char>>, picked: Seq<Seq<char>>, amount: nat)
    requires
        is_selection(pool, picked, amount),
    ensures
        picked.len() <= amount,
        picked.len() <= pool.len(),
        amount >= 1 && pool.len() >= 1 ==> picked.len() >= 1,
        forall|k: int| 0 <= k < picked.len() ==> pool.contains(#[trigger] picked[k]),
        pool.no_duplicates() ==> picked.no_duplicates(),
{
    let at = choose|at: Seq<int>| drawn_at(pool, picked, at);
    assert forall|k: int| 0 <= k < picked.len() implies pool.contains(#[trigger] picked[k]) by {
        assert(pool[at[k]] == picked[k]);
    }
    if pool.no_duplicates() {
        assert forall|i: int, j: int|
            0 <= i < picked.len() && 0 <= j < picked.len() && i != j implies picked[i]
            != picked[j] by {
            assert(at[i] != at[j]);
            assert(pool[at[i]] == picked[i]);
            assert(pool[at[j]] == picked[j]);
        }
    }
}

/// Whatever the corpus, some phrase can be drawn from it.
pub proof fn lemma_some_phrase(corpus: Seq<Seq<char>>)
    ensures
        exists|text: Seq<char>| is_phrase(corpus, text),
{
    let picked = corpus.take(if corpus.len() >= 1 { 1int } else { 0int });
    let at = Seq::new(picked.len(), |k: int| k);
    assert(drawn_at(corpus, picked, at));
    assert(phrase_of(corpus, picked, 1, joined(picked, separator())));
    assert(is_phrase(corpus, joined(picked, separator())));
}

/// Every phrase drawn from a corpus that is not empty and holds no word
/// twice is made of one, two or three words of the corpus, no two of them
/// the same, joined by single spaces.
pub proof fn law_phrase_words(corpus: Seq<Seq<char>>, text: Seq<char>)
    requires
        is_phrase(corpus, text),
        corpus.len() >= 1,
        corpus.no_duplicates(),
    ensures
        exists|words: Seq<Seq<char>>|
            {
                &&& MIN_WORDS <= words.len() <= MAX_WORDS
                &&& words.no_duplicates()
                &&& forall|k: int| 0 <= k < words.len() ==> corpus.contains(#[trigger] words[k])
                &&& text == #[trigger] joined(words, separator())
            },
{
    let (picked, amount) = choose|picked: Seq<Seq<char>>, amount: nat|
        phrase_of(corpus, picked, amount, text);
    lemma_selection(corpus, picked, amount);
    assert(text == joined(picked, separator()));
}

/// Over a corpus of a single word every phrase is that word, whatever
/// length was drawn.
pub proof fn law_single_word_corpus(corpus: Seq<Seq<char>>, text: Seq<char>)
    requires
        corpus.len() == 1,
        is_phrase(corpus, text),
    ensures
        text == corpus[0],
{
    let (picked, amount) = choose|picked: Seq<Seq<char>>, amount: nat|
        phrase_of(corpus, picked, amount, text);
    let at = choose|at: Seq<int>| drawn_at(corpus, picked, at);
    assert(picked.len() == 1);
    assert(at[0] == 0);
    assert(picked[0] == corpus[at[0]]);
}

} // verus!
