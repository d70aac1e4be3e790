//! The consolidated pipeline: one configuration — minimum token length,
//! stop-word set, filtering policy — drives per-line tokenization and the
//! corpus-wide accumulation of word and n-gram statistics across documents.

use vstd::multiset::Multiset;
use vstd::prelude::*;
use vstd::string::StrSliceExecFns;
use vstd::string::StringExecFns;

use crate::freq::FrequencyTable;
use crate::html::strip_tags;
use crate::html::tagless_text;
use crate::ngram::get_ngram_occurrences;
use crate::ngram::gram_counts;
use crate::ngram::lemma_gram_counts_len;
use crate::normalize::clean;
use crate::normalize::normal_text;
use crate::stopwords::drop_stop_words;
use crate::stopwords::filter_tokens;
use crate::stopwords::StopWordSet;
use crate::tokenize::split_tokens;
use crate::tokenize::tokenize;

verus! {

broadcast use vstd::multiset::group_multiset_axioms;

/// Which filtering policy governs the statistics.
#[derive(Clone, Copy)]
pub enum FilterPolicy {
    /// Stop words are dropped from the token sequence before n-grams of any
    /// order are formed (this changes adjacency).
    TokenLevel,
    /// Every token keeps its position; a window is discarded whole when any
    /// of its tokens is a stop word or shorter than the minimum length.
    NGramLevel,
}

/// The words of one raw line, ready for aggregation: a line shorter than two
/// characters cannot hold a token and is skipped; a markup line loses its
/// tag spans first; the rest is normalized and split at spaces.
pub open spec fn line_words(line: Seq<char>, html: bool, min: nat) -> Seq<Seq<char>> {
    if line.len() < 2 {
        seq![]
    } else if html {
        split_tokens(normal_text(tagless_text(line)), min)
    } else {
        split_tokens(normal_text(line), min)
    }
}

/// Tokenizes one raw line of a document: skipped outright when shorter than
/// two characters, tag-stripped when `html`, then normalized and split into
/// words of at least `min_len` characters.
pub fn words_from_line(line: &str, html: bool, min_len: usize) -> (v: Vec<String>)
    ensures
        v.deep_view() == line_words(line@, html, min_len as nat),
{
    if line.unicode_len() < 2 {
        let r: Vec<String> = Vec::new();
        proof {
            assert(r.deep_view() =~= Seq::<Seq<char>>::empty());
        }
        return r;
    }
    if html {
        let stripped = strip_tags(line);
        let cleaned = clean(stripped);
        tokenize(cleaned.as_str(), min_len)
    } else {
        let cleaned = clean(String::from_str(line));
        tokenize(cleaned.as_str(), min_len)
    }
}

/// Law: every token a line contributes satisfies the token invariant — it
/// is nonempty, at least the minimum length, holds no space, and is made of
/// lowercase letters and apostrophes only.
pub proof fn lemma_line_words_wf(line: Seq<char>, html: bool, min: nat)
    ensures
        forall|i: int|
            0 <= i < line_words(line, html, min).len() ==> crate::tokenize::token_wf(
                #[trigger] line_words(line, html, min)[i],
                min,
            ),
        forall|i: int, k: int|
            #![trigger line_words(line, html, min)[i][k]]
            0 <= i < line_words(line, html, min).len() && 0 <= k < line_words(line, html, min)[i].len()
                ==> crate::text::is_lower(line_words(line, html, min)[i][k]) || line_words(
                line,
                html,
                min,
            )[i][k] == '\'',
{
    let p = |c: char| crate::text::is_lower(c) || c == '\'';
    if line.len() >= 2 {
        let base = if html {
            tagless_text(line)
        } else {
            line
        };
        crate::normalize::lemma_normal_text_normal(base);
        crate::tokenize::lemma_split_tokens_wf(normal_text(base), min);
        crate::tokenize::lemma_split_tokens_chars(normal_text(base), min, p);
    }
}

/// The token sequence a document contributes under the configured policy.
pub open spec fn effective_tokens(
    policy: FilterPolicy,
    stops: Set<Seq<char>>,
    toks: Seq<Seq<char>>,
) -> Seq<Seq<char>> {
    match policy {
        FilterPolicy::TokenLevel => drop_stop_words(toks, stops),
        FilterPolicy::NGramLevel => toks,
    }
}

/// The default top-N cap per n-gram order: 128 ranked words, halving for
/// each order above it down to 8 ranked 5-grams.
pub open spec fn spec_top_cap(n: nat) -> nat {
    if n <= 1 {
        128
    } else if n == 2 {
        64
    } else if n == 3 {
        32
    } else if n == 4 {
        16
    } else {
        8
    }
}

/// The default top-N cap for order `n`.
pub fn top_cap(n: usize) -> (c: usize)
    ensures
        c == spec_top_cap(n as nat),
{
    if n <= 1 {
        128
    } else if n == 2 {
        64
    } else if n == 3 {
        32
    } else if n == 4 {
        16
    } else {
        8
    }
}

/// Corpus-wide statistics: the configuration, the number of documents folded
/// in, the total word count, and one frequency table per n-gram order. Word
/// counts apply the minimum length only; tables of order two through five
/// hold interesting n-grams under the configured stop words.
pub struct Corpus {
    stops: StopWordSet,
    min_len: usize,
    policy: FilterPolicy,
    documents: u64,
    total_words: u64,
    word_table: FrequencyTable,
    bigram_table: FrequencyTable,
    trigram_table: FrequencyTable,
    quadgram_table: FrequencyTable,
    pentagram_table: FrequencyTable,
}

impl Corpus {
    /// The configured stop words.
    pub closed spec fn spec_stops(self) -> Set<Seq<char>> {
        self.stops@
    }

    /// The configured minimum token length.
    pub closed spec fn spec_min_len(self) -> nat {
        self.min_len as nat
    }

    /// The configured filtering policy.
    pub closed spec fn spec_policy(self) -> FilterPolicy {
        self.policy
    }

    /// How many documents have been folded in.
    pub closed spec fn spec_documents(self) -> u64 {
        self.documents
    }

    /// The total number of counted words over all documents.
    pub closed spec fn spec_total_words(self) -> u64 {
        self.total_words
    }

    /// The corpus-wide word table.
    pub closed spec fn word_counts(self) -> Multiset<Seq<char>> {
        self.word_table@
    }

    /// The corpus-wide table of interesting n-grams of order `n`.
    pub closed spec fn spec_grams(self, n: nat) -> Multiset<Seq<char>> {
        if n == 2 {
            self.bigram_table@
        } else if n == 3 {
            self.trigram_table@
        } else if n == 4 {
            self.quadgram_table@
        } else {
            self.pentagram_table@
        }
    }

    /// A fresh corpus with the given configuration and nothing folded in.
    pub fn new(stops: StopWordSet, min_len: usize, policy: FilterPolicy) -> (c: Corpus)
        ensures
            c.spec_stops() == stops@,
            c.spec_min_len() == min_len as nat,
            c.spec_policy() == policy,
            c.spec_documents() == 0,
            c.spec_total_words() == 0,
            c.word_counts() == Multiset::<Seq<char>>::empty(),
            forall|n: nat| c.spec_grams(n) == Multiset::<Seq<char>>::empty(),
    {
        Corpus {
            stops,
            min_len,
            policy,
            documents: 0,
            total_words: 0,
            word_table: FrequencyTable::new(),
            bigram_table: FrequencyTable::new(),
            trigram_table: FrequencyTable::new(),
            quadgram_table: FrequencyTable::new(),
            pentagram_table: FrequencyTable::new(),
        }
    }

    /// Folds one document's token sequence into the corpus: the word table
    /// gains the document's length-filtered words, each n-gram table gains
    /// the document's interesting n-grams of that order, and the counters
    /// advance. Under the token-level policy the stop words are dropped from
    /// the sequence first.
    pub fn add_document(&mut self, words: &Vec<String>)
        requires
            old(self).spec_documents() < u64::MAX,
            old(self).spec_total_words() + words@.len() <= u64::MAX,
            old(self).word_counts().len() + words@.len() <= u64::MAX,
            old(self).spec_grams(2).len() + words@.len() <= u64::MAX,
            old(self).spec_grams(3).len() + words@.len() <= u64::MAX,
            old(self).spec_grams(4).len() + words@.len() <= u64::MAX,
            old(self).spec_grams(5).len() + words@.len() <= u64::MAX,
        ensures
            final(self).spec_stops() == old(self).spec_stops(),
            final(self).spec_min_len() == old(self).spec_min_len(),
            final(self).spec_policy() == old(self).spec_policy(),
            final(self).spec_documents() == old(self).spec_documents() + 1,
            ({
                let toks = effective_tokens(
                    old(self).spec_policy(),
                    old(self).spec_stops(),
                    words.deep_view(),
                );
                let min = old(self).spec_min_len();
                let stops = old(self).spec_stops();
                &&& final(self).spec_total_words() == old(self).spec_total_words() + gram_counts(
                    toks,
                    1,
                    Set::empty(),
                    min,
                ).len()
                &&& final(self).word_counts() == old(self).word_counts().add(
                    gram_counts(toks, 1, Set::empty(), min),
                )
                &&& final(self).spec_grams(2) == old(self).spec_grams(2).add(
                    gram_counts(toks, 2, stops, min),
                )
                &&& final(self).spec_grams(3) == old(self).spec_grams(3).add(
                    gram_counts(toks, 3, stops, min),
                )
                &&& final(self).spec_grams(4) == old(self).spec_grams(4).add(
                    gram_counts(toks, 4, stops, min),
                )
                &&& final(self).spec_grams(5) == old(self).spec_grams(5).add(
                    gram_counts(toks, 5, stops, min),
                )
            }),
    {
        let ghost all = words.deep_view();
        let filtered: Vec<String>;
        let toks: &Vec<String> = match self.policy {
            FilterPolicy::TokenLevel => {
                filtered = filter_tokens(words, &self.stops);
                proof {
                    all.lemma_filter_len(|t: Seq<char>| !self.stops@.contains(t));
                }
                &filtered
            },
            FilterPolicy::NGramLevel => words,
        };
        let ghost ts = toks.deep_view();
        proof {
            assert(ts == effective_tokens(self.policy, self.stops@, all));
            assert(ts.len() <= all.len());
            lemma_gram_counts_len(ts, 1, Set::empty(), self.min_len as nat);
            lemma_gram_counts_len(ts, 2, self.stops@, self.min_len as nat);
            lemma_gram_counts_len(ts, 3, self.stops@, self.min_len as nat);
            lemma_gram_counts_len(ts, 4, self.stops@, self.min_len as nat);
            lemma_gram_counts_len(ts, 5, self.stops@, self.min_len as nat);
        }
        let empty_stops = StopWordSet::empty();
        let wt = get_ngram_occurrences(toks, 1, &empty_stops, self.min_len);
        let bt = get_ngram_occurrences(toks, 2, &self.stops, self.min_len);
        let tt = get_ngram_occurrences(toks, 3, &self.stops, self.min_len);
        let qt = get_ngram_occurrences(toks, 4, &self.stops, self.min_len);
        let pt = get_ngram_occurrences(toks, 5, &self.stops, self.min_len);
        let doc_words = wt.total_count();
        self.word_table.merge_from(&wt);
        self.bigram_table.merge_from(&bt);
        self.trigram_table.merge_from(&tt);
        self.quadgram_table.merge_from(&qt);
        self.pentagram_table.merge_from(&pt);
        self.total_words = self.total_words + doc_words;
        self.documents = self.documents + 1;
    }

    /// How many documents have been folded in.
    pub fn documents(&self) -> (r: u64)
        ensures
            r == self.spec_documents(),
    {
        self.documents
    }

    /// The total number of counted words over all documents.
    pub fn total_words(&self) -> (r: u64)
        ensures
            r == self.spec_total_words(),
    {
        self.total_words
    }

    /// The configured minimum token length.
    pub fn min_len(&self) -> (r: usize)
        ensures
            r as nat == self.spec_min_len(),
    {
        self.min_len
    }

    /// The corpus-wide word table.
    pub fn words(&self) -> (r: &FrequencyTable)
        ensures
            r@ == self.word_counts(),
    {
        &self.word_table
    }

    /// The corpus-wide table of interesting bigrams.
    pub fn bigrams(&self) -> (r: &FrequencyTable)
        ensures
            r@ == self.spec_grams(2),
    {
        &self.bigram_table
    }

    /// The corpus-wide table of interesting trigrams.
    pub fn trigrams(&self) -> (r: &FrequencyTable)
        ensures
            r@ == self.spec_grams(3),
    {
        &self.trigram_table
    }

    /// The corpus-wide table of interesting 4-grams.
    pub fn quadgrams(&self) -> (r: &FrequencyTable)
        ensures
            r@ == self.spec_grams(4),
    {
        &self.quadgram_table
    }

    /// The corpus-wide table of interesting 5-grams.
    pub fn pentagrams(&self) -> (r: &FrequencyTable)
        ensures
            r@ == self.spec_grams(5),
    {
        &self.pentagram_table
    }
}

} // verus!
