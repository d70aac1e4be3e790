use ngram_corpus::corpus::top_cap;
use ngram_corpus::corpus::words_from_line;
use ngram_corpus::corpus::Corpus;
use ngram_corpus::corpus::FilterPolicy;
use ngram_corpus::rank::rank;
use ngram_corpus::stopwords::default_stop_words;
use ngram_corpus::stopwords::filter_tokens;
use ngram_corpus::stopwords::StopWordSet;

fn words(list: &[&str]) -> Vec<String> {
    list.iter().map(|w| w.to_string()).collect()
}

#[test]
fn default_stop_words_membership() {
    let stops = default_stop_words();
    for w in ["the", "of", "and", "percent", "people", "i"] {
        assert!(stops.contains(w));
    }
    for w in ["zebra", "quick", "thee", ""] {
        assert!(!stops.contains(w));
    }
}

#[test]
fn token_level_filter_drops_stop_words() {
    let stops = StopWordSet::new(words(&["the"]));
    let toks = words(&["the", "quick", "the", "fox"]);
    assert_eq!(filter_tokens(&toks, &stops), words(&["quick", "fox"]));
}

#[test]
fn words_from_line_pipeline() {
    assert_eq!(words_from_line("The quick fox!", false, 1), words(&["the", "quick", "fox"]));
    // a line shorter than two characters carries no token
    assert_eq!(words_from_line("a", false, 1), Vec::<String>::new());
    assert_eq!(words_from_line("", false, 1), Vec::<String>::new());
    // markup loses its tags before normalization
    assert_eq!(
        words_from_line("<p>The <b>quick</b> fox</p>", true, 1),
        words(&["the", "quick", "fox"])
    );
}

#[test]
fn default_caps_halve_per_order() {
    assert_eq!(top_cap(1), 128);
    assert_eq!(top_cap(2), 64);
    assert_eq!(top_cap(3), 32);
    assert_eq!(top_cap(4), 16);
    assert_eq!(top_cap(5), 8);
}

#[test]
fn corpus_accumulates_documents() {
    let stops = StopWordSet::new(words(&["the"]));
    let mut corpus = Corpus::new(stops, 2, FilterPolicy::NGramLevel);
    let doc1 = words(&["the", "quick", "fox"]);
    let doc2 = words(&["fox", "the"]);
    corpus.add_document(&doc1);
    corpus.add_document(&doc2);
    assert_eq!(corpus.documents(), 2);
    assert_eq!(corpus.total_words(), 5);
    assert_eq!(corpus.words().get("the"), 2);
    assert_eq!(corpus.words().get("quick"), 1);
    assert_eq!(corpus.words().get("fox"), 2);
    assert_eq!(corpus.words().unique_count(), 3);
    // the only bigram window free of stop words is "quick fox"
    assert_eq!(corpus.bigrams().get("quick fox"), 1);
    assert_eq!(corpus.bigrams().total_count(), 1);
    assert_eq!(corpus.trigrams().total_count(), 0);
    assert_eq!(corpus.quadgrams().total_count(), 0);
    assert_eq!(corpus.pentagrams().total_count(), 0);
}

#[test]
fn corpus_token_level_policy_changes_adjacency() {
    let stops = StopWordSet::new(words(&["the"]));
    let mut corpus = Corpus::new(stops, 2, FilterPolicy::TokenLevel);
    // dropping "the" first makes "quick fox" adjacent to "fox jumps"
    let doc = words(&["quick", "the", "fox", "jumps"]);
    corpus.add_document(&doc);
    assert_eq!(corpus.bigrams().get("quick fox"), 1);
    assert_eq!(corpus.bigrams().get("fox jumps"), 1);
    assert_eq!(corpus.bigrams().total_count(), 2);
    assert_eq!(corpus.words().get("the"), 0);
    assert_eq!(corpus.total_words(), 3);
}

#[test]
fn corpus_ranked_output_deterministic() {
    let mut corpus = Corpus::new(StopWordSet::empty(), 2, FilterPolicy::NGramLevel);
    let doc = words(&["bat", "cat", "bat", "ant"]);
    corpus.add_document(&doc);
    let ranked = rank(corpus.words(), top_cap(1));
    assert_eq!(
        ranked,
        vec![("bat".to_string(), 2), ("ant".to_string(), 1), ("cat".to_string(), 1)]
    );
}
