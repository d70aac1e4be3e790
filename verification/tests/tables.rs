use ngram_corpus::freq::FrequencyTable;
use ngram_corpus::ngram::get_ngram_occurrences;
use ngram_corpus::rank::rank;
use ngram_corpus::rank::str_lex_lt;
use ngram_corpus::stopwords::StopWordSet;

fn words(list: &[&str]) -> Vec<String> {
    list.iter().map(|w| w.to_string()).collect()
}

fn stop_set(list: &[&str]) -> StopWordSet {
    StopWordSet::new(words(list))
}

fn table_of(pairs: &[(&str, u64)]) -> FrequencyTable {
    let mut t = FrequencyTable::new();
    for (k, c) in pairs {
        t.add_count(k, *c);
    }
    t
}

#[test]
fn table_counts_and_sizes() {
    let mut t = FrequencyTable::new();
    assert_eq!(t.get("x"), 0);
    assert_eq!(t.unique_count(), 0);
    assert_eq!(t.total_count(), 0);
    t.increment("x");
    t.increment("x");
    t.add_count("y", 3);
    t.add_count("z", 0);
    assert_eq!(t.get("x"), 2);
    assert_eq!(t.get("y"), 3);
    assert_eq!(t.get("z"), 0);
    assert_eq!(t.unique_count(), 2);
    assert_eq!(t.total_count(), 5);
}

#[test]
fn combiner_sums_counts() {
    let mut a = table_of(&[("aa", 2), ("bb", 1)]);
    let b = table_of(&[("bb", 3), ("cc", 1)]);
    a.merge_from(&b);
    assert_eq!(a.get("aa"), 2);
    assert_eq!(a.get("bb"), 4);
    assert_eq!(a.get("cc"), 1);
    assert_eq!(a.unique_count(), 3);
    assert_eq!(a.total_count(), 7);
}

#[test]
fn combiner_commutative_orders() {
    // folding a fixed set of per-document tables in any order gives the
    // same keys and counts
    let docs: [&[(&str, u64)]; 3] = [
        &[("aa", 2), ("bb", 1)],
        &[("bb", 3), ("cc", 1)],
        &[("aa", 1), ("cc", 4), ("dd", 1)],
    ];
    let orders: [[usize; 3]; 6] = [
        [0, 1, 2],
        [0, 2, 1],
        [1, 0, 2],
        [1, 2, 0],
        [2, 0, 1],
        [2, 1, 0],
    ];
    let mut results: Vec<Vec<(String, u64)>> = Vec::new();
    for order in orders.iter() {
        let mut acc = FrequencyTable::new();
        for &d in order.iter() {
            let t = table_of(docs[d]);
            acc.merge_from(&t);
        }
        results.push(rank(&acc, 100));
    }
    for r in results.iter() {
        assert_eq!(*r, results[0]);
    }
    assert_eq!(
        results[0],
        vec![
            ("cc".to_string(), 5),
            ("bb".to_string(), 4),
            ("aa".to_string(), 3),
            ("dd".to_string(), 1),
        ]
    );
}

#[test]
fn ngram_window_count() {
    // four tokens at n = 2: exactly the three windows "a b", "b c", "c d"
    let w = words(&["a", "b", "c", "d"]);
    let t = get_ngram_occurrences(&w, 2, &StopWordSet::empty(), 1);
    assert_eq!(t.total_count(), 3);
    assert_eq!(t.unique_count(), 3);
    assert_eq!(t.get("a b"), 1);
    assert_eq!(t.get("b c"), 1);
    assert_eq!(t.get("c d"), 1);
}

#[test]
fn ngram_counts_repeats() {
    let w = words(&["quick", "fox", "quick", "fox"]);
    let t = get_ngram_occurrences(&w, 2, &StopWordSet::empty(), 2);
    assert_eq!(t.get("quick fox"), 2);
    assert_eq!(t.get("fox quick"), 1);
    assert_eq!(t.total_count(), 3);
    assert_eq!(t.unique_count(), 2);
}

#[test]
fn interestingness_excludes_stop_word_windows() {
    let stops = stop_set(&["the"]);
    let w = words(&["the", "quick", "the", "fox"]);
    let bi = get_ngram_occurrences(&w, 2, &stops, 2);
    // "the quick", "quick the" and "the fox" all contain a stop word
    assert_eq!(bi.total_count(), 0);
    assert_eq!(bi.unique_count(), 0);
    let tri = get_ngram_occurrences(&w, 3, &stops, 2);
    assert_eq!(tri.total_count(), 0);
    let uni = get_ngram_occurrences(&w, 1, &stops, 2);
    assert_eq!(uni.get("quick"), 1);
    assert_eq!(uni.get("fox"), 1);
    assert_eq!(uni.get("the"), 0);
}

#[test]
fn interestingness_excludes_short_tokens() {
    let w = words(&["a", "big", "cat"]);
    let t = get_ngram_occurrences(&w, 2, &StopWordSet::empty(), 2);
    // "a big" has an undersized member; "big cat" survives
    assert_eq!(t.get("a big"), 0);
    assert_eq!(t.get("big cat"), 1);
    assert_eq!(t.total_count(), 1);
}

#[test]
fn empty_input_yields_empty_tables() {
    let w: Vec<String> = Vec::new();
    for n in 1..=5usize {
        let t = get_ngram_occurrences(&w, n, &StopWordSet::empty(), 2);
        assert_eq!(t.total_count(), 0);
        assert_eq!(t.unique_count(), 0);
    }
}

#[test]
fn undersized_input_yields_empty_table() {
    let w = words(&["alpha", "beta"]);
    let t = get_ngram_occurrences(&w, 5, &StopWordSet::empty(), 2);
    assert_eq!(t.total_count(), 0);
    assert_eq!(t.unique_count(), 0);
}

#[test]
fn ranker_tie_break_is_lexicographic() {
    let t = table_of(&[("zebra", 5), ("apple", 5), ("mango", 3)]);
    let ranked = rank(&t, 10);
    assert_eq!(
        ranked,
        vec![("apple".to_string(), 5), ("zebra".to_string(), 5), ("mango".to_string(), 3)]
    );
}

#[test]
fn ranker_truncates_to_cap() {
    let t = table_of(&[("zebra", 5), ("apple", 5), ("mango", 3)]);
    assert_eq!(rank(&t, 2), vec![("apple".to_string(), 5), ("zebra".to_string(), 5)]);
    assert_eq!(rank(&t, 1), vec![("apple".to_string(), 5)]);
    assert_eq!(rank(&t, 0), Vec::<(String, u64)>::new());
    assert_eq!(rank(&FrequencyTable::new(), 4), Vec::<(String, u64)>::new());
}

#[test]
fn lexicographic_order_on_strings() {
    assert!(str_lex_lt("apple", "zebra"));
    assert!(!str_lex_lt("zebra", "apple"));
    assert!(str_lex_lt("ab", "abc"));
    assert!(!str_lex_lt("abc", "ab"));
    assert!(!str_lex_lt("same", "same"));
    assert!(str_lex_lt("", "a"));
}
