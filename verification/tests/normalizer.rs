use ngram_corpus::html::strip_tags;
use ngram_corpus::normalize::clean;
use ngram_corpus::text::str_eq;
use ngram_corpus::tokenize::tokenize;

fn toks(s: &str, min: usize) -> Vec<String> {
    tokenize(s, min)
}

#[test]
fn apostrophe_rule_tokens() {
    let cleaned = clean(String::from("I'm...a word?"));
    assert_eq!(cleaned, "i'm   a word ");
    let words = toks(&cleaned, 1);
    assert_eq!(words, vec!["i'm".to_string(), "a".to_string(), "word".to_string()]);
    // with the minimum length of 2 enforced at the tokenizer, "a" drops out
    let words2 = toks(&cleaned, 2);
    assert_eq!(words2, vec!["i'm".to_string(), "word".to_string()]);
}

#[test]
fn double_apostrophe_becomes_separator() {
    let cleaned = clean(String::from("don''t"));
    // both the kept apostrophe and the doubled one turn into spaces
    assert_eq!(cleaned, "don  t");
    assert_eq!(toks(&cleaned, 1), vec!["don".to_string(), "t".to_string()]);
    assert_eq!(toks(&cleaned, 2), vec!["don".to_string()]);
}

#[test]
fn trailing_apostrophe_stripped() {
    let cleaned = clean(String::from("dogs'"));
    assert_eq!(cleaned, "dogs ");
    assert_eq!(toks(&cleaned, 2), vec!["dogs".to_string()]);
}

#[test]
fn internal_apostrophe_kept() {
    let cleaned = clean(String::from("o'clock"));
    assert_eq!(cleaned, "o'clock");
    assert_eq!(toks(&cleaned, 2), vec!["o'clock".to_string()]);
}

#[test]
fn apostrophe_without_open_word_is_separator() {
    let cleaned = clean(String::from("'tis fine"));
    assert_eq!(cleaned, " tis fine");
    assert_eq!(toks(&cleaned, 2), vec!["tis".to_string(), "fine".to_string()]);
}

#[test]
fn normalization_idempotent_on_samples() {
    for raw in [
        "I'm...a word?",
        "don''t",
        "dogs'",
        "Hello, World!",
        "  MIXED case\tand\nnoise  ",
        "a'b'c d''e f'",
    ] {
        let once = clean(String::from(raw));
        let twice = clean(once.clone());
        assert_eq!(once, twice);
    }
}

#[test]
fn lowercases_and_separates_punctuation() {
    assert_eq!(clean(String::from("Hello, World!")), "hello  world ");
}

#[test]
fn noise_glyphs_are_dropped_not_spaced() {
    // tab, newline and carriage return vanish outright, joining their
    // neighbours instead of separating them
    assert_eq!(clean(String::from("ab\tcd")), "abcd");
    assert_eq!(clean(String::from("ab\ncd\rd")), "abcdd");
}

#[test]
fn non_ascii_becomes_space() {
    assert_eq!(clean(String::from("naïve")), "na ve");
    assert_eq!(toks(&clean(String::from("naïve")), 2), vec!["na".to_string(), "ve".to_string()]);
}

#[test]
fn tokenizer_discards_short_and_empty() {
    assert_eq!(toks("", 2), Vec::<String>::new());
    assert_eq!(toks("   ", 2), Vec::<String>::new());
    assert_eq!(toks("a b cc", 2), vec!["cc".to_string()]);
    assert_eq!(toks("a b cc", 1), vec!["a".to_string(), "b".to_string(), "cc".to_string()]);
}

#[test]
fn strip_tags_removes_spans() {
    assert_eq!(strip_tags("<b>Hello</b> <i>there"), "Hello there");
}

#[test]
fn strip_tags_unclosed_suppresses_rest() {
    assert_eq!(strip_tags("a<div b"), "a");
}

#[test]
fn strip_tags_keeps_stray_close() {
    assert_eq!(strip_tags("a>b<c>d"), "a>bd");
}

#[test]
fn str_eq_compares_by_characters() {
    assert!(str_eq("abc", "abc"));
    assert!(!str_eq("abc", "abd"));
    assert!(!str_eq("abc", "ab"));
    assert!(str_eq("", ""));
}
