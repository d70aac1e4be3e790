//! A verified text-corpus analyzer core: tokenization and normalization of
//! word text, n-gram frequency counting with stop-word filtering, corpus-wide
//! combination of per-document tables, and deterministic ranking.

pub mod corpus;
pub mod freq;
pub mod html;
pub mod ngram;
pub mod normalize;
pub mod rank;
pub mod stopwords;
pub mod text;
pub mod tokenize;
