//! An in-memory fuzzy full-text search core for a small catalog service.
//!
//! Documents are tokenized into space-separated tokens, indexed per field
//! with a BM25-style relevance scorer over exact integer arithmetic, and
//! queried with optional autocorrect expansion based on Levenshtein
//! distance against the vocabulary of all indexed tokens.

pub mod engine;
pub mod error;
pub mod laws;
pub mod levenshtein;
pub mod score;
pub mod search;
pub mod tokenize;
pub mod types;
pub mod util;
