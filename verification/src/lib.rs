//! A multi-keyword extraction and replacement engine.
//!
//! A dictionary of keyword phrases, each mapped to a canonical replacement
//! string, is stored in a trie keyed by Unicode word-boundary tokens.  A text
//! is scanned in a single pass; every occurrence of a dictionary phrase is
//! reported with its byte span, or substituted with its canonical form.
//! Matching is token-aligned, case-sensitive or case-insensitive per
//! processor instance, and an approximate (edit-distance based) lookup over
//! the stored phrases is provided as well.

pub mod fold;
pub mod tokens;
pub mod trie;
pub mod extract;
pub mod fuzzy;
pub mod offsets;
pub mod processor;

pub use fuzzy::Similarity;
pub use fuzzy::levenshtein_distance;
pub use offsets::spans_to_char_spans;
pub use processor::ExtractorStrategy;
pub use processor::InvalidKeywordError;
pub use processor::KeywordProcessor;
pub use processor::UnknownStrategyError;
pub use tokens::is_valid_keyword;
