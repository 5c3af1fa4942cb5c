//! A multi-keyword matcher: it is given keywords, one by one, and tells which
//! of them occur in a document as whole words.
//!
//! A word is a maximal run of letters; digits, punctuation and white space are
//! boundaries. The keywords are kept in a prefix tree, so that a document is
//! scanned once, whatever the number of keywords.
pub mod laws;
pub mod matcher;
pub mod trie;
pub mod unicode;
pub mod words;

pub use matcher::{KeywordProcessor, Lexicon};
pub use trie::TreeNode;
pub use unicode::tokenize;
