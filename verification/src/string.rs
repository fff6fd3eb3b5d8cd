//! Algorithms on sequences of tokens.
pub mod manacher;
pub mod trie;
