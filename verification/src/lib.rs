//! A verified dictionary for word games: a prefix tree (trie) storing a set
//! of words, answering exact-match, prefix and enumeration queries, together
//! with a word-list loader that normalizes raw lines before insertion, and a
//! small letter-grid board.

pub mod board;
pub mod lex;
pub mod trie;
pub mod wordlist;
