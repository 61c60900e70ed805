//! A word-game solver core: a prefix-searchable dictionary (a trie over the
//! 26-letter alphabet) and a depth-first path search over a fixed 5x5 letter
//! grid that reports every dictionary word of decoded length at least 4
//! traceable as a non-self-intersecting chain of adjacent tiles, together
//! with a length-bucket scoring function.

pub mod board;
pub mod order;
pub mod point;
pub mod score;
pub mod search;
pub mod seqs;
pub mod trie;
