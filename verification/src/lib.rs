//! Word-square search: a prefix tree over a fixed vocabulary, a
//! position-constrained word enumerator, and a backtracking assembler
//! that produces N x N grids whose rows and columns are all vocabulary
//! words.

pub mod trie;
pub mod words;
pub mod squares;
pub mod vocab;

pub use vocab::filter_working_words;

pub use squares::find_squares;
pub use squares::gen_first_row;
pub use words::WordsFromValidCharsIter;
pub use words::enumerate_words;
pub use trie::Trie;
pub use trie::TrieError;
pub use trie::TrieNode;
pub use trie::build_trie;
