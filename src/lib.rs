//! Word segmentation over ICU compiled dictionaries.
//!
//! The library decodes the compact trie formats that ICU's dictionary
//! builders produce (an 8-bit and a 16-bit flavour), walks them one input
//! unit at a time, and drives a greedy longest-match segmentation of a
//! buffer of UTF-16 code units.
pub mod trie;
pub mod bytes_trie;
pub mod uchars_trie;
pub mod dictionary_iter;

pub use bytes_trie::BytesTrie;
pub use dictionary_iter::{Cursor, DictionaryIterator, MalformedDictionary, Transform};
pub use trie::{Trie, TrieResult};
pub use uchars_trie::UCharsTrie;
