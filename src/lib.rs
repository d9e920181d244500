//! Byte-level byte-pair encoding: pair statistics, merging, training a merge
//! table, building the vocabulary, encoding and decoding.

pub mod merge;
pub mod pairs;
pub mod table;
pub mod vocab;
pub mod encode;
pub mod laws;

pub use merge::merge;
pub use pairs::{get_stats, PairStats};
pub use table::{train, MergeTable};
pub use vocab::{build_vocab, decode, Vocabulary};
pub use encode::encode;
