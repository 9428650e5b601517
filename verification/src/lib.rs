//! A byte-pair-encoding tokenizer whose behaviour is stated in contracts
//! and proved.
//!
//! Text is cut into chunks by a fixed pattern, every chunk starts as its raw
//! bytes, and an ordered list of merges rewrites adjacent symbol pairs into
//! new token ids. Training learns that list, encoding applies it, and the
//! vocabulary gives the byte string behind every id.

pub mod chunker;
pub mod encoder;
pub mod frequency;
mod key;
pub mod laws;
pub mod merge;
pub mod table;
pub mod tokenizer;
pub mod trainer;
pub mod vocab;

pub use merge::{Pair, TokenId};
pub use table::MergeTable;
pub use chunker::GPT4_PATTERN;
pub use tokenizer::{Tokenizer, TokenizerError};
