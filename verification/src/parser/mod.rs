//! Parsers from bencode bytes to nodes.
pub mod borrowed;
pub mod default;
pub mod iterative;
pub mod non_recursive;
