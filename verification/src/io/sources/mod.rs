//! Sources that bencode is read from.
pub mod buffer;
