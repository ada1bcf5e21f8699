//! The tree that bencode data is parsed into, and the dictionary it uses.
pub mod node;
pub mod access;
pub mod convert;
pub mod borrowed;
pub mod fixed;
