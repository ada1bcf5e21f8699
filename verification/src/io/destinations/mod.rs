//! Destinations that text is written to.
pub mod buffer;
