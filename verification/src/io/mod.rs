//! Where bencode is read from and written to.
pub mod destinations;
pub mod sources;
pub mod traits;
