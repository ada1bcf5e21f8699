//! Error values of the library: a small enum and the texts it is reported with.
pub mod embedded;
pub mod messages;
