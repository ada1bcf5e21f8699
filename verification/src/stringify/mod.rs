//! Writers from nodes to bencode, JSON, XML, YAML and TOML text.
pub mod common;
pub mod default;
pub mod json;
pub mod xml;
pub mod toml;
pub mod yaml;
