//! Encoding and decoding of Bencode, the format of BitTorrent metadata files: a tree of
//! nodes, parsers from bytes to that tree, and writers from it to bencode, JSON, XML and
//! YAML.
pub mod config;
pub mod error;
pub mod io;
pub mod laws;
pub mod memory;
pub mod misc;
pub mod nodes;
pub mod parser;
pub mod stringify;
pub mod text;

pub use config::{EncoderConfig, ParserConfig};
pub use error::embedded::BencodeError;
pub use io::destinations::buffer::Buffer as BufferDestination;
pub use io::sources::buffer::Buffer as BufferSource;
pub use memory::{Arena, MemoryTracker, StackBuffer};
pub use misc::get_version as version;
pub use nodes::borrowed::{BorrowedDict, BorrowedNode};
pub use nodes::convert::make_node;
pub use nodes::fixed::FixedSizeBuffer;
pub use nodes::node::{Dict, Node};
pub use parser::borrowed::{parse_borrowed, validate_bencode};
pub use parser::default::{parse, parse_bytes, parse_str};
pub use parser::iterative::{parse_bytes_iterative, parse_iterative, parse_str_iterative};
pub use stringify::default::{stringify_to_bytes, stringify_to_string};
