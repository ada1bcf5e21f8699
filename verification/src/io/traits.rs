//! The interfaces of sources and destinations.
use vstd::prelude::*;

verus! {

/// Reading bencode input as raw bytes.
pub trait BencodeRead {
    /// Inspects the current byte without advancing position.
    fn peek_byte(&mut self) -> Option<u8>;

    /// Advances position and returns the byte that was current, if available.
    fn read_byte(&mut self) -> Option<u8>;

    /// Advances position by one byte.
    fn advance(&mut self);

    /// Checks if there are more bytes available to read.
    fn has_more(&mut self) -> bool;
}

/// Sources whose reading position can be put back to the start.
pub trait RewindableRead {
    /// Resets the reading position to the beginning of the source.
    fn reset(&mut self);
}

/// Writing bencode output.
pub trait BencodeWrite {
    /// Writes a single byte to the destination.
    fn write_byte(&mut self, byte: u8);

    /// Writes multiple bytes from a raw byte slice to the destination.
    fn write_bytes(&mut self, bytes: &[u8]);
}

/// Destinations that can be cleared and whose last byte can be inspected.
pub trait BufferedWrite {
    /// Clears all content from the destination.
    fn clear(&mut self);

    /// Returns the last written byte, if any.
    fn last_byte(&self) -> Option<u8>;
}

/// Reading and traversing bencode data character by character.
pub trait ISource: BencodeRead + RewindableRead {
    /// Advances the reading position to the next character.
    fn next(&mut self);

    /// Returns the character at the current reading position.
    fn current(&mut self) -> Option<char>;

    /// Checks if there are more characters available to read.
    fn more(&mut self) -> bool;
}

/// Writing text to a destination.
pub trait IDestination: BencodeWrite + BufferedWrite {
    /// Adds a single byte to the destination.
    fn add_byte(&mut self, byte: u8);

    /// Adds the UTF-8 bytes of a string slice to the destination.
    fn add_bytes(&mut self, bytes: &str);

    /// Returns the last byte in the destination, if any.
    fn last(&self) -> Option<u8>;
}

} // verus!
