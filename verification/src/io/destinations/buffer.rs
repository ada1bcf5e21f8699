//! A destination that collects the written bytes in memory.
use vstd::prelude::*;
use crate::io::traits::{BencodeWrite, BufferedWrite, IDestination};
use vstd::string::StringSliceAdditionalSpecFns;
use crate::text::{string_from_utf8_lossy, utf8_lossy};

verus! {

/// The bytes written so far.
pub struct Buffer {
    pub buffer: Vec<u8>,
}

impl Buffer {
    /// An empty destination.
    pub fn new() -> (r: Buffer)
        ensures
            r.buffer@ == Seq::<u8>::empty(),
    {
        Buffer { buffer: Vec::new() }
    }

    /// The written bytes as text, invalid UTF-8 replaced as `String::from_utf8_lossy` does.
    pub fn to_string(&self) -> (r: String)
        ensures
            r@ == utf8_lossy(self.buffer@),
            vstd::utf8::valid_utf8(self.buffer@) ==> r@ == vstd::utf8::decode_utf8(self.buffer@),
    {
        string_from_utf8_lossy(self.buffer.as_slice())
    }

    /// Appends one byte.
    pub fn add_byte(&mut self, byte: u8)
        ensures
            final(self).buffer@ == old(self).buffer@.push(byte),
    {
        self.buffer.push(byte);
    }

    /// Appends the UTF-8 bytes of `bytes`.
    pub fn add_bytes(&mut self, bytes: &str)
        ensures
            final(self).buffer@ == old(self).buffer@ + bytes.spec_bytes(),
    {
        self.add_raw(bytes.as_bytes());
    }

    /// Appends the bytes of `bytes`.
    pub fn add_raw(&mut self, bytes: &[u8])
        ensures
            final(self).buffer@ == old(self).buffer@ + bytes@,
    {
        let mut i: usize = 0;
        while i < bytes.len()
            invariant
                0 <= i <= bytes@.len(),
                self.buffer@ == old(self).buffer@ + bytes@.subrange(0, i as int),
            decreases bytes@.len() - i,
        {
            self.buffer.push(bytes[i]);
            i = i + 1;
            assert(self.buffer@ =~= old(self).buffer@ + bytes@.subrange(0, i as int));
        }
        assert(bytes@.subrange(0, i as int) =~= bytes@);
    }

    /// Removes everything written.
    pub fn clear(&mut self)
        ensures
            final(self).buffer@ == Seq::<u8>::empty(),
    {
        self.buffer.clear();
    }

    /// The last byte written, if any.
    pub fn last(&self) -> (r: Option<u8>)
        ensures
            r == (if self.buffer@.len() > 0 {
                Some(self.buffer@.last())
            } else {
                None
            }),
    {
        if self.buffer.len() > 0 {
            Some(self.buffer[self.buffer.len() - 1])
        } else {
            None
        }
    }
}

impl BencodeWrite for Buffer {
    fn write_byte(&mut self, byte: u8)
        ensures
            final(self).buffer@ == old(self).buffer@.push(byte),
    {
        self.buffer.push(byte);
    }

    fn write_bytes(&mut self, bytes: &[u8])
        ensures
            final(self).buffer@ == old(self).buffer@ + bytes@,
    {
        self.add_raw(bytes);
    }
}

impl BufferedWrite for Buffer {
    fn clear(&mut self)
        ensures
            final(self).buffer@ == Seq::<u8>::empty(),
    {
        self.buffer.clear();
    }

    fn last_byte(&self) -> (r: Option<u8>)
        ensures
            r == (if self.buffer@.len() > 0 {
                Some(self.buffer@.last())
            } else {
                None
            }),
    {
        if self.buffer.len() > 0 {
            Some(self.buffer[self.buffer.len() - 1])
        } else {
            None
        }
    }
}

impl IDestination for Buffer {
    fn add_byte(&mut self, byte: u8)
        ensures
            final(self).buffer@ == old(self).buffer@.push(byte),
    {
        self.write_byte(byte);
    }

    fn add_bytes(&mut self, bytes: &str)
        ensures
            final(self).buffer@ == old(self).buffer@ + bytes.spec_bytes(),
    {
        self.write_bytes(bytes.as_bytes());
    }

    fn last(&self) -> (r: Option<u8>)
        ensures
            r == (if self.buffer@.len() > 0 {
                Some(self.buffer@.last())
            } else {
                None
            }),
    {
        self.last_byte()
    }
}

} // verus!
