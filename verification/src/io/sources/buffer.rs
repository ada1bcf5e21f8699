//! A source that reads from bytes held in memory.
use vstd::prelude::*;
use crate::io::traits::{BencodeRead, ISource, RewindableRead};
use crate::text::{copy_range, string_from_utf8_lossy, utf8_lossy};

verus! {

/// Bytes held in memory and a reading position into them.
pub struct Buffer {
    buffer: Vec<u8>,
    position: usize,
}

impl Buffer {
    /// The bytes of the source.
    pub closed spec fn bytes(&self) -> Seq<u8> {
        self.buffer@
    }

    /// The reading position (it may lie past the last byte).
    pub closed spec fn pos(&self) -> int {
        self.position as int
    }

    /// A source over a copy of `to_add`, positioned at its first byte.
    pub fn new(to_add: &[u8]) -> (r: Buffer)
        ensures
            r.bytes() == to_add@,
            r.pos() == 0,
    {
        assert(to_add@.subrange(0, to_add@.len() as int) =~= to_add@);
        Buffer { buffer: copy_range(to_add, 0, to_add.len()), position: 0 }
    }

    /// The bytes as text, invalid UTF-8 replaced as `String::from_utf8_lossy` does.
    pub fn to_string(&self) -> (r: String)
        ensures
            r@ == utf8_lossy(self.bytes()),
            vstd::utf8::valid_utf8(self.bytes()) ==> r@ == vstd::utf8::decode_utf8(self.bytes()),
    {
        string_from_utf8_lossy(self.buffer.as_slice())
    }

    /// The bytes, for reading in place.
    pub fn as_slice(&self) -> (r: &[u8])
        ensures
            r@ == self.bytes(),
    {
        self.buffer.as_slice()
    }

    /// The reading position.
    pub fn position(&self) -> (r: usize)
        ensures
            r == self.pos(),
    {
        self.position
    }

    /// Moves the reading position to `p`.
    pub fn set_position(&mut self, p: usize)
        ensures
            final(self).bytes() == old(self).bytes(),
            final(self).pos() == p,
    {
        self.position = p;
    }

    /// Moves to the next byte.
    pub fn next(&mut self)
        requires
            old(self).pos() < usize::MAX,
        ensures
            final(self).bytes() == old(self).bytes(),
            final(self).pos() == old(self).pos() + 1,
    {
        self.position = self.position + 1;
    }

    /// The current byte as a character (Latin-1), or `None` past the end.
    pub fn current(&self) -> (r: Option<char>)
        ensures
            r == (if self.pos() < self.bytes().len() {
                Some(self.bytes()[self.pos()] as char)
            } else {
                None
            }),
    {
        if self.position < self.buffer.len() {
            Some(self.buffer[self.position] as char)
        } else {
            None
        }
    }

    /// Whether the position is on a byte.
    pub fn more(&self) -> (r: bool)
        ensures
            r == (self.pos() < self.bytes().len()),
    {
        self.position < self.buffer.len()
    }

    /// Goes back to the first byte.
    pub fn reset(&mut self)
        ensures
            final(self).bytes() == old(self).bytes(),
            final(self).pos() == 0,
    {
        self.position = 0;
    }
}

impl BencodeRead for Buffer {
    fn peek_byte(&mut self) -> (r: Option<u8>)
        ensures
            *final(self) == *old(self),
            r == (if old(self).pos() < old(self).bytes().len() {
                Some(old(self).bytes()[old(self).pos()])
            } else {
                None
            }),
    {
        if self.position < self.buffer.len() {
            Some(self.buffer[self.position])
        } else {
            None
        }
    }

    fn read_byte(&mut self) -> (r: Option<u8>)
        ensures
            final(self).bytes() == old(self).bytes(),
            r == (if old(self).pos() < old(self).bytes().len() {
                Some(old(self).bytes()[old(self).pos()])
            } else {
                None
            }),
            final(self).pos() == (if old(self).pos() < usize::MAX {
                old(self).pos() + 1
            } else {
                old(self).pos()
            }),
    {
        let r = if self.position < self.buffer.len() {
            Some(self.buffer[self.position])
        } else {
            None
        };
        if self.position < usize::MAX {
            self.position = self.position + 1;
        }
        r
    }

    fn advance(&mut self)
        ensures
            final(self).bytes() == old(self).bytes(),
            final(self).pos() == (if old(self).pos() < usize::MAX {
                old(self).pos() + 1
            } else {
                old(self).pos()
            }),
    {
        if self.position < usize::MAX {
            self.position = self.position + 1;
        }
    }

    fn has_more(&mut self) -> (r: bool)
        ensures
            *final(self) == *old(self),
            r == (old(self).pos() < old(self).bytes().len()),
    {
        self.position < self.buffer.len()
    }
}

impl RewindableRead for Buffer {
    fn reset(&mut self)
        ensures
            final(self).bytes() == old(self).bytes(),
            final(self).pos() == 0,
    {
        self.position = 0;
    }
}

impl ISource for Buffer {
    fn next(&mut self)
        ensures
            final(self).bytes() == old(self).bytes(),
            final(self).pos() == (if old(self).pos() < usize::MAX {
                old(self).pos() + 1
            } else {
                old(self).pos()
            }),
    {
        self.advance();
    }

    fn current(&mut self) -> (r: Option<char>)
        ensures
            *final(self) == *old(self),
            r == (if old(self).pos() < old(self).bytes().len() {
                Some(old(self).bytes()[old(self).pos()] as char)
            } else {
                None
            }),
    {
        match self.peek_byte() {
            Some(b) => Some(b as char),
            None => None,
        }
    }

    fn more(&mut self) -> (r: bool)
        ensures
            *final(self) == *old(self),
            r == (old(self).pos() < old(self).bytes().len()),
    {
        self.has_more()
    }
}

} // verus!
