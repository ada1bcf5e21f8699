//! Escaping of string content for the text formats.
use vstd::prelude::*;
use crate::io::destinations::buffer::Buffer as BufferDestination;
use vstd::string::StringSliceAdditionalSpecFns;

verus! {

broadcast use crate::nodes::node::lemma_dict_view;

/// A lowercase hexadecimal digit.
pub open spec fn hex_digit(n: u8) -> u8 {
    if n < 10 {
        (48 + n) as u8
    } else {
        (87 + n) as u8
    }
}

/// Printable ASCII other than space (`u8::is_ascii_graphic`).
pub open spec fn is_graphic(b: u8) -> bool {
    33 <= b <= 126
}

/// How one byte is written: `"` and `\` behind a backslash, printable ASCII and space as
/// they are, any other byte as `\u00` and its two lowercase hex digits.
pub open spec fn escape_byte(b: u8) -> Seq<u8> {
    if b == 34u8 || b == 92u8 {
        seq![92u8, b]
    } else if is_graphic(b) || b == 32u8 {
        seq![b]
    } else {
        seq![92u8, 117u8, 48u8, 48u8, hex_digit(b / 16), hex_digit(b % 16)]
    }
}

/// The escaped form of the bytes `b`, byte by byte.
pub open spec fn escape_bytes(b: Seq<u8>) -> Seq<u8>
    decreases b.len(),
{
    if b.len() == 0 {
        Seq::empty()
    } else {
        escape_bytes(b.drop_last()) + escape_byte(b.last())
    }
}

fn hex(n: u8) -> (r: u8)
    requires
        n < 16,
    ensures
        r == hex_digit(n),
{
    if n < 10 {
        48 + n
    } else {
        87 + n
    }
}

/// Appends the escaped form of the UTF-8 bytes of `value` to `out`.
pub fn push_escaped(value: &str, out: &mut Vec<u8>)
    ensures
        final(out)@ == old(out)@ + escape_bytes(value.spec_bytes()),
{
    let b = value.as_bytes();
    let mut i: usize = 0;
    while i < b.len()
        invariant
            0 <= i <= b@.len(),
            b@ == value.spec_bytes(),
            out@ == old(out)@ + escape_bytes(b@.subrange(0, i as int)),
        decreases b@.len() - i,
    {
        let x = b[i];
        let ghost before = out@;
        if x == 34u8 || x == 92u8 {
            out.push(92u8);
            out.push(x);
        } else if (33u8 <= x && x <= 126u8) || x == 32u8 {
            out.push(x);
        } else {
            out.push(92u8);
            out.push(117u8);
            out.push(48u8);
            out.push(48u8);
            out.push(hex(x / 16));
            out.push(hex(x % 16));
        }
        assert(out@ =~= before + escape_byte(x));
        assert(b@.subrange(0, i as int + 1).drop_last() =~= b@.subrange(0, i as int));
        i = i + 1;
        assert(out@ =~= old(out)@ + escape_bytes(b@.subrange(0, i as int)));
    }
    assert(b@.subrange(0, i as int) =~= b@);
}

/// Escapes `value` and writes it to `destination`.
pub fn escape_string(value: &str, destination: &mut BufferDestination)
    ensures
        final(destination).buffer@ == old(destination).buffer@ + escape_bytes(value.spec_bytes()),
{
    push_escaped(value, &mut destination.buffer);
}

} // verus!
