//! Byte and character level helpers shared by the parsers and the writers:
//! decimal numerals, Latin-1 widening of bytes, lexicographic order of keys.
use vstd::prelude::*;
use vstd::string::StringSliceAdditionalSpecFns;

verus! {

/// Each byte read from a source becomes the character with the same code (Latin-1).
pub open spec fn latin1(b: Seq<u8>) -> Seq<char> {
    b.map_values(|x: u8| x as char)
}

/// Whether a byte is an ASCII decimal digit.
pub open spec fn is_digit(b: u8) -> bool {
    48 <= b <= 57
}

/// The value of a sequence of decimal digits, most significant first.
pub open spec fn digits_value(d: Seq<u8>) -> nat
    decreases d.len(),
{
    if d.len() == 0 {
        0
    } else {
        digits_value(d.drop_last()) * 10 + (d.last() - 48) as nat
    }
}

pub open spec fn all_digits(d: Seq<u8>) -> bool {
    forall|i: int| 0 <= i < d.len() ==> is_digit(#[trigger] d[i])
}

/// What `i64::from_str` accepts: an optional sign, then one or more decimal digits,
/// with a value that fits in an `i64`.
pub open spec fn parse_i64_spec(b: Seq<u8>) -> Option<i64> {
    let neg = b.len() > 0 && b[0] == 45u8;
    let signed = b.len() > 0 && (b[0] == 45u8 || b[0] == 43u8);
    let d = if signed { b.drop_first() } else { b };
    if d.len() == 0 || !all_digits(d) {
        None
    } else if neg {
        if digits_value(d) <= 0x8000_0000_0000_0000 {
            Some((0 - digits_value(d)) as i64)
        } else {
            None
        }
    } else {
        if digits_value(d) <= 0x7fff_ffff_ffff_ffff {
            Some(digits_value(d) as i64)
        } else {
            None
        }
    }
}

/// What `usize::from_str` accepts: an optional `+`, then one or more decimal digits,
/// with a value that fits in a `usize`.
pub open spec fn parse_usize_spec(b: Seq<u8>) -> Option<usize> {
    let d = if b.len() > 0 && b[0] == 43u8 { b.drop_first() } else { b };
    if d.len() == 0 || !all_digits(d) || digits_value(d) > usize::MAX {
        None
    } else {
        Some(digits_value(d) as usize)
    }
}

proof fn lemma_digits_value_step(b: Seq<u8>, start: int, i: int)
    requires
        0 <= start <= i < b.len(),
    ensures
        digits_value(b.subrange(start, i + 1)) == digits_value(b.subrange(start, i)) * 10 + (
        b[i] - 48) as nat,
{
    assert(b.subrange(start, i + 1).drop_last() =~= b.subrange(start, i));
}

/// Reads the digits `b[start..end]`; `None` when one is not a digit or the value exceeds `bound`.
fn digits_up_to(b: &[u8], start: usize, end: usize, bound: u64) -> (r: Option<u64>)
    requires
        start <= end <= b@.len(),
    ensures
        match r {
            Some(v) => all_digits(b@.subrange(start as int, end as int)) && v == digits_value(
                b@.subrange(start as int, end as int),
            ) && v <= bound,
            None => !all_digits(b@.subrange(start as int, end as int)) || digits_value(
                b@.subrange(start as int, end as int),
            ) > bound,
        },
{
    let mut acc: u64 = 0;
    let mut i = start;
    while i < end
        invariant
            start <= i <= end <= b@.len(),
            all_digits(b@.subrange(start as int, i as int)),
            acc == digits_value(b@.subrange(start as int, i as int)),
            acc <= bound,
        decreases end - i,
    {
        let c = b[i];
        proof {
            lemma_digits_value_step(b@, start as int, i as int);
        }
        if c < 48 || c > 57 {
            assert(!is_digit(b@.subrange(start as int, end as int)[i - start]));
            return None;
        }
        let dv = (c - 48) as u64;
        if acc > bound / 10 || dv > bound || acc * 10 > bound - dv {
            proof {
                assert(acc * 10 + dv > bound) by (nonlinear_arith)
                    requires
                        acc > bound / 10 || dv > bound || acc * 10 > bound - dv,
                ;
                let w = b@.subrange(start as int, end as int);
                if all_digits(w) {
                    lemma_digits_prefix_bound(w, (i - start + 1) as int);
                    assert(w.subrange(0, i - start + 1) =~= b@.subrange(start as int, i + 1));
                }
            }
            return None;
        }
        acc = acc * 10 + dv;
        i = i + 1;
        assert forall|j: int| 0 <= j < b@.subrange(start as int, i as int).len() implies is_digit(
            #[trigger] b@.subrange(start as int, i as int)[j],
        ) by {
            if j < i - 1 - start {
                assert(b@.subrange(start as int, i as int)[j] == b@.subrange(start as int, (i - 1) as int)[j]);
            }
        }
    }
    Some(acc)
}

/// A longer run of digits never has a smaller value than any of its prefixes.
proof fn lemma_digits_prefix_bound(d: Seq<u8>, k: int)
    requires
        0 <= k <= d.len(),
        all_digits(d),
    ensures
        digits_value(d.subrange(0, k)) <= digits_value(d),
    decreases d.len(),
{
    if k < d.len() {
        assert(d.drop_last().subrange(0, k) =~= d.subrange(0, k));
        assert(all_digits(d.drop_last())) by {
            assert forall|i: int| 0 <= i < d.drop_last().len() implies is_digit(#[trigger] d.drop_last()[i]) by {
                assert(d.drop_last()[i] == d[i]);
            }
        }
        lemma_digits_prefix_bound(d.drop_last(), k);
        assert(digits_value(d) >= digits_value(d.drop_last()));
    } else {
        assert(d.subrange(0, k) =~= d);
    }
}

/// Parses `b[start..end]` as `i64::from_str` does.
pub fn parse_i64(b: &[u8], start: usize, end: usize) -> (r: Option<i64>)
    requires
        start <= end <= b@.len(),
    ensures
        r == parse_i64_spec(b@.subrange(start as int, end as int)),
{
    let ghost w = b@.subrange(start as int, end as int);
    if start == end {
        return None;
    }
    let first = b[start];
    let neg = first == 45u8;
    let signed = first == 45u8 || first == 43u8;
    let ds = if signed { start + 1 } else { start };
    proof {
        if signed {
            assert(w.drop_first() =~= b@.subrange(ds as int, end as int));
        } else {
            assert(w =~= b@.subrange(ds as int, end as int));
        }
    }
    if ds == end {
        return None;
    }
    let bound: u64 = if neg { 0x8000_0000_0000_0000 } else { 0x7fff_ffff_ffff_ffff };
    match digits_up_to(b, ds, end, bound) {
        None => None,
        Some(v) => {
            if neg {
                if v == 0x8000_0000_0000_0000 {
                    Some(i64::MIN)
                } else {
                    Some(0 - (v as i64))
                }
            } else {
                Some(v as i64)
            }
        },
    }
}

/// Parses `b[start..end]` as `usize::from_str` does.
pub fn parse_usize(b: &[u8], start: usize, end: usize) -> (r: Option<usize>)
    requires
        start <= end <= b@.len(),
    ensures
        r == parse_usize_spec(b@.subrange(start as int, end as int)),
{
    let ghost w = b@.subrange(start as int, end as int);
    let ds = if start < end && b[start] == 43u8 { start + 1 } else { start };
    proof {
        if start < end && b@[start as int] == 43u8 {
            assert(w.drop_first() =~= b@.subrange(ds as int, end as int));
        } else {
            assert(w =~= b@.subrange(ds as int, end as int));
        }
    }
    if ds == end {
        return None;
    }
    let bound: u64 = if usize::MAX as u64 <= u64::MAX { usize::MAX as u64 } else { u64::MAX };
    match digits_up_to(b, ds, end, bound) {
        None => None,
        Some(v) => Some(v as usize),
    }
}


/// Decimal numeral of a natural number, without leading zeros.
pub open spec fn nat_digits(n: nat) -> Seq<u8>
    decreases n,
{
    if n < 10 {
        seq![(48 + n) as u8]
    } else {
        nat_digits(n / 10).push((48 + n % 10) as u8)
    }
}

/// Decimal numeral of an integer, with a leading `-` when negative (as `i64::to_string` writes it).
pub open spec fn int_digits(i: int) -> Seq<u8> {
    if i < 0 {
        seq![45u8] + nat_digits((0 - i) as nat)
    } else {
        nat_digits(i as nat)
    }
}

/// Appends the decimal numeral of `n` to `out`.
pub fn push_nat_digits(n: u64, out: &mut Vec<u8>)
    ensures
        final(out)@ == old(out)@ + nat_digits(n as nat),
    decreases n,
{
    if n >= 10 {
        push_nat_digits(n / 10, out);
    }
    out.push(48 + (n % 10) as u8);
    assert(final(out)@ =~= old(out)@ + nat_digits(n as nat));
}

/// Appends the decimal numeral of `v` to `out`.
pub fn push_int_digits(v: i64, out: &mut Vec<u8>)
    ensures
        final(out)@ == old(out)@ + int_digits(v as int),
{
    if v < 0 {
        out.push(45u8);
        let m: u64 = if v == i64::MIN {
            0x8000_0000_0000_0000u64
        } else {
            (0 - v) as u64
        };
        let ghost mid = out@;
        push_nat_digits(m, out);
        assert(final(out)@ =~= old(out)@ + int_digits(v as int));
    } else {
        push_nat_digits(v as u64, out);
    }
}

/// Strict lexicographic order of character sequences by code point; this is the order
/// of `String` values in Rust, which compares their UTF-8 bytes.
pub open spec fn chars_lt(a: Seq<char>, b: Seq<char>) -> bool
    decreases a.len(),
{
    if a.len() == 0 {
        b.len() > 0
    } else if b.len() == 0 {
        false
    } else if a[0] != b[0] {
        (a[0] as int) < (b[0] as int)
    } else {
        chars_lt(a.drop_first(), b.drop_first())
    }
}

pub proof fn lemma_chars_lt_irreflexive(a: Seq<char>)
    ensures
        !chars_lt(a, a),
    decreases a.len(),
{
    if a.len() > 0 {
        lemma_chars_lt_irreflexive(a.drop_first());
    }
}

pub proof fn lemma_chars_lt_transitive(a: Seq<char>, b: Seq<char>, c: Seq<char>)
    requires
        chars_lt(a, b),
        chars_lt(b, c),
    ensures
        chars_lt(a, c),
    decreases a.len(),
{
    if a.len() > 0 && b.len() > 0 && c.len() > 0 {
        if a[0] == b[0] && b[0] == c[0] {
            lemma_chars_lt_transitive(a.drop_first(), b.drop_first(), c.drop_first());
        }
    }
}

pub proof fn lemma_chars_lt_total(a: Seq<char>, b: Seq<char>)
    ensures
        chars_lt(a, b) || chars_lt(b, a) || a == b,
    decreases a.len(),
{
    if a.len() > 0 && b.len() > 0 {
        if a[0] == b[0] {
            lemma_chars_lt_total(a.drop_first(), b.drop_first());
            if a.drop_first() == b.drop_first() {
                assert(a =~= seq![a[0]] + a.drop_first());
                assert(b =~= seq![b[0]] + b.drop_first());
            }
        } else {
            assert((a[0] as int) != (b[0] as int));
        }
    } else if a.len() == 0 && b.len() == 0 {
        assert(a =~= b);
    }
}

pub proof fn lemma_chars_lt_asymmetric(a: Seq<char>, b: Seq<char>)
    requires
        chars_lt(a, b),
    ensures
        !chars_lt(b, a),
{
    if chars_lt(b, a) {
        lemma_chars_lt_transitive(a, b, a);
        lemma_chars_lt_irreflexive(a);
    }
}

/// Decides `chars_lt(a@, b@)`.
pub fn chars_less(a: &[char], b: &[char]) -> (r: bool)
    ensures
        r == chars_lt(a@, b@),
{
    let mut i: usize = 0;
    assert(a@.skip(0) =~= a@);
    assert(b@.skip(0) =~= b@);
    while i < a.len() && i < b.len()
        invariant
            0 <= i <= a@.len(),
            i <= b@.len(),
            chars_lt(a@, b@) == chars_lt(a@.skip(i as int), b@.skip(i as int)),
        decreases a@.len() - i,
    {
        if a[i] != b[i] {
            assert(a@.skip(i as int)[0] == a@[i as int]);
            assert(b@.skip(i as int)[0] == b@[i as int]);
            return a[i] < b[i];
        }
        assert(a@.skip(i as int).drop_first() =~= a@.skip(i as int + 1));
        assert(b@.skip(i as int).drop_first() =~= b@.skip(i as int + 1));
        i = i + 1;
    }
    assert(a@.skip(i as int).len() == a@.len() - i);
    assert(b@.skip(i as int).len() == b@.len() - i);
    i < b.len()
}

/// Decides `a@ == b@`.
pub fn chars_equal(a: &[char], b: &[char]) -> (r: bool)
    ensures
        r == (a@ == b@),
{
    if a.len() != b.len() {
        return false;
    }
    let mut i: usize = 0;
    while i < a.len()
        invariant
            0 <= i <= a@.len(),
            a@.len() == b@.len(),
            forall|j: int| 0 <= j < i ==> a@[j] == b@[j],
        decreases a@.len() - i,
    {
        if a[i] != b[i] {
            return false;
        }
        i = i + 1;
    }
    assert(a@ =~= b@);
    true
}

/// The characters of `s`, in order.
pub fn chars_of(s: &str) -> (v: Vec<char>)
    ensures
        v@ == s@,
{
    let mut v: Vec<char> = Vec::new();
    for c in it: s.chars()
        invariant
            v@ == it.seq().take(it.index() as int),
            it.seq() == s@,
    {
        v.push(c);
    }
    v
}

/// `String::push`: appends one character to the string.
#[verifier::external_body]
pub fn push_char(s: &mut String, c: char)
    ensures
        final(s)@ == old(s)@.push(c),
{
    s.push(c);
}

/// A string of the Latin-1 characters of the bytes `b[start..end]`.
pub fn latin1_string(b: &[u8], start: usize, end: usize) -> (r: String)
    requires
        start <= end <= b@.len(),
    ensures
        r@ == latin1(b@.subrange(start as int, end as int)),
{
    let mut r = String::new();
    let mut i = start;
    while i < end
        invariant
            start <= i <= end <= b@.len(),
            r@ == latin1(b@.subrange(start as int, i as int)),
        decreases end - i,
    {
        push_char(&mut r, b[i] as char);
        i = i + 1;
        assert(r@ =~= latin1(b@.subrange(start as int, i as int)));
    }
    r
}

/// The Latin-1 characters of the bytes `b[start..end]`.
pub fn latin1_chars(b: &[u8], start: usize, end: usize) -> (r: Vec<char>)
    requires
        start <= end <= b@.len(),
    ensures
        r@ == latin1(b@.subrange(start as int, end as int)),
{
    let mut r: Vec<char> = Vec::new();
    let mut i = start;
    while i < end
        invariant
            start <= i <= end <= b@.len(),
            r@ == latin1(b@.subrange(start as int, i as int)),
        decreases end - i,
    {
        r.push(b[i] as char);
        i = i + 1;
        assert(r@ =~= latin1(b@.subrange(start as int, i as int)));
    }
    r
}


/// The text that `String::from_utf8_lossy` makes of the bytes `b`.
pub uninterp spec fn utf8_lossy(b: Seq<u8>) -> Seq<char>;

/// `String::from_utf8_lossy(b).into_owned()`: the result is named `utf8_lossy`; for valid
/// UTF-8 it is the decoded text, as the function's documentation states. What replaces
/// invalid sequences is left unsaid.
#[verifier::external_body]
pub fn string_from_utf8_lossy(b: &[u8]) -> (r: String)
    ensures
        r@ == utf8_lossy(b@),
        vstd::utf8::valid_utf8(b@) ==> r@ == vstd::utf8::decode_utf8(b@),
{
    String::from_utf8_lossy(b).into_owned()
}


/// A vector holding the bytes `b[start..end]`.
pub fn copy_range(b: &[u8], start: usize, end: usize) -> (r: Vec<u8>)
    requires
        start <= end <= b@.len(),
    ensures
        r@ == b@.subrange(start as int, end as int),
{
    let mut r: Vec<u8> = Vec::new();
    let mut i = start;
    while i < end
        invariant
            start <= i <= end <= b@.len(),
            r@ == b@.subrange(start as int, i as int),
        decreases end - i,
    {
        r.push(b[i]);
        i = i + 1;
        assert(r@ =~= b@.subrange(start as int, i as int));
    }
    r
}


/// Appends the bytes `b` to `out`.
pub fn push_bytes(out: &mut Vec<u8>, b: &[u8])
    ensures
        final(out)@ == old(out)@ + b@,
{
    let mut i: usize = 0;
    while i < b.len()
        invariant
            0 <= i <= b@.len(),
            out@ == old(out)@ + b@.subrange(0, i as int),
        decreases b@.len() - i,
    {
        out.push(b[i]);
        i = i + 1;
        assert(out@ =~= old(out)@ + b@.subrange(0, i as int));
    }
    assert(b@.subrange(0, i as int) =~= b@);
}

/// Appends the UTF-8 bytes of `s` to `out`.
pub fn push_str(out: &mut Vec<u8>, s: &str)
    ensures
        final(out)@ == old(out)@ + s.spec_bytes(),
{
    push_bytes(out, s.as_bytes());
}

} // verus!
