//! A parser that allocates no string: its values borrow their bytes from the input. It is
//! more lenient than the default parser: `-0` is read as 0 and dictionary keys may come in
//! any order.
use vstd::prelude::*;
use crate::error::embedded::BencodeError;
use crate::nodes::borrowed::{
    BorrowedDict, BorrowedModel, BorrowedNode, borrowed_entries, borrowed_list,
    lemma_borrowed_entries_push, lemma_borrowed_list_push,
};
use crate::parser::default::{find, find_byte, lemma_find_byte};
use crate::text::{parse_i64, parse_i64_spec, parse_usize, parse_usize_spec};

verus! {

broadcast use crate::nodes::node::lemma_dict_view;

/// A borrowed parse outcome: the value or the error, and the position reading stopped at.
pub type BorrowedOutcome = (Result<BorrowedModel, BencodeError>, int);

/// An integer whose `i` is at `q - 1`: the text up to the next `e` read as `i64::from_str`
/// reads it.
pub open spec fn spec_borrowed_integer(s: Seq<u8>, q: int) -> BorrowedOutcome {
    let k = find_byte(s, q, 101u8);
    if k >= s.len() {
        (Err(BencodeError::UnterminatedInteger), s.len() as int)
    } else {
        match parse_i64_spec(s.subrange(q, k)) {
            Some(v) => (Ok(BorrowedModel::Integer(v)), k + 1),
            None => (Err(BencodeError::InvalidInteger), k + 1),
        }
    }
}

/// A byte string starting at `p`: its length is the text up to the next `:` (or up to the
/// end when there is none), then that many bytes.
pub open spec fn spec_borrowed_bytes(s: Seq<u8>, p: int) -> (Result<Seq<u8>, BencodeError>, int) {
    let k = find_byte(s, p, 58u8);
    let after = if k < s.len() {
        k + 1
    } else {
        s.len() as int
    };
    match parse_usize_spec(s.subrange(p, k)) {
        None => (Err(BencodeError::InvalidStringLength), after),
        Some(n) => if after + n <= s.len() {
            (Ok(s.subrange(after, after + n)), after + n)
        } else {
            (Err(BencodeError::StringTooShort), s.len() as int)
        },
    }
}

/// The borrowed value that starts at position `p` of `s`.
pub open spec fn spec_borrowed(s: Seq<u8>, p: int) -> BorrowedOutcome
    decreases s.len() - p, 0int,
{
    if p < 0 || p >= s.len() {
        (Err(BencodeError::EmptyInput), p)
    } else {
        let c = s[p];
        if c == 105u8 {
            spec_borrowed_integer(s, p + 1)
        } else if c == 108u8 {
            spec_borrowed_list(s, p + 1, Seq::empty())
        } else if c == 100u8 {
            spec_borrowed_dict(s, p + 1, Seq::empty())
        } else if (48u8 <= c && c <= 57u8) || c == 58u8 {
            match spec_borrowed_bytes(s, p) {
                (Ok(b), q) => (Ok(BorrowedModel::Bytes(b)), q),
                (Err(e), q) => (Err(e), q),
            }
        } else {
            (Err(BencodeError::UnexpectedCharacter(c as char)), p)
        }
    }
}

/// The rest of a borrowed list from position `q`, after the items `acc`.
pub open spec fn spec_borrowed_list(s: Seq<u8>, q: int, acc: Seq<BorrowedModel>) -> BorrowedOutcome
    decreases s.len() - q, 1int,
{
    if q < 0 || q >= s.len() {
        (Err(BencodeError::UnterminatedList), q)
    } else if s[q] == 101u8 {
        (Ok(BorrowedModel::List(acc)), q + 1)
    } else {
        match spec_borrowed(s, q) {
            (Err(e), q2) => (Err(e), q2),
            (Ok(n), q2) => if q < q2 <= s.len() {
                spec_borrowed_list(s, q2, acc.push(n))
            } else {
                (Err(BencodeError::EmptyInput), q2)
            },
        }
    }
}

/// The rest of a borrowed dictionary from position `q`, after the entries `acc`; each key
/// must be a string.
pub open spec fn spec_borrowed_dict(
    s: Seq<u8>,
    q: int,
    acc: Seq<(Seq<u8>, BorrowedModel)>,
) -> BorrowedOutcome
    decreases s.len() - q, 1int,
{
    if q < 0 || q >= s.len() {
        (Err(BencodeError::UnterminatedDictionary), q)
    } else if s[q] == 101u8 {
        (Ok(BorrowedModel::Dictionary(acc)), q + 1)
    } else {
        match spec_borrowed_bytes(s, q) {
            (Err(_), q2) => (Err(BencodeError::DictKeyMustBeString), q2),
            (Ok(key), q2) => if !(q < q2 <= s.len()) {
                (Err(BencodeError::EmptyInput), q2)
            } else {
                match spec_borrowed(s, q2) {
                    (Err(e), q3) => (Err(e), q3),
                    (Ok(v), q3) => if q2 < q3 <= s.len() {
                        spec_borrowed_dict(s, q3, acc.push((key, v)))
                    } else {
                        (Err(BencodeError::EmptyInput), q3)
                    },
                }
            },
        }
    }
}

/// The model of a borrowed parse result.
pub open spec fn borrowed_result(r: Result<BorrowedNode, BencodeError>) -> Result<
    BorrowedModel,
    BencodeError,
> {
    match r {
        Ok(n) => Ok(n@),
        Err(e) => Err(e),
    }
}

/// Every successful borrowed parse consumes at least one byte and stays within the input.
pub proof fn lemma_borrowed_progress(s: Seq<u8>, p: int)
    ensures
        spec_borrowed(s, p).0 is Ok ==> p < spec_borrowed(s, p).1 <= s.len(),
    decreases s.len() - p, 0int,
{
    if 0 <= p < s.len() {
        let c = s[p];
        if c == 105u8 {
            lemma_find_byte(s, p + 1, 101u8);
        } else if c == 108u8 {
            lemma_borrowed_list_progress(s, p + 1, Seq::empty());
        } else if c == 100u8 {
            lemma_borrowed_dict_progress(s, p + 1, Seq::empty());
        } else if (48u8 <= c && c <= 57u8) || c == 58u8 {
            lemma_find_byte(s, p, 58u8);
        }
    }
}

pub proof fn lemma_borrowed_list_progress(s: Seq<u8>, q: int, acc: Seq<BorrowedModel>)
    ensures
        spec_borrowed_list(s, q, acc).0 is Ok ==> q < spec_borrowed_list(s, q, acc).1 <= s.len(),
    decreases s.len() - q, 1int,
{
    if 0 <= q < s.len() && s[q] != 101u8 {
        lemma_borrowed_progress(s, q);
        let (r, q2) = spec_borrowed(s, q);
        if r is Ok && q < q2 <= s.len() {
            lemma_borrowed_list_progress(s, q2, acc.push(r->Ok_0));
        }
    }
}

pub proof fn lemma_borrowed_dict_progress(s: Seq<u8>, q: int, acc: Seq<(Seq<u8>, BorrowedModel)>)
    ensures
        spec_borrowed_dict(s, q, acc).0 is Ok ==> q < spec_borrowed_dict(s, q, acc).1 <= s.len(),
    decreases s.len() - q, 1int,
{
    if 0 <= q < s.len() && s[q] != 101u8 {
        let (kr, q2) = spec_borrowed_bytes(s, q);
        if kr is Ok && q < q2 <= s.len() {
            lemma_borrowed_progress(s, q2);
            let (vr, q3) = spec_borrowed(s, q2);
            if vr is Ok && q2 < q3 <= s.len() {
                lemma_borrowed_dict_progress(s, q3, acc.push((kr->Ok_0, vr->Ok_0)));
            }
        }
    }
}

fn borrowed_integer(s: &[u8], q: usize) -> (r: (Result<i64, BencodeError>, usize))
    requires
        q <= s@.len(),
    ensures
        spec_borrowed_integer(s@, q as int) == (match r.0 {
            Ok(v) => Ok(BorrowedModel::Integer(v)),
            Err(e) => Err(e),
        }, r.1 as int),
{
    let k = find(s, q, 101u8);
    proof {
        lemma_find_byte(s@, q as int, 101u8);
    }
    if k >= s.len() {
        return (Err(BencodeError::UnterminatedInteger), s.len());
    }
    match parse_i64(s, q, k) {
        Some(v) => (Ok(v), k + 1),
        None => (Err(BencodeError::InvalidInteger), k + 1),
    }
}

fn borrowed_bytes<'a>(s: &'a [u8], p: usize) -> (r: (Result<&'a [u8], BencodeError>, usize))
    requires
        p <= s@.len(),
    ensures
        spec_borrowed_bytes(s@, p as int) == (match r.0 {
            Ok(b) => Ok(b@),
            Err(e) => Err(e),
        }, r.1 as int),
{
    let k = find(s, p, 58u8);
    proof {
        lemma_find_byte(s@, p as int, 58u8);
    }
    let after = if k < s.len() {
        k + 1
    } else {
        s.len()
    };
    match parse_usize(s, p, k) {
        None => (Err(BencodeError::InvalidStringLength), after),
        Some(n) => {
            if n <= s.len() - after {
                (Ok(&s[after..after + n]), after + n)
            } else {
                (Err(BencodeError::StringTooShort), s.len())
            }
        },
    }
}

/// Parses the borrowed value starting at position `p` of `s`.
pub fn borrowed_value<'a>(s: &'a [u8], p: usize) -> (r: (Result<BorrowedNode<'a>, BencodeError>, usize))
    ensures
        (borrowed_result(r.0), r.1 as int) == spec_borrowed(s@, p as int),
    decreases s@.len() - p, 0int,
{
    if p >= s.len() {
        return (Err(BencodeError::EmptyInput), p);
    }
    let c = s[p];
    if c == 105u8 {
        let (r, q) = borrowed_integer(s, p + 1);
        match r {
            Ok(v) => (Ok(BorrowedNode::Integer(v)), q),
            Err(e) => (Err(e), q),
        }
    } else if c == 108u8 {
        borrowed_list_rest(s, p + 1)
    } else if c == 100u8 {
        borrowed_dict_rest(s, p + 1)
    } else if (48u8 <= c && c <= 57u8) || c == 58u8 {
        let (r, q) = borrowed_bytes(s, p);
        match r {
            Ok(b) => (Ok(BorrowedNode::Bytes(b)), q),
            Err(e) => (Err(e), q),
        }
    } else {
        (Err(BencodeError::UnexpectedCharacter(c as char)), p)
    }
}

fn borrowed_list_rest<'a>(s: &'a [u8], q0: usize) -> (r: (Result<BorrowedNode<'a>, BencodeError>, usize))
    requires
        q0 <= s@.len(),
    ensures
        (borrowed_result(r.0), r.1 as int) == spec_borrowed_list(s@, q0 as int, Seq::empty()),
    decreases s@.len() - q0, 1int,
{
    let mut items: Vec<BorrowedNode<'a>> = Vec::new();
    let mut q = q0;
    while q < s.len()
        invariant
            q0 <= q <= s@.len(),
            spec_borrowed_list(s@, q as int, borrowed_list(items@)) == spec_borrowed_list(
                s@,
                q0 as int,
                Seq::empty(),
            ),
        decreases s@.len() - q,
    {
        if s[q] == 101u8 {
            return (Ok(BorrowedNode::List(items)), q + 1);
        }
        let (r, q2) = borrowed_value(s, q);
        proof {
            lemma_borrowed_progress(s@, q as int);
        }
        match r {
            Err(e) => {
                return (Err(e), q2);
            },
            Ok(n) => {
                proof {
                    lemma_borrowed_list_push(items@, n);
                }
                items.push(n);
                q = q2;
            },
        }
    }
    (Err(BencodeError::UnterminatedList), q)
}

fn borrowed_dict_rest<'a>(s: &'a [u8], q0: usize) -> (r: (Result<BorrowedNode<'a>, BencodeError>, usize))
    requires
        q0 <= s@.len(),
    ensures
        (borrowed_result(r.0), r.1 as int) == spec_borrowed_dict(s@, q0 as int, Seq::empty()),
    decreases s@.len() - q0, 1int,
{
    let mut entries: Vec<(&'a [u8], BorrowedNode<'a>)> = Vec::new();
    let mut q = q0;
    while q < s.len()
        invariant
            q0 <= q <= s@.len(),
            spec_borrowed_dict(s@, q as int, borrowed_entries(entries@)) == spec_borrowed_dict(
                s@,
                q0 as int,
                Seq::empty(),
            ),
        decreases s@.len() - q,
    {
        if s[q] == 101u8 {
            return (Ok(BorrowedNode::Dictionary(BorrowedDict { entries })), q + 1);
        }
        let (kr, q2) = borrowed_bytes(s, q);
        match kr {
            Err(_) => {
                return (Err(BencodeError::DictKeyMustBeString), q2);
            },
            Ok(key) => {
                proof {
                    lemma_find_byte(s@, q as int, 58u8);
                }
                let (vr, q3) = borrowed_value(s, q2);
                proof {
                    lemma_borrowed_progress(s@, q2 as int);
                }
                match vr {
                    Err(e) => {
                        return (Err(e), q3);
                    },
                    Ok(v) => {
                        proof {
                            lemma_borrowed_entries_push(entries@, (key, v));
                        }
                        entries.push((key, v));
                        q = q3;
                    },
                }
            },
        }
    }
    (Err(BencodeError::UnterminatedDictionary), q)
}

/// Parses the value at the start of `data` into a value that borrows its strings from
/// `data`. An error is reported by its fixed description.
pub fn parse_borrowed<'a>(data: &'a [u8]) -> (r: Result<BorrowedNode<'a>, &'static str>)
    ensures
        match spec_borrowed(data@, 0).0 {
            Ok(m) => r matches Ok(n) && n@ == m,
            Err(e) => r matches Err(msg) && msg@ == e.spec_as_str(),
        },
{
    let (r, _) = borrowed_value(data, 0);
    match r {
        Ok(n) => Ok(n),
        Err(e) => Err(e.as_str()),
    }
}

/// Checks that `data` starts with a well-formed value, building no tree of it.
pub fn validate_bencode(data: &[u8]) -> (r: Result<(), &'static str>)
    ensures
        match spec_borrowed(data@, 0).0 {
            Ok(_) => r is Ok,
            Err(e) => r matches Err(msg) && msg@ == e.spec_as_str(),
        },
{
    match parse_borrowed(data) {
        Ok(_) => Ok(()),
        Err(e) => Err(e),
    }
}

} // verus!
