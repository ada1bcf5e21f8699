//! The recursive-descent parser: what bencode bytes mean, and a parser that follows it.
use vstd::prelude::*;
use crate::error::embedded::BencodeError;
use crate::io::sources::buffer::Buffer as BufferSource;
use crate::nodes::node::{
    Dict, Node, NodeModel, entries_sorted, lemma_model_entries_push, lemma_model_list_push,
    model_entries, model_list,
};
use crate::text::{
    chars_less, chars_lt, latin1, latin1_chars, latin1_string, lemma_chars_lt_transitive,
    parse_i64, parse_i64_spec,
    parse_usize, parse_usize_spec,
};
use vstd::string::StringSliceAdditionalSpecFns;

verus! {

broadcast use crate::nodes::node::lemma_dict_view;

/// The position of the first byte `b` at or after `p`, or the length of `s` when there is none.
pub open spec fn find_byte(s: Seq<u8>, p: int, b: u8) -> int
    decreases s.len() - p,
{
    if p >= s.len() {
        s.len() as int
    } else if s[p] == b {
        p
    } else {
        find_byte(s, p + 1, b)
    }
}

/// A parse outcome: the value or the error, and the position reading stopped at.
pub type Outcome = (Result<NodeModel, BencodeError>, int);

/// An integer whose `i` is at `q - 1`: the text up to the next `e` read as `i64::from_str`
/// reads it, where `-0` is refused.
pub open spec fn spec_parse_integer(s: Seq<u8>, q: int) -> Outcome {
    let k = find_byte(s, q, 101u8);
    if k >= s.len() {
        (Err(BencodeError::UnterminatedInteger), s.len() as int)
    } else {
        let d = s.subrange(q, k);
        if d == seq![45u8, 48u8] {
            (Err(BencodeError::InvalidInteger), k + 1)
        } else {
            match parse_i64_spec(d) {
                Some(v) => (Ok(NodeModel::Integer(v)), k + 1),
                None => (Err(BencodeError::InvalidInteger), k + 1),
            }
        }
    }
}

/// A string starting at `p`: its length is the text up to the next `:` (or up to the end
/// when there is none), read as `usize::from_str` reads it; then that many bytes, each a
/// character.
pub open spec fn spec_parse_string(s: Seq<u8>, p: int) -> (Result<Seq<char>, BencodeError>, int) {
    let k = find_byte(s, p, 58u8);
    let after = if k < s.len() {
        k + 1
    } else {
        s.len() as int
    };
    match parse_usize_spec(s.subrange(p, k)) {
        None => (Err(BencodeError::InvalidStringLength), after),
        Some(n) => if after + n <= s.len() {
            (Ok(latin1(s.subrange(after, after + n))), after + n)
        } else {
            (Err(BencodeError::InvalidStringLength), s.len() as int)
        },
    }
}

/// The value that starts at position `p` of `s`.
pub open spec fn spec_parse(s: Seq<u8>, p: int) -> Outcome
    decreases s.len() - p, 0int,
{
    if p < 0 || p >= s.len() {
        (Err(BencodeError::EmptyInput), p)
    } else {
        let c = s[p];
        if c == 105u8 {
            spec_parse_integer(s, p + 1)
        } else if c == 108u8 {
            spec_parse_list(s, p + 1, Seq::empty())
        } else if c == 100u8 {
            spec_parse_dict(s, p + 1, Seq::empty(), Seq::empty())
        } else if (48u8 <= c && c <= 57u8) || c == 58u8 {
            match spec_parse_string(s, p) {
                (Ok(t), q) => (Ok(NodeModel::Str(t)), q),
                (Err(e), q) => (Err(e), q),
            }
        } else {
            (Err(BencodeError::UnexpectedCharacter(c as char)), p)
        }
    }
}

/// The rest of a list from position `q`, after the items `acc`.
pub open spec fn spec_parse_list(s: Seq<u8>, q: int, acc: Seq<NodeModel>) -> Outcome
    decreases s.len() - q, 1int,
{
    if q < 0 || q >= s.len() {
        (Err(BencodeError::UnterminatedList), q)
    } else if s[q] == 101u8 {
        (Ok(NodeModel::List(acc)), q + 1)
    } else {
        match spec_parse(s, q) {
            (Err(e), q2) => (Err(e), q2),
            (Ok(n), q2) => if q < q2 <= s.len() {
                spec_parse_list(s, q2, acc.push(n))
            } else {
                (Err(BencodeError::EmptyInput), q2)
            },
        }
    }
}

/// The rest of a dictionary from position `q`, after the entries `acc` whose last key is `last`.
/// Each key must be a string greater than the one before it (the first greater than the empty
/// string).
pub open spec fn spec_parse_dict(
    s: Seq<u8>,
    q: int,
    acc: Seq<(Seq<char>, NodeModel)>,
    last: Seq<char>,
) -> Outcome
    decreases s.len() - q, 1int,
{
    if q < 0 || q >= s.len() {
        (Err(BencodeError::UnterminatedDictionary), q)
    } else if s[q] == 101u8 {
        (Ok(NodeModel::Dictionary(acc)), q + 1)
    } else {
        match spec_parse_string(s, q) {
            (Err(_), q2) => (Err(BencodeError::DictKeyMustBeString), q2),
            (Ok(key), q2) => if !chars_lt(last, key) {
                (Err(BencodeError::DictKeysOutOfOrder), q2)
            } else if !(q < q2 <= s.len()) {
                (Err(BencodeError::EmptyInput), q2)
            } else {
                match spec_parse(s, q2) {
                    (Err(e), q3) => (Err(e), q3),
                    (Ok(v), q3) => if q2 < q3 <= s.len() {
                        spec_parse_dict(s, q3, acc.push((key, v)), key)
                    } else {
                        (Err(BencodeError::EmptyInput), q3)
                    },
                }
            }
        }
    }
}

/// The model of a parse result.
pub open spec fn result_model(r: Result<Node, BencodeError>) -> Result<NodeModel, BencodeError> {
    match r {
        Ok(n) => Ok(n@),
        Err(e) => Err(e),
    }
}

pub proof fn lemma_find_byte(s: Seq<u8>, p: int, b: u8)
    requires
        0 <= p,
    ensures
        p <= find_byte(s, p, b) || (p > s.len() && find_byte(s, p, b) == s.len()),
        find_byte(s, p, b) <= s.len() || find_byte(s, p, b) == p,
        find_byte(s, p, b) < s.len() ==> s[find_byte(s, p, b)] == b,
        forall|j: int| p <= j < find_byte(s, p, b) && j < s.len() ==> s[j] != b,
    decreases s.len() - p,
{
    if p < s.len() && s[p] != b {
        lemma_find_byte(s, p + 1, b);
    }
}

/// Every successful parse consumes at least one byte and stays within the input.
pub proof fn lemma_parse_progress(s: Seq<u8>, p: int)
    ensures
        spec_parse(s, p).0 is Ok ==> p < spec_parse(s, p).1 <= s.len(),
    decreases s.len() - p, 0int,
{
    if 0 <= p < s.len() {
        let c = s[p];
        if c == 105u8 {
            lemma_find_byte(s, p + 1, 101u8);
        } else if c == 108u8 {
            lemma_parse_list_progress(s, p + 1, Seq::empty());
        } else if c == 100u8 {
            lemma_parse_dict_progress(s, p + 1, Seq::empty(), Seq::empty());
        } else if (48u8 <= c && c <= 57u8) || c == 58u8 {
            lemma_find_byte(s, p, 58u8);
        }
    }
}

pub proof fn lemma_parse_list_progress(s: Seq<u8>, q: int, acc: Seq<NodeModel>)
    ensures
        spec_parse_list(s, q, acc).0 is Ok ==> q < spec_parse_list(s, q, acc).1 <= s.len(),
    decreases s.len() - q, 1int,
{
    if 0 <= q < s.len() && s[q] != 101u8 {
        lemma_parse_progress(s, q);
        let (r, q2) = spec_parse(s, q);
        if r is Ok && q < q2 <= s.len() {
            lemma_parse_list_progress(s, q2, acc.push(r->Ok_0));
        }
    }
}

pub proof fn lemma_parse_dict_progress(
    s: Seq<u8>,
    q: int,
    acc: Seq<(Seq<char>, NodeModel)>,
    last: Seq<char>,
)
    ensures
        spec_parse_dict(s, q, acc, last).0 is Ok ==> q < spec_parse_dict(s, q, acc, last).1
            <= s.len(),
    decreases s.len() - q, 1int,
{
    if 0 <= q < s.len() && s[q] != 101u8 {
        let (kr, q2) = spec_parse_string(s, q);
        if kr is Ok && chars_lt(last, kr->Ok_0) && q < q2 <= s.len() {
            lemma_parse_progress(s, q2);
            let (vr, q3) = spec_parse(s, q2);
            if vr is Ok && q2 < q3 <= s.len() {
                lemma_parse_dict_progress(s, q3, acc.push((kr->Ok_0, vr->Ok_0)), kr->Ok_0);
            }
        }
    }
}

/// The position of the first `b` at or after `p` in `s`, or the length.
pub(crate) fn find(s: &[u8], p: usize, b: u8) -> (r: usize)
    requires
        p <= s@.len(),
    ensures
        r == find_byte(s@, p as int, b),
{
    let mut i = p;
    while i < s.len()
        invariant
            p <= i <= s@.len(),
            find_byte(s@, p as int, b) == find_byte(s@, i as int, b),
        decreases s@.len() - i,
    {
        if s[i] == b {
            return i;
        }
        i = i + 1;
    }
    i
}

pub(crate) fn parse_integer(s: &[u8], q: usize) -> (r: (Result<Node, BencodeError>, usize))
    requires
        q <= s@.len(),
    ensures
        (result_model(r.0), r.1 as int) == spec_parse_integer(s@, q as int),
{
    let k = find(s, q, 101u8);
    proof {
        lemma_find_byte(s@, q as int, 101u8);
    }
    if k >= s.len() {
        return (Err(BencodeError::UnterminatedInteger), s.len());
    }
    let ghost d = s@.subrange(q as int, k as int);
    if k - q == 2 && s[q] == 45u8 && s[q + 1] == 48u8 {
        assert(d =~= seq![45u8, 48u8]);
        return (Err(BencodeError::InvalidInteger), k + 1);
    }
    assert(d != seq![45u8, 48u8]) by {
        if d == seq![45u8, 48u8] {
            assert(d[0] == 45u8 && d[1] == 48u8);
        }
    }
    match parse_i64(s, q, k) {
        Some(v) => (Ok(Node::Integer(v)), k + 1),
        None => (Err(BencodeError::InvalidInteger), k + 1),
    }
}

/// The bounds of the string content starting at `p`, or the error.
pub(crate) fn scan_string(s: &[u8], p: usize) -> (r: (Result<(usize, usize), BencodeError>, usize))
    requires
        p <= s@.len(),
    ensures
        match r.0 {
            Ok((a, b)) => a <= b <= s@.len() && spec_parse_string(s@, p as int) == (Ok::<
                Seq<char>,
                BencodeError,
            >(latin1(s@.subrange(a as int, b as int))), r.1 as int) && r.1 == b,
            Err(e) => spec_parse_string(s@, p as int) == (Err::<Seq<char>, BencodeError>(e), r.1 as int),
        },
{
    let k = find(s, p, 58u8);
    proof {
        lemma_find_byte(s@, p as int, 58u8);
    }
    let after = if k < s.len() {
        k + 1
    } else {
        s.len()
    };
    match parse_usize(s, p, k) {
        None => (Err(BencodeError::InvalidStringLength), after),
        Some(n) => {
            if n <= s.len() - after {
                (Ok((after, after + n)), after + n)
            } else {
                (Err(BencodeError::InvalidStringLength), s.len())
            }
        },
    }
}

/// Parses the value starting at position `p` of `s`.
pub fn parse_value(s: &[u8], p: usize) -> (r: (Result<Node, BencodeError>, usize))
    ensures
        (result_model(r.0), r.1 as int) == spec_parse(s@, p as int),
    decreases s@.len() - p, 0int,
{
    if p >= s.len() {
        return (Err(BencodeError::EmptyInput), p);
    }
    let c = s[p];
    if c == 105u8 {
        parse_integer(s, p + 1)
    } else if c == 108u8 {
        parse_list(s, p + 1)
    } else if c == 100u8 {
        parse_dict(s, p + 1)
    } else if (48u8 <= c && c <= 57u8) || c == 58u8 {
        let (r, q) = scan_string(s, p);
        match r {
            Ok((a, b)) => (Ok(Node::Str(latin1_string(s, a, b))), q),
            Err(e) => (Err(e), q),
        }
    } else {
        (Err(BencodeError::UnexpectedCharacter(c as char)), p)
    }
}

fn parse_list(s: &[u8], q0: usize) -> (r: (Result<Node, BencodeError>, usize))
    requires
        q0 <= s@.len(),
    ensures
        (result_model(r.0), r.1 as int) == spec_parse_list(s@, q0 as int, Seq::empty()),
    decreases s@.len() - q0, 1int,
{
    let mut items: Vec<Node> = Vec::new();
    let mut q = q0;
    while q < s.len()
        invariant
            q0 <= q <= s@.len(),
            spec_parse_list(s@, q as int, model_list(items@)) == spec_parse_list(
                s@,
                q0 as int,
                Seq::empty(),
            ),
        decreases s@.len() - q,
    {
        if s[q] == 101u8 {
            return (Ok(Node::List(items)), q + 1);
        }
        let (r, q2) = parse_value(s, q);
        proof {
            lemma_parse_progress(s@, q as int);
        }
        match r {
            Err(e) => {
                return (Err(e), q2);
            },
            Ok(n) => {
                proof {
                    lemma_model_list_push(items@, n);
                }
                items.push(n);
                q = q2;
            },
        }
    }
    (Err(BencodeError::UnterminatedList), q)
}

fn parse_dict(s: &[u8], q0: usize) -> (r: (Result<Node, BencodeError>, usize))
    requires
        q0 <= s@.len(),
    ensures
        (result_model(r.0), r.1 as int) == spec_parse_dict(
            s@,
            q0 as int,
            Seq::empty(),
            Seq::empty(),
        ),
    decreases s@.len() - q0, 1int,
{
    let mut entries: Vec<(String, Node)> = Vec::new();
    let mut last: Vec<char> = Vec::new();
    let mut q = q0;
    while q < s.len()
        invariant
            q0 <= q <= s@.len(),
            spec_parse_dict(s@, q as int, model_entries(entries@), last@) == spec_parse_dict(
                s@,
                q0 as int,
                Seq::empty(),
                Seq::empty(),
            ),
            entries_sorted(entries@),
            entries@.len() > 0 ==> entries@.last().0@ == last@,
        decreases s@.len() - q,
    {
        if s[q] == 101u8 {
            return (Ok(Node::Dictionary(Dict { entries })), q + 1);
        }
        let (kr, q2) = scan_string(s, q);
        match kr {
            Err(_) => {
                return (Err(BencodeError::DictKeyMustBeString), q2);
            },
            Ok((a, b)) => {
                let key = latin1_chars(s, a, b);
                if !chars_less(last.as_slice(), key.as_slice()) {
                    return (Err(BencodeError::DictKeysOutOfOrder), q2);
                }
                proof {
                    lemma_find_byte(s@, q as int, 58u8);
                }
                let (vr, q3) = parse_value(s, q2);
                proof {
                    lemma_parse_progress(s@, q2 as int);
                }
                match vr {
                    Err(e) => {
                        return (Err(e), q3);
                    },
                    Ok(v) => {
                        let ks = latin1_string(s, a, b);
                        proof {
                            lemma_model_entries_push(entries@, (ks, v));
                            let n = entries@.len() as int;
                            assert forall|i: int| 0 <= i < n implies chars_lt(
                                #[trigger] entries@[i].0@,
                                ks@,
                            ) by {
                                if i < n - 1 {
                                    lemma_chars_lt_transitive(entries@[i].0@, last@, key@);
                                }
                            }
                        }
                        let ghost before = entries@;
                        entries.push((ks, v));
                        proof {
                            assert forall|i: int, j: int| 0 <= i < j < entries@.len() implies chars_lt(
                                #[trigger] entries@[i].0@,
                                #[trigger] entries@[j].0@,
                            ) by {
                                assert(entries@[i] == before[i]);
                                if j < before.len() {
                                    assert(entries@[j] == before[j]);
                                }
                            }
                        }
                        last = key;
                        q = q3;
                    },
                }
            },
        }
    }
    (Err(BencodeError::UnterminatedDictionary), q)
}

/// What parsing the source yields: the outcome of `spec_parse` at the source's position.
pub open spec fn parse_outcome_ok(r: Result<Node, String>, o: Outcome) -> bool {
    match r {
        Ok(n) => o.0 == Ok::<NodeModel, BencodeError>(n@),
        Err(m) => o.0 matches Err(e) && m@ == e.message(),
    }
}

/// Parses the value at the source's position and leaves the source after it (after an
/// error, where reading stopped). Errors are reported by their message.
pub fn parse(source: &mut BufferSource) -> (r: Result<Node, String>)
    ensures
        final(source).bytes() == old(source).bytes(),
        final(source).pos() == spec_parse(old(source).bytes(), old(source).pos()).1,
        parse_outcome_ok(r, spec_parse(old(source).bytes(), old(source).pos())),
{
    let (r, q) = parse_value(source.as_slice(), source.position());
    source.set_position(q);
    match r {
        Ok(n) => Ok(n),
        Err(e) => Err(e.to_string()),
    }
}

/// Parses the value at the start of `data`.
pub fn parse_bytes(data: &[u8]) -> (r: Result<Node, String>)
    ensures
        parse_outcome_ok(r, spec_parse(data@, 0)),
{
    let mut source = BufferSource::new(data);
    parse(&mut source)
}

/// Parses the value at the start of the UTF-8 bytes of `data`.
pub fn parse_str(data: &str) -> (r: Result<Node, String>)
    ensures
        parse_outcome_ok(r, spec_parse(data.spec_bytes(), 0)),
{
    parse_bytes(data.as_bytes())
}

} // verus!
