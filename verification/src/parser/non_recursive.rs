//! A parser that keeps the open lists and dictionaries on a stack instead of recursing.
//! It skips bytes that start no value, does not check the order of dictionary keys, and
//! stores a value under the key read just before it.
use vstd::prelude::*;
use crate::error::messages::{ERR_EMPTY_INPUT, ERR_INVALID_INTEGER, ERR_INVALID_STRING_LENGTH};
use crate::io::sources::buffer::Buffer as BufferSource;
use crate::nodes::node::{
    Dict, Node, NodeModel, dict_insert, lemma_model_list_push, model_list,
};
use crate::parser::default::{find_byte, lemma_find_byte};
use crate::text::{latin1, latin1_string, parse_i64, parse_i64_spec, parse_usize, parse_usize_spec};

verus! {

broadcast use crate::nodes::node::lemma_dict_view;

/// The ways this parser fails.
#[derive(Debug, Clone, Copy, PartialEq, Eq, Structural)]
pub enum StackParseError {
    /// An integer with no `e` after it.
    IntegerFormat,
    /// Integer text that `i64::from_str` refuses.
    Integer,
    /// An `e` with no open list or dictionary.
    UnexpectedEndMarker,
    /// A string length with no `:` after it.
    StringLengthFormat,
    /// String length text that `usize::from_str` refuses.
    StringLength,
    /// Fewer bytes left than a string's length.
    UnexpectedEnd,
    /// A dictionary key that is not a string.
    KeyNotString,
    /// No value in the input.
    EmptyInput,
    /// Input that ends inside a list or dictionary.
    Incomplete,
}

impl StackParseError {
    /// The message each failure is reported with.
    pub open spec fn message(self) -> Seq<char> {
        match self {
            StackParseError::IntegerFormat => "Invalid integer format"@,
            StackParseError::Integer => ERR_INVALID_INTEGER@,
            StackParseError::UnexpectedEndMarker => "Unexpected end marker"@,
            StackParseError::StringLengthFormat => "Invalid string length format"@,
            StackParseError::StringLength => ERR_INVALID_STRING_LENGTH@,
            StackParseError::UnexpectedEnd => "Unexpected end of input"@,
            StackParseError::KeyNotString => "Dictionary key must be a string"@,
            StackParseError::EmptyInput => ERR_EMPTY_INPUT@,
            StackParseError::Incomplete => "Incomplete input"@,
        }
    }

    /// The message, as a `String`.
    pub fn to_string(&self) -> (r: String)
        ensures
            r@ == self.message(),
    {
        match self {
            StackParseError::IntegerFormat => "Invalid integer format".to_owned(),
            StackParseError::Integer => ERR_INVALID_INTEGER.to_owned(),
            StackParseError::UnexpectedEndMarker => "Unexpected end marker".to_owned(),
            StackParseError::StringLengthFormat => "Invalid string length format".to_owned(),
            StackParseError::StringLength => ERR_INVALID_STRING_LENGTH.to_owned(),
            StackParseError::UnexpectedEnd => "Unexpected end of input".to_owned(),
            StackParseError::KeyNotString => "Dictionary key must be a string".to_owned(),
            StackParseError::EmptyInput => ERR_EMPTY_INPUT.to_owned(),
            StackParseError::Incomplete => "Incomplete input".to_owned(),
        }
    }
}

/// An open container: a list with its items so far, or a dictionary with its entries,
/// whether a value is awaited, and the key read last.
pub enum FrameModel {
    List(Seq<NodeModel>),
    Dict(Seq<(Seq<char>, NodeModel)>, bool, Seq<char>),
}

/// The node a finished container becomes.
pub open spec fn frame_node(f: FrameModel) -> NodeModel {
    match f {
        FrameModel::List(items) => NodeModel::List(items),
        FrameModel::Dict(es, _, _) => NodeModel::Dictionary(es),
    }
}

/// Adds a finished value to the innermost open container: a list takes it as an item; a
/// dictionary takes a string as a key (stored with an empty list until its value comes)
/// and anything as the value of the key read last.
pub open spec fn spec_handle_value(stack: Seq<FrameModel>, v: NodeModel) -> Result<
    Seq<FrameModel>,
    StackParseError,
> {
    let top = stack.last();
    match top {
        FrameModel::List(items) => Ok(stack.drop_last().push(FrameModel::List(items.push(v)))),
        FrameModel::Dict(es, awaiting, key) => if !awaiting {
            match v {
                NodeModel::Str(k) => Ok(
                    stack.drop_last().push(
                        FrameModel::Dict(dict_insert(es, k, NodeModel::List(Seq::empty())), true, k),
                    ),
                ),
                _ => Err(StackParseError::KeyNotString),
            }
        } else {
            Ok(stack.drop_last().push(FrameModel::Dict(dict_insert(es, key, v), false, key)))
        },
    }
}

/// What happens with a finished value `v` read up to position `q`: it is the result when no
/// container is open, and otherwise goes into the innermost one and reading goes on.
pub open spec fn spec_finish(s: Seq<u8>, q: int, stack: Seq<FrameModel>, v: NodeModel) -> (
    Result<NodeModel, StackParseError>,
    int,
)
    decreases s.len() - q, 1int,
{
    if stack.len() == 0 {
        (Ok(v), q)
    } else {
        match spec_handle_value(stack, v) {
            Err(e) => (Err(e), q),
            Ok(st) => spec_run(s, q, st),
        }
    }
}

/// The outcome of reading from position `p` with the open containers `stack`.
pub open spec fn spec_run(s: Seq<u8>, p: int, stack: Seq<FrameModel>) -> (
    Result<NodeModel, StackParseError>,
    int,
)
    decreases s.len() - p, 0int,
{
    if p < 0 || p >= s.len() {
        if stack.len() == 0 {
            (Err(StackParseError::EmptyInput), p)
        } else {
            (Err(StackParseError::Incomplete), p)
        }
    } else {
        let c = s[p];
        if c == 105u8 {
            let k = find_byte(s, p + 1, 101u8);
            if k < p + 1 || k >= s.len() {
                (Err(StackParseError::IntegerFormat), s.len() as int)
            } else {
                match parse_i64_spec(s.subrange(p + 1, k)) {
                    None => (Err(StackParseError::Integer), k + 1),
                    Some(v) => spec_finish(s, k + 1, stack, NodeModel::Integer(v)),
                }
            }
        } else if c == 108u8 {
            spec_run(s, p + 1, stack.push(FrameModel::List(Seq::empty())))
        } else if c == 100u8 {
            spec_run(s, p + 1, stack.push(FrameModel::Dict(Seq::empty(), false, Seq::empty())))
        } else if c == 101u8 {
            if stack.len() == 0 {
                (Err(StackParseError::UnexpectedEndMarker), p + 1)
            } else {
                spec_finish(s, p + 1, stack.drop_last(), frame_node(stack.last()))
            }
        } else if 48u8 <= c && c <= 57u8 {
            let k = find_byte(s, p, 58u8);
            if k < p || k >= s.len() {
                (Err(StackParseError::StringLengthFormat), s.len() as int)
            } else {
                match parse_usize_spec(s.subrange(p, k)) {
                    None => (Err(StackParseError::StringLength), k + 1),
                    Some(n) => if k + 1 + n > s.len() {
                        (Err(StackParseError::UnexpectedEnd), s.len() as int)
                    } else {
                        spec_finish(
                            s,
                            k + 1 + n,
                            stack,
                            NodeModel::Str(latin1(s.subrange(k + 1, k + 1 + n))),
                        )
                    },
                }
            }
        } else {
            spec_run(s, p + 1, stack)
        }
    }
}

/// An open container while parsing.
enum Frame {
    List(Vec<Node>),
    Dict(Dict, bool, String),
}

impl Frame {
    spec fn model(&self) -> FrameModel {
        match self {
            Frame::List(v) => FrameModel::List(model_list(v@)),
            Frame::Dict(d, b, k) => FrameModel::Dict(d@, *b, k@),
        }
    }

    fn into_node(self) -> (r: Node)
        ensures
            r@ == frame_node(self.model()),
    {
        match self {
            Frame::List(v) => Node::List(v),
            Frame::Dict(d, _, _) => Node::Dictionary(d),
        }
    }
}

spec fn stack_model(st: Seq<Frame>) -> Seq<FrameModel>
    decreases st.len(),
{
    if st.len() == 0 {
        Seq::empty()
    } else {
        stack_model(st.drop_last()).push(st.last().model())
    }
}

proof fn lemma_stack_model_push(st: Seq<Frame>, f: Frame)
    ensures
        stack_model(st.push(f)) == stack_model(st).push(f.model()),
{
    assert(st.push(f).drop_last() =~= st);
}

proof fn lemma_stack_model_len(st: Seq<Frame>)
    ensures
        stack_model(st).len() == st.len(),
    decreases st.len(),
{
    if st.len() > 0 {
        lemma_stack_model_len(st.drop_last());
    }
}

/// Puts a finished value into the innermost container.
fn handle_value(stack: &mut Vec<Frame>, value: Node) -> (r: Result<(), StackParseError>)
    requires
        old(stack)@.len() > 0,
    ensures
        match spec_handle_value(stack_model(old(stack)@), value@) {
            Ok(st) => r is Ok && stack_model(final(stack)@) == st,
            Err(e) => r == Err::<(), StackParseError>(e) && final(stack)@ == old(stack)@,
        },
{
    let ghost st0 = stack@;
    proof {
        lemma_stack_model_len(st0);
        assert(st0.drop_last().push(st0.last()) =~= st0);
    }
    let top = stack.pop().unwrap();
    proof {
        assert(stack@ == st0.drop_last());
        assert(stack_model(st0).drop_last() == stack_model(stack@));
        assert(stack_model(st0).last() == top.model());
    }
    match top {
        Frame::List(mut items) => {
            proof {
                lemma_model_list_push(items@, value);
            }
            items.push(value);
            let f = Frame::List(items);
            proof {
                lemma_stack_model_push(stack@, f);
            }
            stack.push(f);
            Ok(())
        },
        Frame::Dict(mut d, awaiting, key) => {
            if !awaiting {
                match value {
                    Node::Str(k) => {
                        let k2 = k.clone();
                        d.insert(k, Node::List(Vec::new()));
                        proof {
                            assert(model_list(Seq::<Node>::empty()) =~= Seq::<NodeModel>::empty());
                        }
                        let f = Frame::Dict(d, true, k2);
                        proof {
                            lemma_stack_model_push(stack@, f);
                        }
                        stack.push(f);
                        Ok(())
                    },
                    _ => {
                        stack.push(Frame::Dict(d, awaiting, key));
                        proof {
                            assert(stack@ =~= st0);
                        }
                        Err(StackParseError::KeyNotString)
                    },
                }
            } else {
                let k2 = key.clone();
                d.insert(key, value);
                let f = Frame::Dict(d, false, k2);
                proof {
                    lemma_stack_model_push(stack@, f);
                }
                stack.push(f);
                Ok(())
            }
        },
    }
}

/// Whether an outcome of the parser is the one the specification gives.
pub open spec fn outcome_matches(
    out: (Result<Node, StackParseError>, usize),
    spec: (Result<NodeModel, StackParseError>, int),
) -> bool {
    &&& out.1 == spec.1
    &&& match spec.0 {
        Ok(m) => out.0 matches Ok(n) && n@ == m,
        Err(e) => out.0 == Err::<Node, StackParseError>(e),
    }
}

/// Parses the value at the source's position with an explicit stack of open containers,
/// leaving the source where reading stopped.
pub fn parse(source: &mut BufferSource) -> (r: Result<Node, String>)
    ensures
        final(source).bytes() == old(source).bytes(),
        final(source).pos() == spec_run(old(source).bytes(), old(source).pos(), Seq::empty()).1,
        match spec_run(old(source).bytes(), old(source).pos(), Seq::empty()).0 {
            Ok(m) => r matches Ok(n) && n@ == m,
            Err(e) => r matches Err(msg) && msg@ == e.message(),
        },
{
    let (res, q) = run(source.as_slice(), source.position());
    source.set_position(q);
    match res {
        Ok(n) => Ok(n),
        Err(e) => Err(e.to_string()),
    }
}

/// Ends with `v` when no container is open, else puts `v` into the innermost one; `None`
/// means reading goes on at `q`.
fn finish_value(stack: &mut Vec<Frame>, v: Node, q: usize, Ghost(s): Ghost<Seq<u8>>) -> (r: Option<
    (Result<Node, StackParseError>, usize),
>)
    ensures
        match r {
            Some(out) => outcome_matches(out, spec_finish(s, q as int, stack_model(old(stack)@), v@)),
            None => spec_run(s, q as int, stack_model(final(stack)@)) == spec_finish(
                s,
                q as int,
                stack_model(old(stack)@),
                v@,
            ),
        },
{
    proof {
        lemma_stack_model_len(stack@);
    }
    if stack.len() == 0 {
        return Some((Ok(v), q));
    }
    match handle_value(stack, v) {
        Err(e) => Some((Err(e), q)),
        Ok(()) => None,
    }
}

fn run(s: &[u8], p0: usize) -> (r: (Result<Node, StackParseError>, usize))
    ensures
        outcome_matches(r, spec_run(s@, p0 as int, Seq::empty())),
{
    let mut stack: Vec<Frame> = Vec::new();
    let mut p = p0;
    let ghost target = spec_run(s@, p0 as int, Seq::empty());
    assert(stack_model(stack@) =~= Seq::<FrameModel>::empty());
    while p < s.len()
        invariant
            target == spec_run(s@, p0 as int, Seq::empty()),
            spec_run(s@, p as int, stack_model(stack@)) == target,
        decreases s@.len() - p,
    {
        let c = s[p];
        proof {
            lemma_stack_model_len(stack@);
        }
        if c == 105u8 {
            let k = find(s, p + 1, 101u8);
            proof {
                lemma_find_byte(s@, p as int + 1, 101u8);
            }
            if k >= s.len() {
                return (Err(StackParseError::IntegerFormat), s.len());
            }
            match parse_i64(s, p + 1, k) {
                None => {
                    return (Err(StackParseError::Integer), k + 1);
                },
                Some(v) => {
                    match finish_value(&mut stack, Node::Integer(v), k + 1, Ghost(s@)) {
                        Some(out) => {
                            return out;
                        },
                        None => {
                            p = k + 1;
                        },
                    }
                },
            }
        } else if c == 108u8 {
            let f = Frame::List(Vec::new());
            proof {
                lemma_stack_model_push(stack@, f);
                assert(model_list(Seq::<Node>::empty()) =~= Seq::<NodeModel>::empty());
            }
            stack.push(f);
            p = p + 1;
        } else if c == 100u8 {
            let f = Frame::Dict(Dict::new(), false, String::new());
            proof {
                lemma_stack_model_push(stack@, f);
            }
            stack.push(f);
            p = p + 1;
        } else if c == 101u8 {
            if stack.len() == 0 {
                return (Err(StackParseError::UnexpectedEndMarker), p + 1);
            }
            let ghost st0 = stack@;
            proof {
                assert(st0.drop_last().push(st0.last()) =~= st0);
            }
            let top = stack.pop().unwrap();
            proof {
                assert(stack@ == st0.drop_last());
                assert(stack_model(st0).drop_last() == stack_model(stack@));
                assert(stack_model(st0).last() == top.model());
            }
            let node = top.into_node();
            match finish_value(&mut stack, node, p + 1, Ghost(s@)) {
                Some(out) => {
                    return out;
                },
                None => {
                    p = p + 1;
                },
            }
        } else if 48u8 <= c && c <= 57u8 {
            let k = find(s, p, 58u8);
            proof {
                lemma_find_byte(s@, p as int, 58u8);
            }
            if k >= s.len() {
                return (Err(StackParseError::StringLengthFormat), s.len());
            }
            match parse_usize(s, p, k) {
                None => {
                    return (Err(StackParseError::StringLength), k + 1);
                },
                Some(n) => {
                    if n > s.len() - (k + 1) {
                        return (Err(StackParseError::UnexpectedEnd), s.len());
                    }
                    let text = latin1_string(s, k + 1, k + 1 + n);
                    match finish_value(&mut stack, Node::Str(text), k + 1 + n, Ghost(s@)) {
                        Some(out) => {
                            return out;
                        },
                        None => {
                            p = k + 1 + n;
                        },
                    }
                },
            }
        } else {
            p = p + 1;
        }
    }
    proof {
        lemma_stack_model_len(stack@);
    }
    if stack.len() == 0 {
        (Err(StackParseError::EmptyInput), p)
    } else {
        (Err(StackParseError::Incomplete), p)
    }
}

/// The position of the first `b` at or after `p` in `s`, or the length.
fn find(s: &[u8], p: usize, b: u8) -> (r: usize)
    requires
        p <= s@.len(),
    ensures
        r == find_byte(s@, p as int, b),
{
    let mut i = p;
    while i < s.len()
        invariant
            p <= i <= s@.len(),
            find_byte(s@, p as int, b) == find_byte(s@, i as int, b),
        decreases s@.len() - i,
    {
        if s[i] == b {
            return i;
        }
        i = i + 1;
    }
    i
}

} // verus!
