//! A parser that keeps the lists and dictionaries it is inside of on a stack of its own
//! instead of the call stack, so that deep nesting cannot exhaust the call stack. It gives
//! exactly what the recursive parser gives.
use vstd::prelude::*;
use crate::error::embedded::BencodeError;
use crate::io::sources::buffer::Buffer as BufferSource;
use crate::nodes::node::{
    Dict, Node, NodeModel, entries_sorted, lemma_model_entries_push, lemma_model_list_push,
    model_entries, model_list,
};
use crate::parser::default::{
    Outcome, lemma_find_byte, lemma_parse_progress, parse_integer, parse_outcome_ok,
    result_model, scan_string, spec_parse, spec_parse_dict, spec_parse_list,
};
use crate::text::{
    chars_less, chars_lt, chars_of, latin1_chars, latin1_string, lemma_chars_lt_transitive,
};
use vstd::string::StringSliceAdditionalSpecFns;

verus! {

broadcast use crate::nodes::node::lemma_dict_view;

/// A list or dictionary whose end has not been read yet: the items read so far; for a
/// dictionary also the entries so far and the key read last.
pub enum Pending {
    List(Seq<NodeModel>),
    Dict(Seq<(Seq<char>, NodeModel)>, Seq<char>),
}

/// How the parse ends, given the outcome `o` of the value read inside the pending
/// lists and dictionaries `frames` (innermost last): an error ends it; a value goes
/// into the innermost one, which is then read on.
pub open spec fn finish(s: Seq<u8>, frames: Seq<Pending>, o: Outcome) -> Outcome
    decreases frames.len(),
{
    match o {
        (Err(e), q) => (Err(e), q),
        (Ok(v), q) => if frames.len() == 0 {
            (Ok(v), q)
        } else {
            match frames.last() {
                Pending::List(acc) => finish(
                    s,
                    frames.drop_last(),
                    spec_parse_list(s, q, acc.push(v)),
                ),
                Pending::Dict(acc, k) => finish(
                    s,
                    frames.drop_last(),
                    spec_parse_dict(s, q, acc.push((k, v)), k),
                ),
            }
        },
    }
}

/// How the parse ends when the innermost pending list or dictionary is read on from `q`.
pub open spec fn resume(s: Seq<u8>, frames: Seq<Pending>, q: int) -> Outcome
    recommends
        frames.len() > 0,
{
    match frames.last() {
        Pending::List(acc) => finish(s, frames.drop_last(), spec_parse_list(s, q, acc)),
        Pending::Dict(acc, k) => finish(s, frames.drop_last(), spec_parse_dict(s, q, acc, k)),
    }
}

/// A list or dictionary being read: its items, or its entries and the key read last.
enum Frame {
    List(Vec<Node>),
    Dict(Vec<(String, Node)>, String),
}

spec fn frame_model(f: Frame) -> Pending {
    match f {
        Frame::List(v) => Pending::List(model_list(v@)),
        Frame::Dict(e, k) => Pending::Dict(model_entries(e@), k@),
    }
}

spec fn stack_model(st: Seq<Frame>) -> Seq<Pending> {
    st.map_values(|f: Frame| frame_model(f))
}

proof fn lemma_stack_push(st: Seq<Frame>, f: Frame)
    ensures
        stack_model(st.push(f)) == stack_model(st).push(frame_model(f)),
{
    assert(stack_model(st.push(f)) =~= stack_model(st).push(frame_model(f)));
}

proof fn lemma_stack_pop(st: Seq<Frame>)
    requires
        st.len() > 0,
    ensures
        stack_model(st.drop_last()) == stack_model(st).drop_last(),
        stack_model(st).last() == frame_model(st.last()),
        stack_model(st).len() == st.len(),
{
    assert(stack_model(st.drop_last()) =~= stack_model(st).drop_last());
}

/// Whether key `a` may stand before the key `k` read last: strictly below it, or equal to
/// it where `strict` does not hold.
spec fn key_below(a: Seq<char>, k: Seq<char>, strict: bool) -> bool {
    chars_lt(a, k) || (!strict && a == k)
}

/// A dictionary frame holds its entries in key order, each key below the key read last.
spec fn frame_keys_ok(f: Frame, strict: bool) -> bool {
    match f {
        Frame::List(_) => true,
        Frame::Dict(e, k) => entries_sorted(e@) && forall|i: int|
            0 <= i < e@.len() ==> #[trigger] key_below(e@[i].0@, k@, strict),
    }
}

/// Every frame is in order; every frame but the innermost waits for the value of its key
/// read last, and so does the innermost one where `top_strict` holds.
spec fn stack_keys_ok(st: Seq<Frame>, top_strict: bool) -> bool {
    forall|t: int| 0 <= t < st.len() ==> frame_keys_ok(#[trigger] st[t], top_strict || t < st.len() - 1)
}

proof fn lemma_keys_pop(st: Seq<Frame>, b: bool)
    requires
        stack_keys_ok(st, b),
        st.len() > 0,
    ensures
        stack_keys_ok(st.drop_last(), true),
        frame_keys_ok(st.last(), b),
{
    let d = st.drop_last();
    assert forall|t: int| 0 <= t < d.len() implies frame_keys_ok(#[trigger] d[t], true || t < d.len() - 1) by {
        assert(d[t] == st[t]);
        assert(frame_keys_ok(st[t], b || t < st.len() - 1));
    }
    assert(frame_keys_ok(st[st.len() - 1], b || st.len() - 1 < st.len() - 1));
}

proof fn lemma_keys_push(st: Seq<Frame>, f: Frame, b: bool)
    requires
        stack_keys_ok(st, true),
        frame_keys_ok(f, b),
    ensures
        stack_keys_ok(st.push(f), b),
{
    let p = st.push(f);
    assert forall|t: int| 0 <= t < p.len() implies frame_keys_ok(#[trigger] p[t], b || t < p.len() - 1) by {
        if t < st.len() {
            assert(p[t] == st[t]);
            assert(frame_keys_ok(st[t], true || t < st.len() - 1));
            match st[t] {
                Frame::List(_) => {},
                Frame::Dict(e, k) => {
                    assert forall|i: int| 0 <= i < e@.len() implies key_below(#[trigger] e@[i].0@, k@, b || t < p.len() - 1) by {
                        assert(key_below(e@[i].0@, k@, true));
                    }
                },
            }
        }
    }
}

proof fn lemma_push_last(ps: Seq<Pending>, x: Pending)
    ensures
        ps.push(x).drop_last() == ps,
        ps.push(x).last() == x,
        ps.push(x).len() > 0,
{
    assert(ps.push(x).drop_last() =~= ps);
}

/// Parses the value starting at position `p` of `s` without recursion; the outcome is the
/// one `spec_parse` gives.
pub fn parse_value_iterative(s: &[u8], p: usize) -> (r: (Result<Node, BencodeError>, usize))
    ensures
        (result_model(r.0), r.1 as int) == spec_parse(s@, p as int),
{
    let ghost target = spec_parse(s@, p as int);
    let mut stack: Vec<Frame> = Vec::new();
    let mut q: usize = p;
    // In mode 0 a value starts at `q`; in mode 1 the innermost frame is read on from `q`.
    let mut mode: u8 = 0;
    if p > s.len() {
        return (Err(BencodeError::EmptyInput), p);
    }
    assert(stack_model(stack@) =~= Seq::<Pending>::empty());
    loop
        invariant
            q <= s@.len(),
            mode == 0 || mode == 1,
            mode == 0 ==> target == finish(s@, stack_model(stack@), spec_parse(s@, q as int)),
            mode == 1 ==> stack@.len() > 0 && target == resume(s@, stack_model(stack@), q as int),
            target == spec_parse(s@, p as int),
            stack_keys_ok(stack@, mode == 0),
        decreases 2 * (s@.len() - q) + mode,
    {
        // A value that has just been read, and where it ends.
        let mut done: Option<(Node, usize)> = None;
        let ghost fs = stack_model(stack@);
        if mode == 0 {
            if q >= s.len() {
                return (Err(BencodeError::EmptyInput), q);
            }
            let c = s[q];
            proof {
                lemma_parse_progress(s@, q as int);
            }
            if c == 105u8 {
                let (r, q2) = parse_integer(s, q + 1);
                match r {
                    Ok(n) => {
                        assert(spec_parse(s@, q as int) == (Ok::<NodeModel, BencodeError>(n@), q2 as int));
                        done = Some((n, q2));
                    },
                    Err(e) => {
                        return (Err(e), q2);
                    },
                }
            } else if c == 108u8 {
                let f = Frame::List(Vec::new());
                proof {
                    lemma_keys_push(stack@, f, false);
                    lemma_stack_push(stack@, f);
                    assert(model_list(Seq::<Node>::empty()) =~= Seq::<NodeModel>::empty());
                    lemma_push_last(fs, frame_model(f));
                }
                stack.push(f);
                q = q + 1;
                mode = 1;
            } else if c == 100u8 {
                let f = Frame::Dict(Vec::new(), String::new());
                proof {
                    lemma_keys_push(stack@, f, false);
                    lemma_stack_push(stack@, f);
                    assert(model_entries(Seq::<(String, Node)>::empty()) =~= Seq::<
                        (Seq<char>, NodeModel),
                    >::empty());
                    lemma_push_last(fs, frame_model(f));
                }
                stack.push(f);
                q = q + 1;
                mode = 1;
            } else if (48u8 <= c && c <= 57u8) || c == 58u8 {
                let (r, q2) = scan_string(s, q);
                match r {
                    Ok((a, b)) => {
                        let t = Node::Str(latin1_string(s, a, b));
                        assert(spec_parse(s@, q as int) == (Ok::<NodeModel, BencodeError>(t@), q2 as int));
                        done = Some((t, q2));
                    },
                    Err(e) => {
                        return (Err(e), q2);
                    },
                }
            } else {
                return (Err(BencodeError::UnexpectedCharacter(c as char)), q);
            }
        } else {
            let ghost st0 = stack@;
            let top = stack.pop().unwrap();
            proof {
                assert(st0 =~= stack@.push(top));
                lemma_stack_pop(st0);
                lemma_keys_pop(st0, false);
            }
            match top {
                Frame::List(items) => {
                    if q >= s.len() {
                        return (Err(BencodeError::UnterminatedList), q);
                    }
                    if s[q] == 101u8 {
                        let t = Node::List(items);
                        assert(target == finish(s@, stack_model(stack@), (Ok::<NodeModel, BencodeError>(t@), q as int + 1)));
                        done = Some((t, q + 1));
                    } else {
                        proof {
                            lemma_parse_progress(s@, q as int);
                            lemma_stack_push(stack@, Frame::List(items));
                            lemma_push_last(stack_model(stack@), frame_model(Frame::List(items)));
                            assert(fs == stack_model(stack@).push(frame_model(Frame::List(items))));
                            lemma_keys_push(stack@, Frame::List(items), true);
                        }
                        stack.push(Frame::List(items));
                        mode = 0;
                    }
                },
                Frame::Dict(entries, last) => {
                    if q >= s.len() {
                        return (Err(BencodeError::UnterminatedDictionary), q);
                    }
                    if s[q] == 101u8 {
                        let t = Node::Dictionary(Dict { entries });
                        assert(target == finish(s@, stack_model(stack@), (Ok::<NodeModel, BencodeError>(t@), q as int + 1)));
                        done = Some((t, q + 1));
                    } else {
                        let (kr, q2) = scan_string(s, q);
                        match kr {
                            Err(_) => {
                                return (Err(BencodeError::DictKeyMustBeString), q2);
                            },
                            Ok((a, b)) => {
                                let key = latin1_chars(s, a, b);
                                let before = chars_of(last.as_str());
                                if !chars_less(before.as_slice(), key.as_slice()) {
                                    return (Err(BencodeError::DictKeysOutOfOrder), q2);
                                }
                                proof {
                                    lemma_find_byte(s@, q as int, 58u8);
                                    lemma_parse_progress(s@, q2 as int);
                                }
                                let ks = latin1_string(s, a, b);
                                proof {
                                    assert forall|i: int| 0 <= i < entries@.len() implies #[trigger] key_below(
                                        entries@[i].0@,
                                        ks@,
                                        true,
                                    ) by {
                                        assert(key_below(entries@[i].0@, last@, false));
                                        if chars_lt(entries@[i].0@, last@) {
                                            lemma_chars_lt_transitive(entries@[i].0@, last@, ks@);
                                        }
                                    }
                                    lemma_keys_push(stack@, Frame::Dict(entries, ks), true);
                                    lemma_stack_push(stack@, Frame::Dict(entries, ks));
                                    lemma_push_last(stack_model(stack@), frame_model(Frame::Dict(entries, ks)));
                                }
                                stack.push(Frame::Dict(entries, ks));
                                q = q2;
                                mode = 0;
                            },
                        }
                    }
                },
            }
        }
        assert(done matches Some((v, q2)) ==> target == finish(s@, stack_model(stack@), (Ok::<NodeModel, BencodeError>(v@), q2 as int)) && q < q2 <= s@.len());
        match done {
            None => {},
            Some((v, q2)) => {
                proof {
                    lemma_parse_progress(s@, q as int);
                }
                if stack.len() == 0 {
                    return (Ok(v), q2);
                }
                let ghost st0 = stack@;
                let top = stack.pop().unwrap();
                proof {
                    assert(st0 =~= stack@.push(top));
                    lemma_stack_pop(st0);
                    lemma_keys_pop(st0, true);
                }
                match top {
                    Frame::List(mut items) => {
                        proof {
                            lemma_model_list_push(items@, v);
                        }
                        items.push(v);
                        proof {
                            lemma_stack_push(stack@, Frame::List(items));
                            lemma_push_last(stack_model(stack@), frame_model(Frame::List(items)));
                            lemma_keys_push(stack@, Frame::List(items), false);
                        }
                        stack.push(Frame::List(items));
                    },
                    Frame::Dict(mut entries, last) => {
                        let k = last.clone();
                        proof {
                            lemma_model_entries_push(entries@, (k, v));
                        }
                        let ghost before = entries@;
                        entries.push((k, v));
                        proof {
                            assert forall|i: int, j: int| 0 <= i < j < entries@.len() implies chars_lt(
                                #[trigger] entries@[i].0@,
                                #[trigger] entries@[j].0@,
                            ) by {
                                assert(entries@[i] == before[i]);
                                assert(key_below(before[i].0@, last@, true));
                                if j < before.len() {
                                    assert(entries@[j] == before[j]);
                                }
                            }
                            assert forall|i: int| 0 <= i < entries@.len() implies #[trigger] key_below(
                                entries@[i].0@,
                                last@,
                                false,
                            ) by {
                                if i < before.len() {
                                    assert(entries@[i] == before[i]);
                                    assert(key_below(before[i].0@, last@, true));
                                }
                            }
                            lemma_keys_push(stack@, Frame::Dict(entries, last), false);
                            lemma_stack_push(stack@, Frame::Dict(entries, last));
                            lemma_push_last(stack_model(stack@), frame_model(Frame::Dict(entries, last)));
                        }
                        stack.push(Frame::Dict(entries, last));
                    },
                }
                q = q2;
                mode = 1;
            },
        }
    }
}

/// Parses the value at the source's position without recursion, and leaves the source
/// after it; gives exactly what `parse` gives.
pub fn parse_iterative(source: &mut BufferSource) -> (r: Result<Node, String>)
    ensures
        final(source).bytes() == old(source).bytes(),
        final(source).pos() == spec_parse(old(source).bytes(), old(source).pos()).1,
        parse_outcome_ok(r, spec_parse(old(source).bytes(), old(source).pos())),
{
    let (r, q) = parse_value_iterative(source.as_slice(), source.position());
    source.set_position(q);
    match r {
        Ok(n) => Ok(n),
        Err(e) => Err(e.to_string()),
    }
}

/// Parses the value at the start of `data` without recursion.
pub fn parse_bytes_iterative(data: &[u8]) -> (r: Result<Node, String>)
    ensures
        parse_outcome_ok(r, spec_parse(data@, 0)),
{
    let mut source = BufferSource::new(data);
    parse_iterative(&mut source)
}

/// Parses the value at the start of the UTF-8 bytes of `data` without recursion.
pub fn parse_str_iterative(data: &str) -> (r: Result<Node, String>)
    ensures
        parse_outcome_ok(r, spec_parse(data.spec_bytes(), 0)),
{
    parse_bytes_iterative(data.as_bytes())
}

} // verus!
