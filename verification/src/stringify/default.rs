//! The bencode writer.
use vstd::prelude::*;
use crate::io::destinations::buffer::Buffer as BufferDestination;
use crate::nodes::node::{
    Node, NodeModel, lemma_entries_sorted, lemma_model_entries, lemma_model_list, model_entries,
    model_list,
};
use crate::text::{
    int_digits, latin1, nat_digits, push_bytes, push_int_digits, push_nat_digits,
    string_from_utf8_lossy,
};
use vstd::utf8::{
    decode_utf8, encode_utf8, encode_utf8_valid_utf8, is_ascii_chars_encode_utf8, valid_utf8,
    valid_utf8_concat,
};

verus! {

broadcast use crate::nodes::node::lemma_dict_view;

/// The bencode form of a string: the byte length of its UTF-8 form, `:`, and the bytes.
pub open spec fn encode_str(t: Seq<char>) -> Seq<u8> {
    nat_digits(encode_utf8(t).len()) + seq![58u8] + encode_utf8(t)
}

/// The bencode form of a value; `Null` has none.
pub open spec fn encode(m: NodeModel) -> Seq<u8>
    decreases m,
{
    match m {
        NodeModel::Integer(i) => seq![105u8] + int_digits(i as int) + seq![101u8],
        NodeModel::Str(t) => encode_str(t),
        NodeModel::List(items) => seq![108u8] + encode_items(items) + seq![101u8],
        NodeModel::Dictionary(es) => seq![100u8] + encode_entries(es) + seq![101u8],
        NodeModel::Null => Seq::empty(),
    }
}

/// The bencode forms of the items, one after the other.
pub open spec fn encode_items(items: Seq<NodeModel>) -> Seq<u8>
    decreases items,
{
    if items.len() == 0 {
        Seq::empty()
    } else {
        encode_items(items.drop_last()) + encode(items.last())
    }
}

/// Each entry as its key's bencode form followed by its value's, one after the other.
pub open spec fn encode_entries(es: Seq<(Seq<char>, NodeModel)>) -> Seq<u8>
    decreases es,
{
    if es.len() == 0 {
        Seq::empty()
    } else {
        encode_entries(es.drop_last()) + encode_str(es.last().0) + encode(es.last().1)
    }
}

/// Bytes below 128 are valid UTF-8.
pub proof fn lemma_ascii_valid_utf8(b: Seq<u8>)
    requires
        forall|i: int| 0 <= i < b.len() ==> #[trigger] b[i] < 128,
    ensures
        valid_utf8(b),
{
    let t = latin1(b);
    assert forall|i: int| 0 <= i < t.len() implies '\0' <= #[trigger] t[i] <= '\u{7f}' by {
        assert(t[i] == b[i] as char);
    }
    is_ascii_chars_encode_utf8(t);
    assert forall|i: int| 0 <= i < b.len() implies #[trigger] encode_utf8(t)[i] == b[i] by {
        assert(t[i] as u8 == encode_utf8(t)[i]);
        assert(t[i] == b[i] as char);
        let x = b[i];
        assert((x as char) as u8 == x);
    }
    assert(encode_utf8(t) =~= b);
    encode_utf8_valid_utf8(t);
}

proof fn lemma_digits_valid_utf8(n: nat)
    ensures
        valid_utf8(nat_digits(n)),
        forall|i: int| 0 <= i < nat_digits(n).len() ==> #[trigger] nat_digits(n)[i] < 128,
    decreases n,
{
    if n >= 10 {
        lemma_digits_valid_utf8(n / 10);
        let d = nat_digits(n);
        assert forall|i: int| 0 <= i < d.len() implies #[trigger] d[i] < 128 by {
            if i < d.len() - 1 {
                assert(d[i] == nat_digits(n / 10)[i]);
            }
        }
    }
    lemma_ascii_valid_utf8(nat_digits(n));
}

proof fn lemma_int_digits_ascii(i: int)
    ensures
        forall|k: int| 0 <= k < int_digits(i).len() ==> #[trigger] int_digits(i)[k] < 128,
{
    if i < 0 {
        lemma_digits_valid_utf8((0 - i) as nat);
        let b = int_digits(i);
        assert forall|k: int| 0 <= k < b.len() implies #[trigger] b[k] < 128 by {
            if k > 0 {
                assert(b[k] == nat_digits((0 - i) as nat)[k - 1]);
            }
        }
    } else {
        lemma_digits_valid_utf8(i as nat);
    }
}

/// The bencode form of every value is valid UTF-8.
pub proof fn lemma_encode_valid_utf8(m: NodeModel)
    ensures
        valid_utf8(encode(m)),
    decreases m,
{
    lemma_ascii_valid_utf8(seq![105u8]);
    lemma_ascii_valid_utf8(seq![101u8]);
    match m {
        NodeModel::Integer(i) => {
            lemma_int_digits_ascii(i as int);
            lemma_ascii_valid_utf8(int_digits(i as int));
            valid_utf8_concat(seq![105u8], int_digits(i as int));
            valid_utf8_concat(seq![105u8] + int_digits(i as int), seq![101u8]);
        },
        NodeModel::Str(t) => {
            lemma_encode_str_valid_utf8(t);
        },
        NodeModel::List(items) => {
            lemma_ascii_valid_utf8(seq![108u8]);
            lemma_encode_items_valid_utf8(items);
            valid_utf8_concat(seq![108u8], encode_items(items));
            valid_utf8_concat(seq![108u8] + encode_items(items), seq![101u8]);
        },
        NodeModel::Dictionary(es) => {
            lemma_ascii_valid_utf8(seq![100u8]);
            lemma_encode_entries_valid_utf8(es);
            valid_utf8_concat(seq![100u8], encode_entries(es));
            valid_utf8_concat(seq![100u8] + encode_entries(es), seq![101u8]);
        },
        NodeModel::Null => {
            lemma_ascii_valid_utf8(Seq::empty());
        },
    }
}

proof fn lemma_encode_str_valid_utf8(t: Seq<char>)
    ensures
        valid_utf8(encode_str(t)),
{
    let d = nat_digits(encode_utf8(t).len());
    lemma_digits_valid_utf8(encode_utf8(t).len());
    lemma_ascii_valid_utf8(seq![58u8]);
    encode_utf8_valid_utf8(t);
    valid_utf8_concat(d, seq![58u8]);
    valid_utf8_concat(d + seq![58u8], encode_utf8(t));
}

proof fn lemma_encode_items_valid_utf8(items: Seq<NodeModel>)
    ensures
        valid_utf8(encode_items(items)),
    decreases items,
{
    if items.len() == 0 {
        lemma_ascii_valid_utf8(Seq::empty());
    } else {
        lemma_encode_items_valid_utf8(items.drop_last());
        assert(decreases_to!(items => items[items.len() - 1]));
        lemma_encode_valid_utf8(items.last());
        valid_utf8_concat(encode_items(items.drop_last()), encode(items.last()));
    }
}

proof fn lemma_encode_entries_valid_utf8(es: Seq<(Seq<char>, NodeModel)>)
    ensures
        valid_utf8(encode_entries(es)),
    decreases es,
{
    if es.len() == 0 {
        lemma_ascii_valid_utf8(Seq::empty());
    } else {
        lemma_encode_entries_valid_utf8(es.drop_last());
        lemma_encode_str_valid_utf8(es.last().0);
        assert(decreases_to!(es => es[es.len() - 1]));
        assert(decreases_to!(es[es.len() - 1] => es[es.len() - 1].1));
        lemma_encode_valid_utf8(es.last().1);
        let a = encode_entries(es.drop_last());
        valid_utf8_concat(a, encode_str(es.last().0));
        valid_utf8_concat(a + encode_str(es.last().0), encode(es.last().1));
    }
}

fn push_encoded_str(s: &String, out: &mut Vec<u8>)
    ensures
        final(out)@ == old(out)@ + encode_str(s@),
{
    let b = s.as_str().as_bytes();
    push_nat_digits(b.len() as u64, out);
    out.push(58u8);
    push_bytes(out, b);
    assert(final(out)@ =~= old(out)@ + encode_str(s@));
}

/// Appends the bencode form of `node` to `out`; every dictionary in `node` has its keys in
/// increasing order, so they are written in that order.
pub fn encode_into(node: &Node, out: &mut Vec<u8>)
    ensures
        final(out)@ == old(out)@ + encode(node@),
        node@.wf(),
    decreases node,
{
    match node {
        Node::Integer(i) => {
            out.push(105u8);
            push_int_digits(*i, out);
            out.push(101u8);
            assert(final(out)@ =~= old(out)@ + encode(node@));
        },
        Node::Str(s) => {
            push_encoded_str(s, out);
        },
        Node::List(items) => {
            out.push(108u8);
            let ghost start = out@;
            proof {
                lemma_model_list(items@);
            }
            let mut i: usize = 0;
            while i < items.len()
                invariant
                    0 <= i <= items@.len(),
                    *node == Node::List(*items),
                    model_list(items@).len() == items@.len(),
                    forall|j: int| 0 <= j < items@.len() ==> #[trigger] model_list(items@)[j] == items@[j]@,
                    out@ == start + encode_items(model_list(items@).subrange(0, i as int)),
                    forall|j: int| 0 <= j < i ==> (#[trigger] model_list(items@)[j]).wf(),
                decreases items@.len() - i,
            {
                assert(decreases_to!(*node => (*node)->List_0));
                assert(decreases_to!(*items => items@));
                assert(decreases_to!(items@ => items@[i as int]));
                assert(decreases_to!(*node => items@[i as int]));
                encode_into(&items[i], out);
                assert(model_list(items@).subrange(0, i as int + 1).drop_last() =~= model_list(items@).subrange(0, i as int));
                i = i + 1;
                assert(out@ =~= start + encode_items(model_list(items@).subrange(0, i as int)));
            }
            assert(model_list(items@).subrange(0, i as int) =~= model_list(items@));
            out.push(101u8);
            assert(final(out)@ =~= old(out)@ + encode(node@));
        },
        Node::Dictionary(d) => {
            out.push(100u8);
            let ghost start = out@;
            let ghost es = model_entries(d.entries@);
            proof {
                lemma_model_entries(d.entries@);
                use_type_invariant(d);
                lemma_entries_sorted(d.entries@);
            }
            let mut i: usize = 0;
            while i < d.entries.len()
                invariant
                    0 <= i <= d.entries@.len(),
                    *node == Node::Dictionary(*d),
                    es == model_entries(d.entries@),
                    es.len() == d.entries@.len(),
                    forall|j: int| 0 <= j < d.entries@.len() ==> #[trigger] es[j] == (d.entries@[j].0@, d.entries@[j].1@),
                    out@ == start + encode_entries(es.subrange(0, i as int)),
                    forall|j: int| 0 <= j < i ==> (#[trigger] es[j]).1.wf(),
                decreases d.entries@.len() - i,
            {
                let entry = &d.entries[i];
                push_encoded_str(&entry.0, out);
                assert(decreases_to!(*node => (*node)->Dictionary_0));
                assert(decreases_to!(*d => d.entries));
                assert(decreases_to!(d.entries => d.entries@));
                assert(decreases_to!(d.entries@ => d.entries@[i as int]));
                assert(decreases_to!(d.entries@[i as int] => d.entries@[i as int].1));
                assert(decreases_to!(*node => d.entries@[i as int].1));
                encode_into(&entry.1, out);
                assert(es.subrange(0, i as int + 1).drop_last() =~= es.subrange(0, i as int));
                i = i + 1;
                assert(out@ =~= start + encode_entries(es.subrange(0, i as int)));
            }
            assert(es.subrange(0, i as int) =~= es);
            out.push(101u8);
            assert(final(out)@ =~= old(out)@ + encode(node@));
        },
        Node::Null => {
            assert(final(out)@ =~= old(out)@ + encode(node@));
        },
    }
}

/// Writes the bencode form of `node` to `destination`; it does not fail.
pub fn stringify(node: &Node, destination: &mut BufferDestination) -> (r: Result<(), String>)
    ensures
        final(destination).buffer@ == old(destination).buffer@ + encode(node@),
        node@.wf(),
        r is Ok,
{
    encode_into(node, &mut destination.buffer);
    Ok(())
}

/// The bencode form of `node` as bytes; it does not fail.
pub fn stringify_to_bytes(node: &Node) -> (r: Result<Vec<u8>, String>)
    ensures
        r matches Ok(b) && b@ == encode(node@),
        node@.wf(),
{
    let mut out: Vec<u8> = Vec::new();
    encode_into(node, &mut out);
    assert(out@ =~= encode(node@));
    Ok(out)
}

/// The bencode form of `node` as text (that form is always valid UTF-8); it does not fail.
pub fn stringify_to_string(node: &Node) -> (r: Result<String, String>)
    ensures
        r matches Ok(s) && s@ == decode_utf8(encode(node@)),
        node@.wf(),
{
    let mut out: Vec<u8> = Vec::new();
    encode_into(node, &mut out);
    assert(out@ =~= encode(node@));
    proof {
        lemma_encode_valid_utf8(node@);
    }
    Ok(string_from_utf8_lossy(out.as_slice()))
}

} // verus!
