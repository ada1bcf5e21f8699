//! The JSON writer.
use vstd::prelude::*;
use crate::io::destinations::buffer::Buffer as BufferDestination;
use crate::nodes::node::{
    Node, NodeModel, lemma_entries_sorted, lemma_model_entries, lemma_model_list, model_entries,
    model_list,
};
use crate::stringify::common::{escape_bytes, push_escaped};
use crate::text::{int_digits, push_int_digits, push_str};
use vstd::utf8::encode_utf8;

verus! {

broadcast use crate::nodes::node::lemma_dict_view;

/// The JSON form of a value: integers in decimal, strings quoted and escaped, lists in
/// brackets and dictionaries in braces with `,` between elements, `null` for `Null`.
pub open spec fn json(m: NodeModel) -> Seq<u8>
    decreases m,
{
    match m {
        NodeModel::Integer(i) => int_digits(i as int),
        NodeModel::Str(t) => seq![34u8] + escape_bytes(encode_utf8(t)) + seq![34u8],
        NodeModel::List(items) => seq![91u8] + json_items(items) + seq![93u8],
        NodeModel::Dictionary(es) => seq![123u8] + json_entries(es) + seq![125u8],
        NodeModel::Null => seq![110u8, 117u8, 108u8, 108u8],
    }
}

/// The items' JSON forms separated by `,`.
pub open spec fn json_items(items: Seq<NodeModel>) -> Seq<u8>
    decreases items,
{
    if items.len() == 0 {
        Seq::empty()
    } else if items.len() == 1 {
        json(items.last())
    } else {
        json_items(items.drop_last()) + seq![44u8] + json(items.last())
    }
}

/// The entries' JSON forms separated by `,`.
pub open spec fn json_entries(es: Seq<(Seq<char>, NodeModel)>) -> Seq<u8>
    decreases es,
{
    if es.len() == 0 {
        Seq::empty()
    } else if es.len() == 1 {
        seq![34u8] + encode_utf8(es.last().0) + seq![34u8, 58u8] + json(es.last().1)
    } else {
        json_entries(es.drop_last()) + seq![44u8] + seq![34u8] + encode_utf8(es.last().0) + seq![
            34u8,
            58u8,
        ] + json(es.last().1)
    }
}

/// Appends the JSON form of `node` to `out`; every dictionary in `node` has its keys in
/// increasing order, so they are written in that order.
pub fn json_into(node: &Node, out: &mut Vec<u8>)
    ensures
        final(out)@ == old(out)@ + json(node@),
        node@.wf(),
    decreases node,
{
    match node {
        Node::Integer(i) => {
            push_int_digits(*i, out);
        },
        Node::Str(s) => {
            out.push(34u8);
            push_escaped(s.as_str(), out);
            out.push(34u8);
            assert(final(out)@ =~= old(out)@ + json(node@));
        },
        Node::List(items) => {
            out.push(91u8);
            let ghost start = out@;
            proof {
                lemma_model_list(items@);
            }
            let mut i: usize = 0;
            while i < items.len()
                invariant
                    0 <= i <= items@.len(),
                    *node == Node::List(*items),
                    model_list(items@).len() == items@.len(),
                    forall|j: int| 0 <= j < items@.len() ==> #[trigger] model_list(items@)[j] == items@[j]@,
                    out@ == start + json_items(model_list(items@).subrange(0, i as int)),
                    forall|j: int| 0 <= j < i ==> (#[trigger] model_list(items@)[j]).wf(),
                decreases items@.len() - i,
            {
                if i > 0 {
                    out.push(44u8);
                }
                assert(decreases_to!(*node => (*node)->List_0));
                assert(decreases_to!(*items => items@));
                assert(decreases_to!(items@ => items@[i as int]));
                json_into(&items[i], out);
                assert(model_list(items@).subrange(0, i as int + 1).drop_last() =~= model_list(items@).subrange(0, i as int));
                i = i + 1;
                assert(out@ =~= start + json_items(model_list(items@).subrange(0, i as int)));
            }
            assert(model_list(items@).subrange(0, i as int) =~= model_list(items@));
            out.push(93u8);
            assert(final(out)@ =~= old(out)@ + json(node@));
        },
        Node::Dictionary(d) => {
            out.push(123u8);
            let ghost start = out@;
            let ghost es = model_entries(d.entries@);
            proof {
                lemma_model_entries(d.entries@);
                use_type_invariant(d);
                lemma_entries_sorted(d.entries@);
            }
            let mut i: usize = 0;
            while i < d.entries.len()
                invariant
                    0 <= i <= d.entries@.len(),
                    *node == Node::Dictionary(*d),
                    es == model_entries(d.entries@),
                    es.len() == d.entries@.len(),
                    forall|j: int| 0 <= j < d.entries@.len() ==> #[trigger] es[j] == (d.entries@[j].0@, d.entries@[j].1@),
                    out@ == start + json_entries(es.subrange(0, i as int)),
                    forall|j: int| 0 <= j < i ==> (#[trigger] es[j]).1.wf(),
                decreases d.entries@.len() - i,
            {
                if i > 0 {
                    out.push(44u8);
                }
                let entry = &d.entries[i];
                out.push(34u8);
                push_str(out, entry.0.as_str());
                out.push(34u8);
                out.push(58u8);
                assert(decreases_to!(*node => (*node)->Dictionary_0));
                assert(decreases_to!(*d => d.entries));
                assert(decreases_to!(d.entries => d.entries@));
                assert(decreases_to!(d.entries@ => d.entries@[i as int]));
                assert(decreases_to!(d.entries@[i as int] => d.entries@[i as int].1));
                json_into(&entry.1, out);
                assert(es.subrange(0, i as int + 1).drop_last() =~= es.subrange(0, i as int));
                i = i + 1;
                assert(out@ =~= start + json_entries(es.subrange(0, i as int)));
            }
            assert(es.subrange(0, i as int) =~= es);
            out.push(125u8);
            assert(final(out)@ =~= old(out)@ + json(node@));
        },
        Node::Null => {
            out.push(110u8);
            out.push(117u8);
            out.push(108u8);
            out.push(108u8);
            assert(final(out)@ =~= old(out)@ + json(node@));
        },
    }
}

/// Writes the JSON form of `node` to `destination`; it does not fail.
pub fn stringify(node: &Node, destination: &mut BufferDestination) -> (r: Result<(), String>)
    ensures
        final(destination).buffer@ == old(destination).buffer@ + json(node@),
        node@.wf(),
        r is Ok,
{
    json_into(node, &mut destination.buffer);
    Ok(())
}

} // verus!
