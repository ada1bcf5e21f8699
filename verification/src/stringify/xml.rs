//! The XML writer.
use vstd::prelude::*;
use crate::io::destinations::buffer::Buffer as BufferDestination;
use crate::nodes::node::{
    Node, NodeModel, lemma_entries_sorted, lemma_model_entries, lemma_model_list, model_entries,
    model_list,
};
use crate::stringify::common::{escape_bytes, push_escaped};
use crate::text::{int_digits, push_int_digits, push_str};
use vstd::string::StringSliceAdditionalSpecFns;
use vstd::utf8::encode_utf8;

verus! {

broadcast use crate::nodes::node::lemma_dict_view;

/// The XML form of a value: each kind in its own element (`string`, `integer`, `list`,
/// `dictionary` with `item`, `key` and `value` elements); string content escaped; nothing
/// for `Null`.
pub open spec fn xml(m: NodeModel) -> Seq<u8>
    decreases m,
{
    match m {
        NodeModel::Str(t) => "<string>".spec_bytes() + escape_bytes(encode_utf8(t))
            + "</string>".spec_bytes(),
        NodeModel::Integer(i) => "<integer>".spec_bytes() + int_digits(i as int)
            + "</integer>".spec_bytes(),
        NodeModel::List(items) => "<list>".spec_bytes() + xml_items(items) + "</list>".spec_bytes(),
        NodeModel::Dictionary(es) => "<dictionary>".spec_bytes() + xml_entries(es)
            + "</dictionary>".spec_bytes(),
        NodeModel::Null => Seq::empty(),
    }
}

/// The items' XML forms, one after the other.
pub open spec fn xml_items(items: Seq<NodeModel>) -> Seq<u8>
    decreases items,
{
    if items.len() == 0 {
        Seq::empty()
    } else {
        xml_items(items.drop_last()) + xml(items.last())
    }
}

/// The entries as `item` elements, one after the other.
pub open spec fn xml_entries(es: Seq<(Seq<char>, NodeModel)>) -> Seq<u8>
    decreases es,
{
    if es.len() == 0 {
        Seq::empty()
    } else {
        xml_entries(es.drop_last()) + "<item><key>".spec_bytes() + encode_utf8(es.last().0)
            + "</key><value>".spec_bytes() + xml(es.last().1) + "</value></item>".spec_bytes()
    }
}

/// Appends the XML form of `node` to `out`; every dictionary in `node` has its keys in
/// increasing order, so they are written in that order.
pub fn xml_into(node: &Node, out: &mut Vec<u8>)
    ensures
        final(out)@ == old(out)@ + xml(node@),
        node@.wf(),
    decreases node,
{
    match node {
        Node::Str(s) => {
            push_str(out, "<string>");
            push_escaped(s.as_str(), out);
            push_str(out, "</string>");
            assert(final(out)@ =~= old(out)@ + xml(node@));
        },
        Node::Integer(i) => {
            push_str(out, "<integer>");
            push_int_digits(*i, out);
            push_str(out, "</integer>");
            assert(final(out)@ =~= old(out)@ + xml(node@));
        },
        Node::List(items) => {
            push_str(out, "<list>");
            let ghost start = out@;
            proof {
                lemma_model_list(items@);
            }
            let mut i: usize = 0;
            while i < items.len()
                invariant
                    0 <= i <= items@.len(),
                    *node == Node::List(*items),
                    model_list(items@).len() == items@.len(),
                    forall|j: int| 0 <= j < items@.len() ==> #[trigger] model_list(items@)[j] == items@[j]@,
                    out@ == start + xml_items(model_list(items@).subrange(0, i as int)),
                    forall|j: int| 0 <= j < i ==> (#[trigger] model_list(items@)[j]).wf(),
                decreases items@.len() - i,
            {
                assert(decreases_to!(*node => (*node)->List_0));
                assert(decreases_to!(*items => items@));
                assert(decreases_to!(items@ => items@[i as int]));
                xml_into(&items[i], out);
                assert(model_list(items@).subrange(0, i as int + 1).drop_last() =~= model_list(items@).subrange(0, i as int));
                i = i + 1;
                assert(out@ =~= start + xml_items(model_list(items@).subrange(0, i as int)));
            }
            assert(model_list(items@).subrange(0, i as int) =~= model_list(items@));
            push_str(out, "</list>");
            assert(final(out)@ =~= old(out)@ + xml(node@));
        },
        Node::Dictionary(d) => {
            push_str(out, "<dictionary>");
            let ghost start = out@;
            let ghost es = model_entries(d.entries@);
            proof {
                lemma_model_entries(d.entries@);
                use_type_invariant(d);
                lemma_entries_sorted(d.entries@);
            }
            let mut i: usize = 0;
            while i < d.entries.len()
                invariant
                    0 <= i <= d.entries@.len(),
                    *node == Node::Dictionary(*d),
                    es == model_entries(d.entries@),
                    es.len() == d.entries@.len(),
                    forall|j: int| 0 <= j < d.entries@.len() ==> #[trigger] es[j] == (d.entries@[j].0@, d.entries@[j].1@),
                    out@ == start + xml_entries(es.subrange(0, i as int)),
                    forall|j: int| 0 <= j < i ==> (#[trigger] es[j]).1.wf(),
                decreases d.entries@.len() - i,
            {
                let entry = &d.entries[i];
                push_str(out, "<item><key>");
                push_str(out, entry.0.as_str());
                push_str(out, "</key><value>");
                assert(decreases_to!(*node => (*node)->Dictionary_0));
                assert(decreases_to!(*d => d.entries));
                assert(decreases_to!(d.entries => d.entries@));
                assert(decreases_to!(d.entries@ => d.entries@[i as int]));
                assert(decreases_to!(d.entries@[i as int] => d.entries@[i as int].1));
                xml_into(&entry.1, out);
                push_str(out, "</value></item>");
                assert(es.subrange(0, i as int + 1).drop_last() =~= es.subrange(0, i as int));
                i = i + 1;
                assert(out@ =~= start + xml_entries(es.subrange(0, i as int)));
            }
            assert(es.subrange(0, i as int) =~= es);
            push_str(out, "</dictionary>");
            assert(final(out)@ =~= old(out)@ + xml(node@));
        },
        Node::Null => {
            assert(final(out)@ =~= old(out)@ + xml(node@));
        },
    }
}

/// Writes the XML form of `node` to `destination`; it does not fail.
pub fn stringify(node: &Node, destination: &mut BufferDestination) -> (r: Result<(), String>)
    ensures
        final(destination).buffer@ == old(destination).buffer@ + xml(node@),
        node@.wf(),
        r is Ok,
{
    xml_into(node, &mut destination.buffer);
    Ok(())
}

} // verus!
