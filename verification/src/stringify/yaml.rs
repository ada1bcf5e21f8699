//! The YAML writer.
use vstd::prelude::*;
use crate::io::destinations::buffer::Buffer as BufferDestination;
use crate::nodes::node::{
    Node, NodeModel, lemma_entries_sorted, lemma_model_entries, lemma_model_list, model_entries,
    model_list,
};
use crate::stringify::common::{escape_bytes, push_escaped};
use crate::text::{int_digits, push_int_digits, push_str};
use vstd::string::StringSliceAdditionalSpecFns;
use vstd::utf8::encode_utf8;

verus! {

broadcast use crate::nodes::node::lemma_dict_view;

/// Two spaces for each level above the first.
pub open spec fn indent(level: int) -> Seq<u8>
    decreases level,
{
    if level <= 1 {
        Seq::empty()
    } else {
        indent(level - 1) + seq![32u8, 32u8]
    }
}

/// The indentation of `level` is that many spaces twice over, less one level.
pub(crate) proof fn lemma_indent(level: int)
    ensures
        indent(level).len() == if level <= 1 {
            0
        } else {
            2 * (level - 1)
        },
        forall|i: int| 0 <= i < indent(level).len() ==> #[trigger] indent(level)[i] == 32u8,
    decreases level,
{
    if level > 1 {
        lemma_indent(level - 1);
        let a = indent(level - 1);
        assert forall|i: int| 0 <= i < indent(level).len() implies #[trigger] indent(level)[i] == 32u8 by {
            if i < a.len() {
                assert(indent(level)[i] == a[i]);
            }
        }
    }
}

/// The YAML form of a value at nesting `level`: integers in decimal, strings quoted and
/// escaped, `[]` and `{}` for empty collections, otherwise a new line and one line per
/// element (`- item` or `key: value`) indented by the element level; `unknown` for `Null`.
pub open spec fn yaml(m: NodeModel, level: int) -> Seq<u8>
    decreases m,
{
    match m {
        NodeModel::Integer(i) => int_digits(i as int),
        NodeModel::Str(t) => seq![34u8] + escape_bytes(encode_utf8(t)) + seq![34u8],
        NodeModel::List(items) => if items.len() == 0 {
            seq![91u8, 93u8]
        } else {
            seq![10u8] + yaml_items(items, level)
        },
        NodeModel::Dictionary(es) => if es.len() == 0 {
            seq![123u8, 125u8]
        } else {
            seq![10u8] + yaml_entries(es, level)
        },
        NodeModel::Null => "unknown".spec_bytes(),
    }
}

/// One line per item, at level `level + 1`.
pub open spec fn yaml_items(items: Seq<NodeModel>, level: int) -> Seq<u8>
    decreases items,
{
    if items.len() == 0 {
        Seq::empty()
    } else {
        yaml_items(items.drop_last(), level) + indent(level + 1) + seq![45u8, 32u8] + yaml(
            items.last(),
            level + 1,
        ) + seq![10u8]
    }
}

/// One line per entry, at level `level + 1`.
pub open spec fn yaml_entries(es: Seq<(Seq<char>, NodeModel)>, level: int) -> Seq<u8>
    decreases es,
{
    if es.len() == 0 {
        Seq::empty()
    } else {
        yaml_entries(es.drop_last(), level) + indent(level + 1) + encode_utf8(es.last().0) + seq![
            58u8,
            32u8,
        ] + yaml(es.last().1, level + 1) + seq![10u8]
    }
}

/// How deeply lists and dictionaries nest in a value.
pub open spec fn depth(m: NodeModel) -> nat
    decreases m,
{
    match m {
        NodeModel::List(items) => 1 + depth_items(items),
        NodeModel::Dictionary(es) => 1 + depth_entries(es),
        _ => 0,
    }
}

pub open spec fn depth_items(items: Seq<NodeModel>) -> nat
    decreases items,
{
    if items.len() == 0 {
        0
    } else {
        let a = depth_items(items.drop_last());
        let b = depth(items.last());
        if a >= b {
            a
        } else {
            b
        }
    }
}

pub open spec fn depth_entries(es: Seq<(Seq<char>, NodeModel)>) -> nat
    decreases es,
{
    if es.len() == 0 {
        0
    } else {
        let a = depth_entries(es.drop_last());
        let b = depth(es.last().1);
        if a >= b {
            a
        } else {
            b
        }
    }
}

proof fn lemma_depth_items(items: Seq<NodeModel>, i: int)
    requires
        0 <= i < items.len(),
    ensures
        depth(items[i]) <= depth_items(items),
    decreases items.len(),
{
    if i < items.len() - 1 {
        lemma_depth_items(items.drop_last(), i);
    }
}

proof fn lemma_depth_entries(es: Seq<(Seq<char>, NodeModel)>, i: int)
    requires
        0 <= i < es.len(),
    ensures
        depth(es[i].1) <= depth_entries(es),
    decreases es.len(),
{
    if i < es.len() - 1 {
        lemma_depth_entries(es.drop_last(), i);
    }
}

/// Writes the indentation of `level`: two spaces for each level above the first, so
/// levels 0 and 1 write nothing.
pub fn write_indent(level: usize, out: &mut Vec<u8>)
    ensures
        final(out)@ == old(out)@ + indent(level as int),
        final(out)@.len() == old(out)@.len() + if level <= 1 {
            0
        } else {
            2 * (level - 1)
        },
        forall|i: int| old(out)@.len() <= i < final(out)@.len() ==> #[trigger] final(out)@[i] == 32u8,
{
    proof {
        lemma_indent(level as int);
    }
    let mut i: usize = 1;
    while i < level
        invariant
            1 <= i,
            i <= level || level == 0,
            level == 0 ==> i == 1,
            out@ == old(out)@ + indent(i as int),
        decreases level - i,
    {
        out.push(32u8);
        out.push(32u8);
        i = i + 1;
        assert(out@ =~= old(out)@ + indent(i as int));
    }
    assert(indent(i as int) == indent(level as int)) by {
        if level == 0 {
            assert(indent(level as int) =~= Seq::<u8>::empty());
        }
    }
}

/// Appends the YAML form of `node` at nesting `level` to `out`; every dictionary in `node`
/// has its keys in increasing order, so they are written in that order.
pub fn write_node(node: &Node, level: usize, out: &mut Vec<u8>)
    requires
        level + depth(node@) < usize::MAX,
    ensures
        final(out)@ == old(out)@ + yaml(node@, level as int),
        node@.wf(),
    decreases node,
{
    match node {
        Node::Integer(i) => {
            push_int_digits(*i, out);
        },
        Node::Str(s) => {
            out.push(34u8);
            push_escaped(s.as_str(), out);
            out.push(34u8);
            assert(final(out)@ =~= old(out)@ + yaml(node@, level as int));
        },
        Node::List(items) => {
            proof {
                lemma_model_list(items@);
            }
            if items.len() == 0 {
                out.push(91u8);
                out.push(93u8);
                assert(final(out)@ =~= old(out)@ + yaml(node@, level as int));
                return;
            }
            out.push(10u8);
            let ghost start = out@;
            let mut i: usize = 0;
            while i < items.len()
                invariant
                    0 <= i <= items@.len(),
                    *node == Node::List(*items),
                    level + depth(node@) < usize::MAX,
                    model_list(items@).len() == items@.len(),
                    forall|j: int| 0 <= j < items@.len() ==> #[trigger] model_list(items@)[j] == items@[j]@,
                    out@ == start + yaml_items(model_list(items@).subrange(0, i as int), level as int),
                    forall|j: int| 0 <= j < i ==> (#[trigger] model_list(items@)[j]).wf(),
                decreases items@.len() - i,
            {
                write_indent(level + 1, out);
                out.push(45u8);
                out.push(32u8);
                assert(decreases_to!(*node => (*node)->List_0));
                assert(decreases_to!(*items => items@));
                assert(decreases_to!(items@ => items@[i as int]));
                proof {
                    lemma_depth_items(model_list(items@), i as int);
                }
                write_node(&items[i], level + 1, out);
                out.push(10u8);
                assert(model_list(items@).subrange(0, i as int + 1).drop_last() =~= model_list(items@).subrange(0, i as int));
                i = i + 1;
                assert(out@ =~= start + yaml_items(model_list(items@).subrange(0, i as int), level as int));
            }
            assert(model_list(items@).subrange(0, i as int) =~= model_list(items@));
            assert(final(out)@ =~= old(out)@ + yaml(node@, level as int));
        },
        Node::Dictionary(d) => {
            let ghost es = model_entries(d.entries@);
            proof {
                lemma_model_entries(d.entries@);
                use_type_invariant(d);
                lemma_entries_sorted(d.entries@);
            }
            if d.entries.len() == 0 {
                out.push(123u8);
                out.push(125u8);
                assert(final(out)@ =~= old(out)@ + yaml(node@, level as int));
                return;
            }
            out.push(10u8);
            let ghost start = out@;
            let mut i: usize = 0;
            while i < d.entries.len()
                invariant
                    0 <= i <= d.entries@.len(),
                    *node == Node::Dictionary(*d),
                    level + depth(node@) < usize::MAX,
                    es == model_entries(d.entries@),
                    es.len() == d.entries@.len(),
                    forall|j: int| 0 <= j < d.entries@.len() ==> #[trigger] es[j] == (d.entries@[j].0@, d.entries@[j].1@),
                    out@ == start + yaml_entries(es.subrange(0, i as int), level as int),
                    forall|j: int| 0 <= j < i ==> (#[trigger] es[j]).1.wf(),
                decreases d.entries@.len() - i,
            {
                let entry = &d.entries[i];
                write_indent(level + 1, out);
                push_str(out, entry.0.as_str());
                out.push(58u8);
                out.push(32u8);
                assert(decreases_to!(*node => (*node)->Dictionary_0));
                assert(decreases_to!(*d => d.entries));
                assert(decreases_to!(d.entries => d.entries@));
                assert(decreases_to!(d.entries@ => d.entries@[i as int]));
                assert(decreases_to!(d.entries@[i as int] => d.entries@[i as int].1));
                proof {
                    lemma_depth_entries(es, i as int);
                }
                write_node(&entry.1, level + 1, out);
                out.push(10u8);
                assert(es.subrange(0, i as int + 1).drop_last() =~= es.subrange(0, i as int));
                i = i + 1;
                assert(out@ =~= start + yaml_entries(es.subrange(0, i as int), level as int));
            }
            assert(es.subrange(0, i as int) =~= es);
            assert(final(out)@ =~= old(out)@ + yaml(node@, level as int));
        },
        Node::Null => {
            push_str(out, "unknown");
        },
    }
}

/// Writes the YAML form of `node` to `destination`; it does not fail.
pub fn stringify(node: &Node, destination: &mut BufferDestination) -> (r: Result<(), String>)
    requires
        depth(node@) < usize::MAX,
    ensures
        final(destination).buffer@ == old(destination).buffer@ + yaml(node@, 0),
        node@.wf(),
        r is Ok,
{
    write_node(node, 0, &mut destination.buffer);
    Ok(())
}

} // verus!
