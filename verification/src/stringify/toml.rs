//! The TOML writer. The root must be a dictionary. Each table lists its plain values as
//! `key = value` lines first, then its sub-tables: a dictionary becomes a table `[path]`
//! (the header only when it has plain values of its own), a non-empty list of dictionaries
//! an array of tables `[[path]]`; inside an array of tables a further list of dictionaries
//! is written as one table `[path]` per element. Every list must hold values of one kind.
use vstd::prelude::*;
use crate::io::destinations::buffer::Buffer as BufferDestination;
use crate::nodes::node::{
    Dict, Node, NodeModel, keys_sorted, lemma_entries_sorted, lemma_model_entries, lemma_model_list,
    model_entries, model_list,
};
use crate::stringify::common::{escape_bytes, push_escaped};
use crate::text::{int_digits, push_bytes, push_int_digits, push_str};
use vstd::string::StringSliceAdditionalSpecFns;
use vstd::utf8::encode_utf8;

verus! {

broadcast use crate::nodes::node::lemma_dict_view;

/// The message of a root that is not a dictionary.
pub const TOML_ROOT_NOT_TABLE: &'static str = "TOML format requires a dictionary at the root level";

/// The message of a list whose values are not all of one kind.
pub const TOML_MIXED_LIST: &'static str = "TOML lists must contain elements of the same type";

/// Which of the five kinds a value is.
pub open spec fn kind_of(m: NodeModel) -> int {
    match m {
        NodeModel::Integer(_) => 0,
        NodeModel::Str(_) => 1,
        NodeModel::List(_) => 2,
        NodeModel::Dictionary(_) => 3,
        NodeModel::Null => 4,
    }
}

/// Every list in the value holds values of a single kind.
pub open spec fn uniform(m: NodeModel) -> bool
    decreases m,
{
    match m {
        NodeModel::List(items) => {
            &&& forall|i: int| 0 <= i < items.len() ==> kind_of(#[trigger] items[i]) == kind_of(items[0])
            &&& forall|i: int| 0 <= i < items.len() ==> uniform(#[trigger] items[i])
        },
        NodeModel::Dictionary(es) => forall|i: int| 0 <= i < es.len() ==> uniform(#[trigger] es[i].1),
        _ => true,
    }
}

/// A non-empty list whose first value is a dictionary: an array of tables.
pub open spec fn is_table_array(m: NodeModel) -> bool {
    m matches NodeModel::List(items) && items.len() > 0 && items[0] is Dictionary
}

/// A value written on a `key = value` line: neither a table nor an array of tables.
pub open spec fn is_plain(m: NodeModel) -> bool {
    !(m is Dictionary) && !is_table_array(m)
}

/// The inline form of a value: an integer in decimal, a string quoted and escaped, a list
/// as `[a, b]`, a dictionary as `{k = v, l = w}`, `null` for `Null`.
pub open spec fn toml_inline(m: NodeModel) -> Seq<u8>
    decreases m,
{
    match m {
        NodeModel::Integer(i) => int_digits(i as int),
        NodeModel::Str(t) => seq![34u8] + escape_bytes(encode_utf8(t)) + seq![34u8],
        NodeModel::List(items) => seq![91u8] + toml_inline_items(items) + seq![93u8],
        NodeModel::Dictionary(es) => seq![123u8] + toml_inline_entries(es) + seq![125u8],
        NodeModel::Null => seq![110u8, 117u8, 108u8, 108u8],
    }
}

/// The inline forms of the items separated by `, `.
pub open spec fn toml_inline_items(items: Seq<NodeModel>) -> Seq<u8>
    decreases items,
{
    if items.len() == 0 {
        Seq::empty()
    } else if items.len() == 1 {
        toml_inline(items.last())
    } else {
        toml_inline_items(items.drop_last()) + seq![44u8, 32u8] + toml_inline(items.last())
    }
}

/// The entries as `key = value` separated by `, `.
pub open spec fn toml_inline_entries(es: Seq<(Seq<char>, NodeModel)>) -> Seq<u8>
    decreases es,
{
    if es.len() == 0 {
        Seq::empty()
    } else if es.len() == 1 {
        encode_utf8(es.last().0) + seq![32u8, 61u8, 32u8] + toml_inline(es.last().1)
    } else {
        toml_inline_entries(es.drop_last()) + seq![44u8, 32u8] + encode_utf8(es.last().0) + seq![
            32u8,
            61u8,
            32u8,
        ] + toml_inline(es.last().1)
    }
}

/// The `key = value` lines of the plain entries, in order.
pub open spec fn toml_plain_lines(es: Seq<(Seq<char>, NodeModel)>) -> Seq<u8>
    decreases es.len(),
{
    if es.len() == 0 {
        Seq::empty()
    } else {
        toml_plain_lines(es.drop_last()) + if is_plain(es.last().1) {
            encode_utf8(es.last().0) + seq![32u8, 61u8, 32u8] + toml_inline(es.last().1) + seq![10u8]
        } else {
            Seq::empty()
        }
    }
}

/// Whether some entry is plain.
pub open spec fn has_plain(es: Seq<(Seq<char>, NodeModel)>) -> bool {
    exists|i: int| 0 <= i < es.len() && is_plain(#[trigger] es[i].1)
}

/// The dotted path of key `k` under `path`.
pub open spec fn key_path(path: Seq<u8>, k: Seq<char>) -> Seq<u8> {
    if path.len() == 0 {
        encode_utf8(k)
    } else {
        path + seq![46u8] + encode_utf8(k)
    }
}

/// The table at `p` of a dictionary value: its header when it has plain values, its plain
/// lines, its sub-tables.
pub open spec fn toml_table(m: NodeModel, p: Seq<u8>, nested: bool) -> Seq<u8>
    decreases m, 1int,
{
    match m {
        NodeModel::Dictionary(es) => (if has_plain(es) {
            seq![91u8] + p + seq![93u8, 10u8]
        } else {
            Seq::empty()
        }) + toml_plain_lines(es) + toml_tables(es, p, nested),
        _ => Seq::empty(),
    }
}

/// The sub-tables of the entries, in order, under `path`.
pub open spec fn toml_tables(es: Seq<(Seq<char>, NodeModel)>, path: Seq<u8>, nested: bool) -> Seq<u8>
    decreases es, 0int,
{
    if es.len() == 0 {
        Seq::empty()
    } else {
        toml_tables(es.drop_last(), path, nested) + toml_sub(
            es.last().1,
            key_path(path, es.last().0),
            nested,
        )
    }
}

/// What an entry's value adds below its table at `p`: a table, an array of tables, or
/// nothing for a plain value.
pub open spec fn toml_sub(v: NodeModel, p: Seq<u8>, nested: bool) -> Seq<u8>
    decreases v, 3int,
{
    match v {
        NodeModel::Dictionary(_) => toml_table(v, p, nested),
        NodeModel::List(items) => if is_table_array(v) {
            toml_array_tables(items, p, nested)
        } else {
            Seq::empty()
        },
        _ => Seq::empty(),
    }
}

/// The elements of an array of tables at `p`.
pub open spec fn toml_array_tables(items: Seq<NodeModel>, p: Seq<u8>, nested: bool) -> Seq<u8>
    decreases items, 0int,
{
    if items.len() == 0 {
        Seq::empty()
    } else {
        toml_array_tables(items.drop_last(), p, nested) + toml_array_item(items.last(), p, nested)
    }
}

/// One element of an array of tables at `p`: `[[p]]` and its contents, or, inside another
/// array of tables, the table at `p`.
pub open spec fn toml_array_item(m: NodeModel, p: Seq<u8>, nested: bool) -> Seq<u8>
    decreases m, 2int,
{
    match m {
        NodeModel::Dictionary(es) => if nested {
            toml_table(m, p, true)
        } else {
            seq![91u8, 91u8] + p + seq![93u8, 93u8, 10u8] + toml_plain_lines(es) + toml_tables(
                es,
                p,
                true,
            )
        },
        _ => Seq::empty(),
    }
}

/// The TOML document of a root dictionary: its plain lines, then its sub-tables.
pub open spec fn toml_document(es: Seq<(Seq<char>, NodeModel)>) -> Seq<u8> {
    toml_plain_lines(es) + toml_tables(es, Seq::empty(), false)
}

/// A list with an item of another kind than its first, or with an item that is not
/// uniform, is not uniform.
proof fn lemma_list_not_uniform(ms: Seq<NodeModel>, i: int)
    requires
        0 <= i < ms.len(),
        kind_of(ms[i]) != kind_of(ms[0]) || !uniform(ms[i]),
    ensures
        !uniform(NodeModel::List(ms)),
{
    assert(NodeModel::List(ms)->List_0 == ms);
}

/// A dictionary with a value that is not uniform is not uniform.
proof fn lemma_dict_not_uniform(es: Seq<(Seq<char>, NodeModel)>, i: int)
    requires
        0 <= i < es.len(),
        !uniform(es[i].1),
    ensures
        !uniform(NodeModel::Dictionary(es)),
{
    assert(NodeModel::Dictionary(es)->Dictionary_0 == es);
}

fn kind_code(n: &Node) -> (r: u8)
    ensures
        r as int == kind_of(n@),
{
    match n {
        Node::Integer(_) => 0,
        Node::Str(_) => 1,
        Node::List(_) => 2,
        Node::Dictionary(_) => 3,
        Node::Null => 4,
    }
}

/// Whether every list in `node` holds values of a single kind; when it does, every
/// dictionary in `node` has its keys in increasing order.
fn check_uniform(node: &Node) -> (r: bool)
    ensures
        r == uniform(node@),
        r ==> node@.wf(),
    decreases node,
{
    match node {
        Node::List(items) => {
            proof {
                lemma_model_list(items@);
            }
            if items.len() == 0 {
                return true;
            }
            let k0 = kind_code(&items[0]);
            let mut i: usize = 0;
            while i < items.len()
                invariant
                    0 <= i <= items@.len(),
                    items@.len() > 0,
                    *node == Node::List(*items),
                    k0 as int == kind_of(items@[0]@),
                    model_list(items@).len() == items@.len(),
                    forall|j: int| 0 <= j < items@.len() ==> #[trigger] model_list(items@)[j] == items@[j]@,
                    forall|j: int| 0 <= j < i ==> kind_of(#[trigger] model_list(items@)[j]) == k0 && uniform(model_list(items@)[j]),
                    forall|j: int| 0 <= j < i ==> (#[trigger] model_list(items@)[j]).wf(),
                decreases items@.len() - i,
            {
                assert(decreases_to!(*node => (*node)->List_0));
                assert(decreases_to!(*items => items@));
                assert(decreases_to!(items@ => items@[i as int]));
                let ghost ms = model_list(items@);
                assert(node@ == NodeModel::List(ms));
                assert(ms[i as int] == items@[i as int]@);
                assert(ms[0] == items@[0]@);
                if kind_code(&items[i]) != k0 {
                    proof {
                        lemma_list_not_uniform(ms, i as int);
                    }
                    return false;
                }
                if !check_uniform(&items[i]) {
                    proof {
                        lemma_list_not_uniform(ms, i as int);
                    }
                    return false;
                }
                i = i + 1;
            }
            true
        },
        Node::Dictionary(d) => {
            let ghost es = model_entries(d.entries@);
            proof {
                lemma_model_entries(d.entries@);
                use_type_invariant(d);
                lemma_entries_sorted(d.entries@);
            }
            let mut i: usize = 0;
            while i < d.entries.len()
                invariant
                    0 <= i <= d.entries@.len(),
                    *node == Node::Dictionary(*d),
                    es == model_entries(d.entries@),
                    keys_sorted(es),
                    es.len() == d.entries@.len(),
                    forall|j: int| 0 <= j < d.entries@.len() ==> #[trigger] es[j] == (d.entries@[j].0@, d.entries@[j].1@),
                    forall|j: int| 0 <= j < i ==> uniform(#[trigger] es[j].1),
                    forall|j: int| 0 <= j < i ==> (#[trigger] es[j]).1.wf(),
                decreases d.entries@.len() - i,
            {
                assert(decreases_to!(*node => (*node)->Dictionary_0));
                assert(decreases_to!(*d => d.entries));
                assert(decreases_to!(d.entries => d.entries@));
                assert(decreases_to!(d.entries@ => d.entries@[i as int]));
                assert(decreases_to!(d.entries@[i as int] => d.entries@[i as int].1));
                if !check_uniform(&d.entries[i].1) {
                    assert(es[i as int].1 == d.entries@[i as int].1@);
                    assert(node@ == NodeModel::Dictionary(es));
                    proof {
                        lemma_dict_not_uniform(es, i as int);
                    }
                    return false;
                }
                i = i + 1;
            }
            true
        },
        _ => true,
    }
}

/// Appends the inline form of `node` to `out`.
fn inline_into(node: &Node, out: &mut Vec<u8>)
    ensures
        final(out)@ == old(out)@ + toml_inline(node@),
    decreases node,
{
    match node {
        Node::Integer(i) => {
            push_int_digits(*i, out);
        },
        Node::Str(s) => {
            out.push(34u8);
            push_escaped(s.as_str(), out);
            out.push(34u8);
            assert(final(out)@ =~= old(out)@ + toml_inline(node@));
        },
        Node::List(items) => {
            out.push(91u8);
            let ghost start = out@;
            proof {
                lemma_model_list(items@);
            }
            let mut i: usize = 0;
            while i < items.len()
                invariant
                    0 <= i <= items@.len(),
                    *node == Node::List(*items),
                    model_list(items@).len() == items@.len(),
                    forall|j: int| 0 <= j < items@.len() ==> #[trigger] model_list(items@)[j] == items@[j]@,
                    out@ == start + toml_inline_items(model_list(items@).subrange(0, i as int)),
                decreases items@.len() - i,
            {
                if i > 0 {
                    out.push(44u8);
                    out.push(32u8);
                }
                assert(decreases_to!(*node => (*node)->List_0));
                assert(decreases_to!(*items => items@));
                assert(decreases_to!(items@ => items@[i as int]));
                inline_into(&items[i], out);
                assert(model_list(items@).subrange(0, i as int + 1).drop_last() =~= model_list(
                    items@,
                ).subrange(0, i as int));
                i = i + 1;
                assert(out@ =~= start + toml_inline_items(model_list(items@).subrange(0, i as int)));
            }
            assert(model_list(items@).subrange(0, i as int) =~= model_list(items@));
            out.push(93u8);
            assert(final(out)@ =~= old(out)@ + toml_inline(node@));
        },
        Node::Dictionary(d) => {
            out.push(123u8);
            let ghost start = out@;
            let ghost es = model_entries(d.entries@);
            proof {
                lemma_model_entries(d.entries@);
            }
            let mut i: usize = 0;
            while i < d.entries.len()
                invariant
                    0 <= i <= d.entries@.len(),
                    *node == Node::Dictionary(*d),
                    es == model_entries(d.entries@),
                    es.len() == d.entries@.len(),
                    forall|j: int| 0 <= j < d.entries@.len() ==> #[trigger] es[j] == (d.entries@[j].0@, d.entries@[j].1@),
                    out@ == start + toml_inline_entries(es.subrange(0, i as int)),
                decreases d.entries@.len() - i,
            {
                if i > 0 {
                    out.push(44u8);
                    out.push(32u8);
                }
                let entry = &d.entries[i];
                push_str(out, entry.0.as_str());
                out.push(32u8);
                out.push(61u8);
                out.push(32u8);
                assert(decreases_to!(*node => (*node)->Dictionary_0));
                assert(decreases_to!(*d => d.entries));
                assert(decreases_to!(d.entries => d.entries@));
                assert(decreases_to!(d.entries@ => d.entries@[i as int]));
                assert(decreases_to!(d.entries@[i as int] => d.entries@[i as int].1));
                inline_into(&entry.1, out);
                assert(es.subrange(0, i as int + 1).drop_last() =~= es.subrange(0, i as int));
                i = i + 1;
                assert(out@ =~= start + toml_inline_entries(es.subrange(0, i as int)));
            }
            assert(es.subrange(0, i as int) =~= es);
            out.push(125u8);
            assert(final(out)@ =~= old(out)@ + toml_inline(node@));
        },
        Node::Null => {
            out.push(110u8);
            out.push(117u8);
            out.push(108u8);
            out.push(108u8);
            assert(final(out)@ =~= old(out)@ + toml_inline(node@));
        },
    }
}

/// Whether `n` is written on a `key = value` line.
fn plain(n: &Node) -> (r: bool)
    ensures
        r == is_plain(n@),
{
    match n {
        Node::Dictionary(_) => false,
        Node::List(items) => {
            proof {
                lemma_model_list(items@);
            }
            if items.len() == 0 {
                true
            } else {
                match &items[0] {
                    Node::Dictionary(_) => false,
                    _ => true,
                }
            }
        },
        _ => true,
    }
}

/// Appends the `key = value` lines of the plain entries of `d`.
fn plain_lines_into(d: &Dict, out: &mut Vec<u8>)
    ensures
        final(out)@ == old(out)@ + toml_plain_lines(d@),
{
    let ghost es = d@;
    let ghost start = out@;
    proof {
        lemma_model_entries(d.entries@);
    }
    let mut i: usize = 0;
    while i < d.entries.len()
        invariant
            0 <= i <= d.entries@.len(),
            es == d@,
            es.len() == d.entries@.len(),
            forall|j: int| 0 <= j < d.entries@.len() ==> #[trigger] es[j] == (d.entries@[j].0@, d.entries@[j].1@),
            out@ == start + toml_plain_lines(es.subrange(0, i as int)),
        decreases d.entries@.len() - i,
    {
        let entry = &d.entries[i];
        assert(es.subrange(0, i as int + 1).drop_last() =~= es.subrange(0, i as int));
        if plain(&entry.1) {
            push_str(out, entry.0.as_str());
            out.push(32u8);
            out.push(61u8);
            out.push(32u8);
            inline_into(&entry.1, out);
            out.push(10u8);
        }
        i = i + 1;
        assert(out@ =~= start + toml_plain_lines(es.subrange(0, i as int)));
    }
    assert(es.subrange(0, i as int) =~= es);
}

/// Whether some entry of `d` is plain.
fn any_plain(d: &Dict) -> (r: bool)
    ensures
        r == has_plain(d@),
{
    let ghost es = d@;
    proof {
        lemma_model_entries(d.entries@);
    }
    let mut i: usize = 0;
    while i < d.entries.len()
        invariant
            0 <= i <= d.entries@.len(),
            es == d@,
            es.len() == d.entries@.len(),
            forall|j: int| 0 <= j < d.entries@.len() ==> #[trigger] es[j] == (d.entries@[j].0@, d.entries@[j].1@),
            forall|j: int| 0 <= j < i ==> !is_plain(#[trigger] es[j].1),
        decreases d.entries@.len() - i,
    {
        if plain(&d.entries[i].1) {
            assert(is_plain(es[i as int].1));
            return true;
        }
        i = i + 1;
    }
    false
}

/// The path of key `k` under `path`.
fn join_path(path: &Vec<u8>, k: &str) -> (r: Vec<u8>)
    ensures
        r@ == key_path(path@, k@),
{
    let mut r: Vec<u8> = Vec::new();
    if path.len() > 0 {
        push_bytes(&mut r, path.as_slice());
        r.push(46u8);
    }
    push_str(&mut r, k);
    assert(r@ =~= key_path(path@, k@));
    r
}

/// Appends the sub-tables of the dictionary `node` under `path`.
fn tables_into(node: &Node, path: &Vec<u8>, nested: bool, out: &mut Vec<u8>)
    requires
        node@ is Dictionary,
    ensures
        final(out)@ == old(out)@ + toml_tables(node@->Dictionary_0, path@, nested),
    decreases node, 0int,
{
    match node {
        Node::Dictionary(d) => {
            let ghost es = model_entries(d.entries@);
            let ghost start = out@;
            proof {
                lemma_model_entries(d.entries@);
            }
            let mut i: usize = 0;
            while i < d.entries.len()
                invariant
                    0 <= i <= d.entries@.len(),
                    *node == Node::Dictionary(*d),
                    es == model_entries(d.entries@),
                    es.len() == d.entries@.len(),
                    forall|j: int| 0 <= j < d.entries@.len() ==> #[trigger] es[j] == (d.entries@[j].0@, d.entries@[j].1@),
                    out@ == start + toml_tables(es.subrange(0, i as int), path@, nested),
                decreases d.entries@.len() - i,
            {
                let entry = &d.entries[i];
                let p = join_path(path, entry.0.as_str());
                assert(decreases_to!(*node => (*node)->Dictionary_0));
                assert(decreases_to!(*d => d.entries));
                assert(decreases_to!(d.entries => d.entries@));
                assert(decreases_to!(d.entries@ => d.entries@[i as int]));
                assert(decreases_to!(d.entries@[i as int] => d.entries@[i as int].1));
                sub_into(&entry.1, &p, nested, out);
                assert(es.subrange(0, i as int + 1).drop_last() =~= es.subrange(0, i as int));
                i = i + 1;
                assert(out@ =~= start + toml_tables(es.subrange(0, i as int), path@, nested));
            }
            assert(es.subrange(0, i as int) =~= es);
        },
        _ => {},
    }
}

/// Appends the table at `p` of the dictionary `node`.
fn table_into(node: &Node, p: &Vec<u8>, nested: bool, out: &mut Vec<u8>)
    requires
        node@ is Dictionary,
    ensures
        final(out)@ == old(out)@ + toml_table(node@, p@, nested),
    decreases node, 1int,
{
    match node {
        Node::Dictionary(d) => {
            if any_plain(d) {
                out.push(91u8);
                push_bytes(out, p.as_slice());
                out.push(93u8);
                out.push(10u8);
            }
            plain_lines_into(d, out);
            tables_into(node, p, nested, out);
            assert(final(out)@ =~= old(out)@ + toml_table(node@, p@, nested));
        },
        _ => {},
    }
}

/// Appends one element of an array of tables at `p`.
fn array_item_into(item: &Node, p: &Vec<u8>, nested: bool, out: &mut Vec<u8>)
    ensures
        final(out)@ == old(out)@ + toml_array_item(item@, p@, nested),
    decreases item, 2int,
{
    match item {
        Node::Dictionary(d) => {
            if nested {
                table_into(item, p, true, out);
            } else {
                out.push(91u8);
                out.push(91u8);
                push_bytes(out, p.as_slice());
                out.push(93u8);
                out.push(93u8);
                out.push(10u8);
                plain_lines_into(d, out);
                tables_into(item, p, true, out);
                assert(final(out)@ =~= old(out)@ + toml_array_item(item@, p@, nested));
            }
        },
        _ => {
            assert(final(out)@ =~= old(out)@ + toml_array_item(item@, p@, nested));
        },
    }
}

/// Appends what the value `v` of an entry adds below its table at `p`.
fn sub_into(v: &Node, p: &Vec<u8>, nested: bool, out: &mut Vec<u8>)
    ensures
        final(out)@ == old(out)@ + toml_sub(v@, p@, nested),
    decreases v, 3int,
{
    match v {
        Node::Dictionary(_) => {
            table_into(v, p, nested, out);
        },
        Node::List(items) => {
            if plain(v) {
                assert(final(out)@ =~= old(out)@ + toml_sub(v@, p@, nested));
                return;
            }
            let ghost start = out@;
            proof {
                lemma_model_list(items@);
            }
            let mut i: usize = 0;
            while i < items.len()
                invariant
                    0 <= i <= items@.len(),
                    *v == Node::List(*items),
                    model_list(items@).len() == items@.len(),
                    forall|j: int| 0 <= j < items@.len() ==> #[trigger] model_list(items@)[j] == items@[j]@,
                    out@ == start + toml_array_tables(model_list(items@).subrange(0, i as int), p@, nested),
                decreases items@.len() - i,
            {
                assert(decreases_to!(*v => (*v)->List_0));
                assert(decreases_to!(*items => items@));
                assert(decreases_to!(items@ => items@[i as int]));
                array_item_into(&items[i], p, nested, out);
                assert(model_list(items@).subrange(0, i as int + 1).drop_last() =~= model_list(
                    items@,
                ).subrange(0, i as int));
                i = i + 1;
                assert(out@ =~= start + toml_array_tables(model_list(items@).subrange(0, i as int), p@, nested));
            }
            assert(model_list(items@).subrange(0, i as int) =~= model_list(items@));
        },
        _ => {
            assert(final(out)@ =~= old(out)@ + toml_sub(v@, p@, nested));
        },
    }
}

/// Writes the TOML document of `node` to `destination`. A root that is not a dictionary,
/// or a list anywhere that mixes kinds of values, is refused, and nothing is written.
pub fn stringify(node: &Node, destination: &mut BufferDestination) -> (r: Result<(), String>)
    ensures
        match node@ {
            NodeModel::Dictionary(es) => if uniform(node@) {
                &&& r is Ok
                &&& node@.wf()
                &&& final(destination).buffer@ == old(destination).buffer@ + toml_document(es)
            } else {
                &&& r matches Err(m) && m@ == TOML_MIXED_LIST@
                &&& final(destination).buffer@ == old(destination).buffer@
            },
            _ => {
                &&& r matches Err(m) && m@ == TOML_ROOT_NOT_TABLE@
                &&& final(destination).buffer@ == old(destination).buffer@
            },
        },
{
    match node {
        Node::Dictionary(d) => {
            if !check_uniform(node) {
                return Err(TOML_MIXED_LIST.to_owned());
            }
            let root: Vec<u8> = Vec::new();
            plain_lines_into(d, &mut destination.buffer);
            tables_into(node, &root, false, &mut destination.buffer);
            assert(root@ =~= Seq::<u8>::empty());
            Ok(())
        },
        _ => Err(TOML_ROOT_NOT_TABLE.to_owned()),
    }
}

} // verus!
