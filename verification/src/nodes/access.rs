//! Typed access to the parts of a `Node`, and its human-readable form.
use vstd::prelude::*;
use crate::nodes::node::{
    Dict, Node, NodeModel, dict_get, dict_index, lemma_model_entries, lemma_model_list, model_entries,
    model_list,
};
use crate::text::{chars_of, int_digits, latin1, push_char, push_int_digits};
use vstd::utf8::encode_utf8;

verus! {

broadcast use crate::nodes::node::lemma_dict_view;

/// The length that `Node::len` reports: the byte length of a string, the number of items of
/// a list or entries of a dictionary, 0 otherwise.
pub open spec fn node_len(m: NodeModel) -> nat {
    match m {
        NodeModel::Str(t) => encode_utf8(t).len(),
        NodeModel::List(items) => items.len(),
        NodeModel::Dictionary(es) => es.len(),
        _ => 0,
    }
}

/// The name of the kind of a value.
pub open spec fn kind_name_of(m: NodeModel) -> Seq<char> {
    match m {
        NodeModel::Integer(_) => "integer"@,
        NodeModel::Str(_) => "string"@,
        NodeModel::List(_) => "list"@,
        NodeModel::Dictionary(_) => "dictionary"@,
        NodeModel::Null => "none"@,
    }
}

/// The human-readable form of a value: integers in decimal, strings in double quotes, lists
/// as `[a, b]`, dictionaries as `{"k": v, "l": w}`, `null` for `Null`.
pub open spec fn display(m: NodeModel) -> Seq<char>
    decreases m,
{
    match m {
        NodeModel::Integer(i) => latin1(int_digits(i as int)),
        NodeModel::Str(t) => seq!['"'] + t + seq!['"'],
        NodeModel::List(items) => seq!['['] + display_items(items) + seq![']'],
        NodeModel::Dictionary(es) => seq!['{'] + display_entries(es) + seq!['}'],
        NodeModel::Null => seq!['n', 'u', 'l', 'l'],
    }
}

/// The items' forms separated by `, `.
pub open spec fn display_items(items: Seq<NodeModel>) -> Seq<char>
    decreases items,
{
    if items.len() == 0 {
        Seq::empty()
    } else if items.len() == 1 {
        display(items.last())
    } else {
        display_items(items.drop_last()) + seq![',', ' '] + display(items.last())
    }
}

/// The entries' forms `"key": value` separated by `, `.
pub open spec fn display_entries(es: Seq<(Seq<char>, NodeModel)>) -> Seq<char>
    decreases es,
{
    if es.len() == 0 {
        Seq::empty()
    } else if es.len() == 1 {
        seq!['"'] + es.last().0 + seq!['"', ':', ' '] + display(es.last().1)
    } else {
        display_entries(es.drop_last()) + seq![',', ' '] + seq!['"'] + es.last().0 + seq![
            '"',
            ':',
            ' ',
        ] + display(es.last().1)
    }
}

/// Appends the characters of `s` to `out`.
fn push_text(out: &mut String, s: &str)
    ensures
        final(out)@ == old(out)@ + s@,
{
    let cs = chars_of(s);
    let mut i: usize = 0;
    while i < cs.len()
        invariant
            0 <= i <= cs@.len(),
            cs@ == s@,
            out@ == old(out)@ + s@.subrange(0, i as int),
        decreases cs@.len() - i,
    {
        push_char(out, cs[i]);
        i = i + 1;
        assert(out@ =~= old(out)@ + s@.subrange(0, i as int));
    }
    assert(s@.subrange(0, i as int) =~= s@);
}

/// Appends the decimal form of `v` to `out`.
fn push_integer(out: &mut String, v: i64)
    ensures
        final(out)@ == old(out)@ + latin1(int_digits(v as int)),
{
    let mut b: Vec<u8> = Vec::new();
    push_int_digits(v, &mut b);
    assert(b@ =~= int_digits(v as int));
    let mut i: usize = 0;
    while i < b.len()
        invariant
            0 <= i <= b@.len(),
            b@ == int_digits(v as int),
            out@ == old(out)@ + latin1(b@.subrange(0, i as int)),
        decreases b@.len() - i,
    {
        push_char(out, b[i] as char);
        i = i + 1;
        assert(out@ =~= old(out)@ + latin1(b@.subrange(0, i as int)));
    }
    assert(b@.subrange(0, i as int) =~= b@);
}

/// The value stored under `k` when `m` is a dictionary that has it.
pub open spec fn node_get(m: NodeModel, k: Seq<char>) -> Option<NodeModel> {
    match m {
        NodeModel::Dictionary(es) => dict_get(es, k),
        _ => None,
    }
}

/// The message of a lookup of a required key that is not there.
pub open spec fn missing_key_message(k: Seq<char>) -> Seq<char> {
    "missing required key '"@ + k + "'"@
}

/// The message of a lookup of a required key whose value is not `kind`.
pub open spec fn wrong_kind_message(k: Seq<char>, kind: Seq<char>) -> Seq<char> {
    "key '"@ + k + "' is not "@ + kind
}

/// Builds `missing_key_message(key)`.
fn missing_key(key: &str) -> (r: String)
    ensures
        r@ == missing_key_message(key@),
{
    let mut r = "missing required key '".to_owned();
    push_text(&mut r, key);
    push_text(&mut r, "'");
    r
}

/// Builds `wrong_kind_message(key, kind)`.
fn wrong_kind(key: &str, kind: &str) -> (r: String)
    ensures
        r@ == wrong_kind_message(key@, kind@),
{
    let mut r = "key '".to_owned();
    push_text(&mut r, key);
    push_text(&mut r, "' is not ");
    push_text(&mut r, kind);
    r
}

/// Appends the human-readable form of `node` to `out`.
pub fn display_into(node: &Node, out: &mut String)
    ensures
        final(out)@ == old(out)@ + display(node@),
    decreases node,
{
    match node {
        Node::Integer(i) => {
            push_integer(out, *i);
        },
        Node::Str(s) => {
            push_char(out, '"');
            push_text(out, s.as_str());
            push_char(out, '"');
            assert(final(out)@ =~= old(out)@ + display(node@));
        },
        Node::List(items) => {
            push_char(out, '[');
            let ghost start = out@;
            proof {
                lemma_model_list(items@);
            }
            let mut i: usize = 0;
            while i < items.len()
                invariant
                    0 <= i <= items@.len(),
                    *node == Node::List(*items),
                    model_list(items@).len() == items@.len(),
                    forall|j: int| 0 <= j < items@.len() ==> #[trigger] model_list(items@)[j] == items@[j]@,
                    out@ == start + display_items(model_list(items@).subrange(0, i as int)),
                decreases items@.len() - i,
            {
                if i > 0 {
                    push_char(out, ',');
                    push_char(out, ' ');
                }
                assert(decreases_to!(*node => (*node)->List_0));
                assert(decreases_to!(*items => items@));
                assert(decreases_to!(items@ => items@[i as int]));
                display_into(&items[i], out);
                assert(model_list(items@).subrange(0, i as int + 1).drop_last() =~= model_list(
                    items@,
                ).subrange(0, i as int));
                i = i + 1;
                assert(out@ =~= start + display_items(model_list(items@).subrange(0, i as int)));
            }
            assert(model_list(items@).subrange(0, i as int) =~= model_list(items@));
            push_char(out, ']');
            assert(final(out)@ =~= old(out)@ + display(node@));
        },
        Node::Dictionary(d) => {
            push_char(out, '{');
            let ghost start = out@;
            let ghost es = model_entries(d.entries@);
            proof {
                lemma_model_entries(d.entries@);
            }
            let mut i: usize = 0;
            while i < d.entries.len()
                invariant
                    0 <= i <= d.entries@.len(),
                    *node == Node::Dictionary(*d),
                    es == model_entries(d.entries@),
                    es.len() == d.entries@.len(),
                    forall|j: int| 0 <= j < d.entries@.len() ==> #[trigger] es[j] == (d.entries@[j].0@, d.entries@[j].1@),
                    out@ == start + display_entries(es.subrange(0, i as int)),
                decreases d.entries@.len() - i,
            {
                if i > 0 {
                    push_char(out, ',');
                    push_char(out, ' ');
                }
                let entry = &d.entries[i];
                push_char(out, '"');
                push_text(out, entry.0.as_str());
                push_char(out, '"');
                push_char(out, ':');
                push_char(out, ' ');
                assert(decreases_to!(*node => (*node)->Dictionary_0));
                assert(decreases_to!(*d => d.entries));
                assert(decreases_to!(d.entries => d.entries@));
                assert(decreases_to!(d.entries@ => d.entries@[i as int]));
                assert(decreases_to!(d.entries@[i as int] => d.entries@[i as int].1));
                display_into(&entry.1, out);
                assert(es.subrange(0, i as int + 1).drop_last() =~= es.subrange(0, i as int));
                i = i + 1;
                assert(out@ =~= start + display_entries(es.subrange(0, i as int)));
            }
            assert(es.subrange(0, i as int) =~= es);
            push_char(out, '}');
            assert(final(out)@ =~= old(out)@ + display(node@));
        },
        Node::Null => {
            push_char(out, 'n');
            push_char(out, 'u');
            push_char(out, 'l');
            push_char(out, 'l');
            assert(final(out)@ =~= old(out)@ + display(node@));
        },
    }
}

impl Node {
    /// Whether this is an integer.
    pub fn is_integer(&self) -> (r: bool)
        ensures
            r == (self@ is Integer),
    {
        match self {
            Node::Integer(_) => true,
            _ => false,
        }
    }

    /// Whether this is a string.
    pub fn is_string(&self) -> (r: bool)
        ensures
            r == (self@ is Str),
    {
        match self {
            Node::Str(_) => true,
            _ => false,
        }
    }

    /// Whether this is a list.
    pub fn is_list(&self) -> (r: bool)
        ensures
            r == (self@ is List),
    {
        match self {
            Node::List(_) => true,
            _ => false,
        }
    }

    /// Whether this is a dictionary.
    pub fn is_dictionary(&self) -> (r: bool)
        ensures
            r == (self@ is Dictionary),
    {
        match self {
            Node::Dictionary(_) => true,
            _ => false,
        }
    }

    /// Whether this is the `Null` value.
    pub fn is_none(&self) -> (r: bool)
        ensures
            r == (self@ is Null),
    {
        match self {
            Node::Null => true,
            _ => false,
        }
    }

    /// The integer, if this is one.
    pub fn as_integer(&self) -> (r: Option<&i64>)
        ensures
            match self@ {
                NodeModel::Integer(i) => r == Some(&i),
                _ => r is None,
            },
    {
        match self {
            Node::Integer(i) => Some(i),
            _ => None,
        }
    }

    /// The text, if this is a string.
    pub fn as_string(&self) -> (r: Option<&str>)
        ensures
            match self@ {
                NodeModel::Str(t) => r is Some && r->0@ == t,
                _ => r is None,
            },
    {
        match self {
            Node::Str(s) => Some(s.as_str()),
            _ => None,
        }
    }

    /// The items, if this is a list.
    pub fn as_list(&self) -> (r: Option<&Vec<Node>>)
        ensures
            match *self {
                Node::List(v) => r == Some(&v),
                _ => r is None,
            },
    {
        match self {
            Node::List(v) => Some(v),
            _ => None,
        }
    }

    /// The items, to change in place, if this is a list.
    pub fn as_list_mut(&mut self) -> (r: Option<&mut Vec<Node>>)
        ensures
            match *old(self) {
                Node::List(v) => r is Some && *r->0 == v && *final(self) == Node::List(*final(r->0)),
                _ => r is None && *final(self) == *old(self),
            },
    {
        match self {
            Node::List(v) => Some(v),
            _ => None,
        }
    }

    /// The dictionary, if this is one.
    pub fn as_dictionary(&self) -> (r: Option<&Dict>)
        ensures
            match *self {
                Node::Dictionary(d) => r == Some(&d),
                _ => r is None,
            },
    {
        match self {
            Node::Dictionary(d) => Some(d),
            _ => None,
        }
    }

    /// The value stored under `key`, if this is a dictionary that has it.
    pub fn get(&self, key: &str) -> (r: Option<&Node>)
        ensures
            match r {
                Some(n) => node_get(self@, key@) == Some(n@),
                None => node_get(self@, key@) is None,
            },
    {
        match self {
            Node::Dictionary(d) => d.get(key),
            _ => None,
        }
    }

    /// The dictionary, to change in place, if this is one.
    pub fn as_dictionary_mut(&mut self) -> (r: Option<&mut Dict>)
        ensures
            match *old(self) {
                Node::Dictionary(d) => r is Some && *r->0 == d && *final(self) == Node::Dictionary(
                    *final(r->0),
                ),
                _ => r is None && *final(self) == *old(self),
            },
    {
        match self {
            Node::Dictionary(d) => Some(d),
            _ => None,
        }
    }

    /// The value stored under `key`, to change in place, if this is a dictionary that has it.
    pub fn get_mut(&mut self, key: &str) -> (r: Option<&mut Node>)
        ensures
            match *old(self) {
                Node::Dictionary(d) => match dict_index(d@, key@) {
                    Some(i) => {
                        &&& 0 <= i < d@.len()
                        &&& r is Some
                        &&& (*r->0)@ == d@[i].1
                        &&& *final(self) matches Node::Dictionary(d2)
                        &&& d2@ == d@.update(i, (d@[i].0, (*final(r->0))@))
                    },
                    None => r is None && *final(self) == *old(self),
                },
                _ => r is None && *final(self) == *old(self),
            },
    {
        match self {
            Node::Dictionary(d) => d.get_mut(key),
            _ => None,
        }
    }

    /// The value stored under `key`; an error naming the key when this is not a dictionary
    /// that has it.
    pub fn get_required(&self, key: &str) -> (r: Result<&Node, String>)
        ensures
            r is Ok <==> node_get(self@, key@) is Some,
            r matches Ok(n) ==> node_get(self@, key@) == Some(n@),
            r matches Err(e) ==> e@ == missing_key_message(key@),
    {
        match self.get(key) {
            Some(n) => Ok(n),
            None => Err(missing_key(key)),
        }
    }

    /// The integer stored under `key`; an error when it is missing or not an integer.
    pub fn get_int_required(&self, key: &str) -> (r: Result<i64, String>)
        ensures
            match node_get(self@, key@) {
                Some(NodeModel::Integer(i)) => r == Ok::<i64, String>(i),
                Some(_) => r matches Err(e) && e@ == wrong_kind_message(key@, "an integer"@),
                None => r matches Err(e) && e@ == missing_key_message(key@),
            },
    {
        match self.get(key) {
            Some(Node::Integer(i)) => Ok(*i),
            Some(_) => Err(wrong_kind(key, "an integer")),
            None => Err(missing_key(key)),
        }
    }

    /// The text stored under `key`; an error when it is missing or not a string.
    pub fn get_string_required(&self, key: &str) -> (r: Result<&str, String>)
        ensures
            match node_get(self@, key@) {
                Some(NodeModel::Str(t)) => r matches Ok(s) && s@ == t,
                Some(_) => r matches Err(e) && e@ == wrong_kind_message(key@, "a string"@),
                None => r matches Err(e) && e@ == missing_key_message(key@),
            },
    {
        match self.get(key) {
            Some(Node::Str(s)) => Ok(s.as_str()),
            Some(_) => Err(wrong_kind(key, "a string")),
            None => Err(missing_key(key)),
        }
    }

    /// The list stored under `key`; an error when it is missing or not a list.
    pub fn get_list_required(&self, key: &str) -> (r: Result<&Vec<Node>, String>)
        ensures
            match node_get(self@, key@) {
                Some(NodeModel::List(items)) => r matches Ok(v) && model_list(v@) == items,
                Some(_) => r matches Err(e) && e@ == wrong_kind_message(key@, "a list"@),
                None => r matches Err(e) && e@ == missing_key_message(key@),
            },
    {
        match self.get(key) {
            Some(Node::List(v)) => Ok(v),
            Some(_) => Err(wrong_kind(key, "a list")),
            None => Err(missing_key(key)),
        }
    }

    /// The dictionary stored under `key`; an error when it is missing or not a dictionary.
    pub fn get_dict_required(&self, key: &str) -> (r: Result<&Dict, String>)
        ensures
            match node_get(self@, key@) {
                Some(NodeModel::Dictionary(es)) => r matches Ok(d) && d@ == es,
                Some(_) => r matches Err(e) && e@ == wrong_kind_message(key@, "a dictionary"@),
                None => r matches Err(e) && e@ == missing_key_message(key@),
            },
    {
        match self.get(key) {
            Some(Node::Dictionary(d)) => Ok(d),
            Some(_) => Err(wrong_kind(key, "a dictionary")),
            None => Err(missing_key(key)),
        }
    }

    /// The integer stored under `key`, if there is one.
    pub fn get_int_optional(&self, key: &str) -> (r: Option<i64>)
        ensures
            r == match node_get(self@, key@) {
                Some(NodeModel::Integer(i)) => Some(i),
                _ => None::<i64>,
            },
    {
        match self.get(key) {
            Some(Node::Integer(i)) => Some(*i),
            _ => None,
        }
    }

    /// The text stored under `key`, if there is a string there.
    pub fn get_string_optional(&self, key: &str) -> (r: Option<&str>)
        ensures
            match node_get(self@, key@) {
                Some(NodeModel::Str(t)) => r matches Some(s) && s@ == t,
                _ => r is None,
            },
    {
        match self.get(key) {
            Some(Node::Str(s)) => Some(s.as_str()),
            _ => None,
        }
    }

    /// The list stored under `key`, if there is one.
    pub fn get_list_optional(&self, key: &str) -> (r: Option<&Vec<Node>>)
        ensures
            match node_get(self@, key@) {
                Some(NodeModel::List(items)) => r matches Some(v) && model_list(v@) == items,
                _ => r is None,
            },
    {
        match self.get(key) {
            Some(Node::List(v)) => Some(v),
            _ => None,
        }
    }

    /// The dictionary stored under `key`, if there is one.
    pub fn get_dict_optional(&self, key: &str) -> (r: Option<&Dict>)
        ensures
            match node_get(self@, key@) {
                Some(NodeModel::Dictionary(es)) => r matches Some(d) && d@ == es,
                _ => r is None,
            },
    {
        match self.get(key) {
            Some(Node::Dictionary(d)) => Some(d),
            _ => None,
        }
    }

    /// The byte length of a string, the number of items of a list or entries of a
    /// dictionary, 0 for the other values.
    pub fn len(&self) -> (r: usize)
        ensures
            r == node_len(self@),
    {
        match self {
            Node::Str(s) => s.as_str().as_bytes().len(),
            Node::List(v) => {
                proof {
                    lemma_model_list(v@);
                }
                v.len()
            },
            Node::Dictionary(d) => d.len(),
            _ => 0,
        }
    }

    /// Whether `len` is 0.
    pub fn is_empty(&self) -> (r: bool)
        ensures
            r == (node_len(self@) == 0),
    {
        self.len() == 0
    }

    /// The name of the kind of value: `integer`, `string`, `list`, `dictionary` or `none`.
    pub fn kind_name(&self) -> (r: &'static str)
        ensures
            r@ == kind_name_of(self@),
    {
        match self {
            Node::Integer(_) => "integer",
            Node::Str(_) => "string",
            Node::List(_) => "list",
            Node::Dictionary(_) => "dictionary",
            Node::Null => "none",
        }
    }

    /// The human-readable form of the value (see `display`).
    pub fn to_string(&self) -> (r: String)
        ensures
            r@ == display(self@),
    {
        let mut out = String::new();
        display_into(self, &mut out);
        assert(out@ =~= display(self@));
        out
    }
}

} // verus!
