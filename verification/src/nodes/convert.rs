//! Building a `Node` from plain values.
use vstd::prelude::*;
use crate::nodes::node::{
    Dict, Node, NodeModel, dict_insert, lemma_model_list_push, model_list,
};
use vstd::std_specs::convert::{FromSpecImpl, IntoSpec};

verus! {

broadcast use crate::nodes::node::lemma_dict_view;

/// The entries of a dictionary built by storing each pair in turn, a later pair replacing
/// an earlier one with the same key.
pub open spec fn dict_from_pairs(pairs: Seq<(Seq<char>, NodeModel)>) -> Seq<(Seq<char>, NodeModel)>
    decreases pairs.len(),
{
    if pairs.len() == 0 {
        Seq::empty()
    } else {
        let last = pairs.last();
        dict_insert(dict_from_pairs(pairs.drop_last()), last.0, last.1)
    }
}

/// `Vec::from` on an array: a vector of the array's items, in order.
#[verifier::external_body]
fn vec_from_array<T, const N: usize>(a: [T; N]) -> (v: Vec<T>)
    ensures
        v@ == a@,
{
    Vec::from(a)
}

/// A list node of integer nodes.
fn integer_list(values: &[i64]) -> (r: Node)
    ensures
        r@ == NodeModel::List(values@.map_values(|i: i64| NodeModel::Integer(i))),
{
    let mut items: Vec<Node> = Vec::new();
    let mut i: usize = 0;
    while i < values.len()
        invariant
            0 <= i <= values@.len(),
            model_list(items@) == values@.subrange(0, i as int).map_values(
                |x: i64| NodeModel::Integer(x),
            ),
        decreases values@.len() - i,
    {
        proof {
            lemma_model_list_push(items@, Node::Integer(values[i as int]));
        }
        items.push(Node::Integer(values[i]));
        i = i + 1;
        assert(model_list(items@) =~= values@.subrange(0, i as int).map_values(
            |x: i64| NodeModel::Integer(x),
        ));
    }
    assert(values@.subrange(0, i as int) =~= values@);
    Node::List(items)
}

/// A dictionary node made by storing each `(key, value)` pair in turn.
fn dictionary_of(pairs: Vec<(&str, Node)>) -> (r: Node)
    ensures
        r@ == NodeModel::Dictionary(
            dict_from_pairs(pairs@.map_values(|p: (&str, Node)| (p.0@, p.1@))),
        ),
{
    let ghost ps = pairs@.map_values(|p: (&str, Node)| (p.0@, p.1@));
    let mut d = Dict::new();
    let mut rest = pairs;
    let ghost all = rest@;
    let n = rest.len();
    assert(rest@ =~= all.subrange(0, all.len() as int));
    let mut i: usize = 0;
    while rest.len() > 0
        invariant
            0 <= i <= all.len(),
            all.len() == n,
            rest@ == all.subrange(i as int, all.len() as int),
            ps == all.map_values(|p: (&str, Node)| (p.0@, p.1@)),
            d@ == dict_from_pairs(ps.subrange(0, i as int)),
        decreases rest@.len(),
    {
        let (k, v) = rest.remove(0);
        proof {
            assert(all[i as int] == (k, v));
            let a = ps.subrange(0, i as int + 1);
            assert(a.drop_last() =~= ps.subrange(0, i as int));
            assert(a.last() == (k@, v@));
        }
        d.insert(k.to_owned(), v);
        i = i + 1;
        assert(rest@ =~= all.subrange(i as int, all.len() as int));
    }
    assert(ps.subrange(0, i as int) =~= ps);
    Node::Dictionary(d)
}

impl From<i64> for Node {
    fn from(value: i64) -> (r: Node) {
        Node::Integer(value)
    }
}

impl FromSpecImpl<i64> for Node {
    open spec fn obeys_from_spec() -> bool {
        true
    }

    open spec fn from_spec(v: i64) -> Node {
        Node::Integer(v)
    }
}

impl From<String> for Node {
    fn from(value: String) -> (r: Node) {
        Node::Str(value)
    }
}

impl FromSpecImpl<String> for Node {
    open spec fn obeys_from_spec() -> bool {
        true
    }

    open spec fn from_spec(v: String) -> Node {
        Node::Str(v)
    }
}

impl From<&str> for Node {
    fn from(value: &str) -> (r: Node)
        ensures
            r@ == NodeModel::Str(value@),
    {
        Node::Str(value.to_owned())
    }
}

impl FromSpecImpl<&str> for Node {
    open spec fn obeys_from_spec() -> bool {
        false
    }

    open spec fn from_spec(v: &str) -> Node {
        arbitrary()
    }
}

impl From<Dict> for Node {
    fn from(value: Dict) -> (r: Node) {
        Node::Dictionary(value)
    }
}

impl FromSpecImpl<Dict> for Node {
    open spec fn obeys_from_spec() -> bool {
        true
    }

    open spec fn from_spec(v: Dict) -> Node {
        Node::Dictionary(v)
    }
}

impl From<Vec<Node>> for Node {
    fn from(value: Vec<Node>) -> (r: Node) {
        Node::List(value)
    }
}

impl FromSpecImpl<Vec<Node>> for Node {
    open spec fn obeys_from_spec() -> bool {
        true
    }

    open spec fn from_spec(v: Vec<Node>) -> Node {
        Node::List(v)
    }
}

impl From<Vec<i64>> for Node {
    fn from(value: Vec<i64>) -> (r: Node)
        ensures
            r@ == NodeModel::List(value@.map_values(|i: i64| NodeModel::Integer(i))),
    {
        integer_list(value.as_slice())
    }
}

impl FromSpecImpl<Vec<i64>> for Node {
    open spec fn obeys_from_spec() -> bool {
        false
    }

    open spec fn from_spec(v: Vec<i64>) -> Node {
        arbitrary()
    }
}

impl<const N: usize> From<[i64; N]> for Node {
    fn from(value: [i64; N]) -> (r: Node)
        ensures
            r@ == NodeModel::List(value@.map_values(|i: i64| NodeModel::Integer(i))),
    {
        let v = vec_from_array(value);
        integer_list(v.as_slice())
    }
}

impl<const N: usize> FromSpecImpl<[i64; N]> for Node {
    open spec fn obeys_from_spec() -> bool {
        false
    }

    open spec fn from_spec(v: [i64; N]) -> Node {
        arbitrary()
    }
}

impl<const N: usize> From<[Node; N]> for Node {
    fn from(value: [Node; N]) -> (r: Node)
        ensures
            r matches Node::List(items) && items@ == value@,
    {
        Node::List(vec_from_array(value))
    }
}

impl<const N: usize> FromSpecImpl<[Node; N]> for Node {
    open spec fn obeys_from_spec() -> bool {
        false
    }

    open spec fn from_spec(v: [Node; N]) -> Node {
        arbitrary()
    }
}

impl<const N: usize> From<[(&str, i64); N]> for Node {
    fn from(value: [(&str, i64); N]) -> (r: Node)
        ensures
            r@ == NodeModel::Dictionary(
                dict_from_pairs(value@.map_values(|p: (&str, i64)| (p.0@, NodeModel::Integer(p.1)))),
            ),
    {
        let v = vec_from_array(value);
        let mut pairs: Vec<(&str, Node)> = Vec::new();
        let mut i: usize = 0;
        while i < v.len()
            invariant
                0 <= i <= v@.len(),
                v@ == value@,
                pairs@.len() == i,
                pairs@.map_values(|p: (&str, Node)| (p.0@, p.1@)) == v@.subrange(0, i as int).map_values(
                    |p: (&str, i64)| (p.0@, NodeModel::Integer(p.1)),
                ),
            decreases v@.len() - i,
        {
            let (k, x) = v[i];
            let ghost before = pairs@;
            pairs.push((k, Node::Integer(x)));
            i = i + 1;
            proof {
                let lhs = pairs@.map_values(|p: (&str, Node)| (p.0@, p.1@));
                let rhs = v@.subrange(0, i as int).map_values(|p: (&str, i64)| (p.0@, NodeModel::Integer(p.1)));
                assert(lhs.len() == rhs.len());
                assert forall|j: int| 0 <= j < lhs.len() implies lhs[j] == rhs[j] by {
                    if j < i - 1 {
                        assert(pairs@[j] == before[j]);
                        assert(before.map_values(|p: (&str, Node)| (p.0@, p.1@))[j] == lhs[j]);
                    }
                }
                assert(lhs =~= rhs);
            }
        }
        assert(v@.subrange(0, i as int) =~= v@);
        dictionary_of(pairs)
    }
}

impl<const N: usize> FromSpecImpl<[(&str, i64); N]> for Node {
    open spec fn obeys_from_spec() -> bool {
        false
    }

    open spec fn from_spec(v: [(&str, i64); N]) -> Node {
        arbitrary()
    }
}

impl<const N: usize> From<[(&str, &str); N]> for Node {
    fn from(value: [(&str, &str); N]) -> (r: Node)
        ensures
            r@ == NodeModel::Dictionary(
                dict_from_pairs(value@.map_values(|p: (&str, &str)| (p.0@, NodeModel::Str(p.1@)))),
            ),
    {
        let v = vec_from_array(value);
        let mut pairs: Vec<(&str, Node)> = Vec::new();
        let mut i: usize = 0;
        while i < v.len()
            invariant
                0 <= i <= v@.len(),
                v@ == value@,
                pairs@.len() == i,
                pairs@.map_values(|p: (&str, Node)| (p.0@, p.1@)) == v@.subrange(0, i as int).map_values(
                    |p: (&str, &str)| (p.0@, NodeModel::Str(p.1@)),
                ),
            decreases v@.len() - i,
        {
            let (k, x) = v[i];
            let ghost before = pairs@;
            pairs.push((k, Node::Str(x.to_owned())));
            i = i + 1;
            proof {
                let lhs = pairs@.map_values(|p: (&str, Node)| (p.0@, p.1@));
                let rhs = v@.subrange(0, i as int).map_values(|p: (&str, &str)| (p.0@, NodeModel::Str(p.1@)));
                assert(lhs.len() == rhs.len());
                assert forall|j: int| 0 <= j < lhs.len() implies lhs[j] == rhs[j] by {
                    if j < i - 1 {
                        assert(pairs@[j] == before[j]);
                        assert(before.map_values(|p: (&str, Node)| (p.0@, p.1@))[j] == lhs[j]);
                    }
                }
                assert(lhs =~= rhs);
            }
        }
        assert(v@.subrange(0, i as int) =~= v@);
        dictionary_of(pairs)
    }
}

impl<const N: usize> FromSpecImpl<[(&str, &str); N]> for Node {
    open spec fn obeys_from_spec() -> bool {
        false
    }

    open spec fn from_spec(v: [(&str, &str); N]) -> Node {
        arbitrary()
    }
}

/// Converts `value` into a `Node`: the result is the one the conversion from `T` gives
/// (each conversion above states its result).
pub fn make_node<T: Into<Node>>(value: T) -> (r: Node)
    ensures
        <T as IntoSpec<Node>>::obeys_into_spec() ==> r == value.into_spec(),
        call_ensures(T::into, (value,), r),
{
    value.into()
}

} // verus!
