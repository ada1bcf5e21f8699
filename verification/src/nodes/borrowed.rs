//! `BorrowedNode`, a parsed value whose strings are slices of the input it was read from.
use vstd::prelude::*;
use crate::nodes::convert::dict_from_pairs;
use crate::nodes::node::{
    Dict, Node, NodeModel, lemma_model_list_push, model_list,
};
use crate::text::{latin1, latin1_string};

verus! {

broadcast use crate::nodes::node::lemma_dict_view;

/// A bencode value that borrows its strings from the input.
#[derive(Debug, PartialEq, Eq)]
pub enum BorrowedNode<'a> {
    Integer(i64),
    Bytes(&'a [u8]),
    List(Vec<BorrowedNode<'a>>),
    Dictionary(BorrowedDict<'a>),
}

/// The entries of a borrowed dictionary, in the order they were read.
#[derive(Debug, PartialEq, Eq)]
pub struct BorrowedDict<'a> {
    pub entries: Vec<(&'a [u8], BorrowedNode<'a>)>,
}

/// The mathematical value of a `BorrowedNode`.
pub enum BorrowedModel {
    Integer(i64),
    Bytes(Seq<u8>),
    List(Seq<BorrowedModel>),
    Dictionary(Seq<(Seq<u8>, BorrowedModel)>),
}

/// The models of a sequence of borrowed nodes.
pub open spec fn borrowed_list(s: Seq<BorrowedNode>) -> Seq<BorrowedModel>
    decreases s,
{
    if s.len() == 0 {
        Seq::empty()
    } else {
        borrowed_list(s.drop_last()).push(s.last().model())
    }
}

/// The models of a sequence of borrowed entries.
pub open spec fn borrowed_entries(s: Seq<(&[u8], BorrowedNode)>) -> Seq<(Seq<u8>, BorrowedModel)>
    decreases s,
{
    if s.len() == 0 {
        Seq::empty()
    } else {
        borrowed_entries(s.drop_last()).push((s.last().0@, s.last().1.model()))
    }
}

impl<'a> BorrowedNode<'a> {
    /// The mathematical value of this node.
    pub open spec fn model(self) -> BorrowedModel
        decreases self,
    {
        match self {
            BorrowedNode::Integer(i) => BorrowedModel::Integer(i),
            BorrowedNode::Bytes(b) => BorrowedModel::Bytes(b@),
            BorrowedNode::List(v) => BorrowedModel::List(borrowed_list(v@)),
            BorrowedNode::Dictionary(d) => BorrowedModel::Dictionary(borrowed_entries(d.entries@)),
        }
    }
}

impl<'a> View for BorrowedNode<'a> {
    type V = BorrowedModel;

    open spec fn view(&self) -> BorrowedModel {
        self.model()
    }
}

impl<'a> View for BorrowedDict<'a> {
    type V = Seq<(Seq<u8>, BorrowedModel)>;

    open spec fn view(&self) -> Seq<(Seq<u8>, BorrowedModel)> {
        borrowed_entries(self.entries@)
    }
}

pub proof fn lemma_borrowed_list(s: Seq<BorrowedNode>)
    ensures
        borrowed_list(s).len() == s.len(),
        forall|i: int| 0 <= i < s.len() ==> #[trigger] borrowed_list(s)[i] == s[i].model(),
    decreases s.len(),
{
    if s.len() > 0 {
        lemma_borrowed_list(s.drop_last());
    }
}

pub proof fn lemma_borrowed_entries(s: Seq<(&[u8], BorrowedNode)>)
    ensures
        borrowed_entries(s).len() == s.len(),
        forall|i: int|
            0 <= i < s.len() ==> #[trigger] borrowed_entries(s)[i] == (s[i].0@, s[i].1.model()),
    decreases s.len(),
{
    if s.len() > 0 {
        lemma_borrowed_entries(s.drop_last());
    }
}

pub proof fn lemma_borrowed_list_push(s: Seq<BorrowedNode>, n: BorrowedNode)
    ensures
        borrowed_list(s.push(n)) == borrowed_list(s).push(n.model()),
{
    assert(s.push(n).drop_last() =~= s);
}

pub proof fn lemma_borrowed_entries_push<'a>(s: Seq<(&'a [u8], BorrowedNode<'a>)>, e: (&'a [u8], BorrowedNode<'a>))
    ensures
        borrowed_entries(s.push(e)) == borrowed_entries(s).push((e.0@, e.1.model())),
{
    assert(s.push(e).drop_last() =~= s);
}

/// The owned value of a borrowed one: each byte of a string becomes a character, and a
/// dictionary's entries are stored in turn (a later key replacing an earlier equal one).
pub open spec fn owned(m: BorrowedModel) -> NodeModel
    decreases m,
{
    match m {
        BorrowedModel::Integer(i) => NodeModel::Integer(i),
        BorrowedModel::Bytes(b) => NodeModel::Str(latin1(b)),
        BorrowedModel::List(items) => NodeModel::List(owned_items(items)),
        BorrowedModel::Dictionary(es) => NodeModel::Dictionary(dict_from_pairs(owned_entries(es))),
    }
}

/// The owned values of a sequence of borrowed values.
pub open spec fn owned_items(items: Seq<BorrowedModel>) -> Seq<NodeModel>
    decreases items,
{
    if items.len() == 0 {
        Seq::empty()
    } else {
        owned_items(items.drop_last()).push(owned(items.last()))
    }
}

/// The owned entries of a sequence of borrowed entries.
pub open spec fn owned_entries(es: Seq<(Seq<u8>, BorrowedModel)>) -> Seq<(Seq<char>, NodeModel)>
    decreases es,
{
    if es.len() == 0 {
        Seq::empty()
    } else {
        owned_entries(es.drop_last()).push((latin1(es.last().0), owned(es.last().1)))
    }
}

/// The first value stored under byte key `k`, if any.
pub open spec fn borrowed_get(es: Seq<(Seq<u8>, BorrowedModel)>, k: Seq<u8>) -> Option<BorrowedModel>
    decreases es.len(),
{
    if es.len() == 0 {
        None
    } else if es[0].0 == k {
        Some(es[0].1)
    } else {
        borrowed_get(es.drop_first(), k)
    }
}

/// Whether two byte slices hold the same bytes.
fn bytes_equal(a: &[u8], b: &[u8]) -> (r: bool)
    ensures
        r == (a@ == b@),
{
    if a.len() != b.len() {
        return false;
    }
    let mut i: usize = 0;
    while i < a.len()
        invariant
            0 <= i <= a@.len(),
            a@.len() == b@.len(),
            forall|j: int| 0 <= j < i ==> a@[j] == b@[j],
        decreases a@.len() - i,
    {
        if a[i] != b[i] {
            return false;
        }
        i = i + 1;
    }
    assert(a@ =~= b@);
    true
}

impl<'a> BorrowedDict<'a> {
    /// The number of entries.
    pub fn len(&self) -> (r: usize)
        ensures
            r == self@.len(),
    {
        proof {
            lemma_borrowed_entries(self.entries@);
        }
        self.entries.len()
    }

    /// Whether there is no entry.
    pub fn is_empty(&self) -> (r: bool)
        ensures
            r == (self@.len() == 0),
    {
        self.len() == 0
    }

    /// The first value stored under `key`, if any.
    pub fn get(&self, key: &[u8]) -> (r: Option<&BorrowedNode<'a>>)
        ensures
            match r {
                Some(n) => borrowed_get(self@, key@) == Some(n@),
                None => borrowed_get(self@, key@) is None,
            },
    {
        let ghost es = self@;
        proof {
            lemma_borrowed_entries(self.entries@);
        }
        assert(es.skip(0) =~= es);
        let mut i: usize = 0;
        while i < self.entries.len()
            invariant
                0 <= i <= self.entries@.len(),
                es == self@,
                es.len() == self.entries@.len(),
                forall|j: int| 0 <= j < self.entries@.len() ==> #[trigger] es[j] == (self.entries@[j].0@, self.entries@[j].1@),
                borrowed_get(es, key@) == borrowed_get(es.skip(i as int), key@),
            decreases self.entries@.len() - i,
        {
            let ghost rest = es.skip(i as int);
            assert(rest[0] == es[i as int]);
            if bytes_equal(self.entries[i].0, key) {
                return Some(&self.entries[i].1);
            }
            assert(rest.drop_first() =~= es.skip(i as int + 1));
            i = i + 1;
        }
        None
    }
}

impl<'a> BorrowedNode<'a> {
    /// Whether this is an integer.
    pub fn is_integer(&self) -> (r: bool)
        ensures
            r == (self@ is Integer),
    {
        match self {
            BorrowedNode::Integer(_) => true,
            _ => false,
        }
    }

    /// Whether this is a byte string.
    pub fn is_bytes(&self) -> (r: bool)
        ensures
            r == (self@ is Bytes),
    {
        match self {
            BorrowedNode::Bytes(_) => true,
            _ => false,
        }
    }

    /// Whether this is a list.
    pub fn is_list(&self) -> (r: bool)
        ensures
            r == (self@ is List),
    {
        match self {
            BorrowedNode::List(_) => true,
            _ => false,
        }
    }

    /// Whether this is a dictionary.
    pub fn is_dictionary(&self) -> (r: bool)
        ensures
            r == (self@ is Dictionary),
    {
        match self {
            BorrowedNode::Dictionary(_) => true,
            _ => false,
        }
    }

    /// The integer, if this is one.
    pub fn as_integer(&self) -> (r: Option<i64>)
        ensures
            r == match self@ {
                BorrowedModel::Integer(i) => Some(i),
                _ => None::<i64>,
            },
    {
        match self {
            BorrowedNode::Integer(i) => Some(*i),
            _ => None,
        }
    }

    /// The bytes, if this is a string.
    pub fn as_bytes(&self) -> (r: Option<&'a [u8]>)
        ensures
            match self@ {
                BorrowedModel::Bytes(b) => r matches Some(x) && x@ == b,
                _ => r is None,
            },
    {
        match self {
            BorrowedNode::Bytes(b) => Some(*b),
            _ => None,
        }
    }

    /// The items, if this is a list.
    pub fn as_list(&self) -> (r: Option<&Vec<BorrowedNode<'a>>>)
        ensures
            match *self {
                BorrowedNode::List(v) => r == Some(&v),
                _ => r is None,
            },
    {
        match self {
            BorrowedNode::List(v) => Some(v),
            _ => None,
        }
    }

    /// The dictionary, if this is one.
    pub fn as_dictionary(&self) -> (r: Option<&BorrowedDict<'a>>)
        ensures
            match *self {
                BorrowedNode::Dictionary(d) => r == Some(&d),
                _ => r is None,
            },
    {
        match self {
            BorrowedNode::Dictionary(d) => Some(d),
            _ => None,
        }
    }

    /// An owned copy of the value (see `owned`).
    pub fn to_node(&self) -> (r: Node)
        ensures
            r@ == owned(self@),
        decreases self,
    {
        match self {
            BorrowedNode::Integer(i) => Node::Integer(*i),
            BorrowedNode::Bytes(b) => {
                let t = latin1_string(b, 0, b.len());
                assert(b@.subrange(0, b@.len() as int) =~= b@);
                Node::Str(t)
            },
            BorrowedNode::List(items) => {
                let mut out: Vec<Node> = Vec::new();
                proof {
                    lemma_borrowed_list(items@);
                }
                let mut i: usize = 0;
                while i < items.len()
                    invariant
                        0 <= i <= items@.len(),
                        *self == BorrowedNode::List(*items),
                        borrowed_list(items@).len() == items@.len(),
                        forall|j: int| 0 <= j < items@.len() ==> #[trigger] borrowed_list(items@)[j] == items@[j]@,
                        model_list(out@) == owned_items(borrowed_list(items@).subrange(0, i as int)),
                    decreases items@.len() - i,
                {
                    assert(decreases_to!(*self => (*self)->List_0));
                    assert(decreases_to!(*items => items@));
                    assert(decreases_to!(items@ => items@[i as int]));
                    let n = items[i].to_node();
                    proof {
                        lemma_model_list_push(out@, n);
                        assert(borrowed_list(items@).subrange(0, i as int + 1).drop_last() =~= borrowed_list(
                            items@,
                        ).subrange(0, i as int));
                    }
                    out.push(n);
                    i = i + 1;
                }
                assert(borrowed_list(items@).subrange(0, i as int) =~= borrowed_list(items@));
                Node::List(out)
            },
            BorrowedNode::Dictionary(d) => {
                let mut out = Dict::new();
                let ghost es = borrowed_entries(d.entries@);
                proof {
                    lemma_borrowed_entries(d.entries@);
                }
                let mut i: usize = 0;
                while i < d.entries.len()
                    invariant
                        0 <= i <= d.entries@.len(),
                        *self == BorrowedNode::Dictionary(*d),
                        es == borrowed_entries(d.entries@),
                        es.len() == d.entries@.len(),
                        forall|j: int| 0 <= j < d.entries@.len() ==> #[trigger] es[j] == (d.entries@[j].0@, d.entries@[j].1@),
                        out@ == dict_from_pairs(owned_entries(es.subrange(0, i as int))),
                    decreases d.entries@.len() - i,
                {
                    let entry = &d.entries[i];
                    let k = latin1_string(entry.0, 0, entry.0.len());
                    assert(entry.0@.subrange(0, entry.0@.len() as int) =~= entry.0@);
                    assert(decreases_to!(*self => (*self)->Dictionary_0));
                    assert(decreases_to!(*d => d.entries));
                    assert(decreases_to!(d.entries => d.entries@));
                    assert(decreases_to!(d.entries@ => d.entries@[i as int]));
                    assert(decreases_to!(d.entries@[i as int] => d.entries@[i as int].1));
                    let v = entry.1.to_node();
                    proof {
                        let a = es.subrange(0, i as int + 1);
                        assert(a.drop_last() =~= es.subrange(0, i as int));
                        let oa = owned_entries(a);
                        assert(oa.drop_last() == owned_entries(es.subrange(0, i as int)));
                        assert(oa.last() == (k@, v@));
                    }
                    out.insert(k, v);
                    i = i + 1;
                }
                assert(es.subrange(0, i as int) =~= es);
                Node::Dictionary(out)
            },
        }
    }
}

} // verus!
