//! `Node`, a parsed bencode value, and `Dict`, its dictionary: a list of entries
//! kept in strictly increasing key order.
use vstd::prelude::*;
use crate::laws::law_dict_read_after_write;
use crate::text::{
    chars_equal, chars_less, chars_lt, chars_of, lemma_chars_lt_irreflexive,
    lemma_chars_lt_transitive,
};

verus! {

/// A bencode value.
#[derive(Debug, PartialEq, Eq)]
pub enum Node {
    Integer(i64),
    Str(String),
    List(Vec<Node>),
    Dictionary(Dict),
    /// A value that stands for nothing; writers emit nothing (bencode), `null` (JSON),
    /// `unknown` (YAML) for it.
    Null,
}

/// A dictionary of a `Node`: its entries, always in strictly increasing key order.
#[derive(Debug, PartialEq, Eq)]
pub struct Dict {
    pub(crate) entries: Vec<(String, Node)>,
}

impl Dict {
    /// The keys of a dictionary are strictly increasing.
    #[verifier::type_invariant]
    pub(crate) open spec fn keys_in_order(self) -> bool {
        entries_sorted(self.entries@)
    }
}

/// Whether the keys of a sequence of entries are strictly increasing.
pub(crate) open spec fn entries_sorted(s: Seq<(String, Node)>) -> bool {
    forall|i: int, j: int| 0 <= i < j < s.len() ==> chars_lt(#[trigger] s[i].0@, #[trigger] s[j].0@)
}

pub(crate) proof fn lemma_entries_sorted(s: Seq<(String, Node)>)
    ensures
        entries_sorted(s) <==> keys_sorted(model_entries(s)),
{
    lemma_model_entries(s);
    let m = model_entries(s);
    if keys_sorted(m) {
        assert forall|i: int, j: int| 0 <= i < j < s.len() implies chars_lt(#[trigger] s[i].0@, #[trigger] s[j].0@) by {
            assert(m[i].0 == s[i].0@);
            assert(m[j].0 == s[j].0@);
        }
    }
    if entries_sorted(s) {
        assert forall|i: int, j: int| 0 <= i < j < m.len() implies chars_lt(#[trigger] m[i].0, #[trigger] m[j].0) by {
            assert(m[i].0 == s[i].0@);
            assert(m[j].0 == s[j].0@);
        }
    }
}

/// The mathematical value of a `Node`.
pub enum NodeModel {
    Integer(i64),
    Str(Seq<char>),
    List(Seq<NodeModel>),
    Dictionary(Seq<(Seq<char>, NodeModel)>),
    Null,
}

/// The models of a sequence of nodes.
pub open spec fn model_list(s: Seq<Node>) -> Seq<NodeModel>
    decreases s,
{
    if s.len() == 0 {
        Seq::empty()
    } else {
        model_list(s.drop_last()).push(s.last().model())
    }
}

/// The models of a sequence of dictionary entries.
pub open spec fn model_entries(s: Seq<(String, Node)>) -> Seq<(Seq<char>, NodeModel)>
    decreases s,
{
    if s.len() == 0 {
        Seq::empty()
    } else {
        model_entries(s.drop_last()).push((s.last().0@, s.last().1.model()))
    }
}

impl Node {
    /// The mathematical value of this node.
    pub open spec fn model(self) -> NodeModel
        decreases self,
    {
        match self {
            Node::Integer(i) => NodeModel::Integer(i),
            Node::Str(s) => NodeModel::Str(s@),
            Node::List(v) => NodeModel::List(model_list(v@)),
            Node::Dictionary(d) => NodeModel::Dictionary(d@),
            Node::Null => NodeModel::Null,
        }
    }
}

impl View for Node {
    type V = NodeModel;

    open spec fn view(&self) -> NodeModel {
        self.model()
    }
}

impl View for Dict {
    type V = Seq<(Seq<char>, NodeModel)>;

    closed spec fn view(&self) -> Seq<(Seq<char>, NodeModel)>
        decreases self,
    {
        model_entries(self.entries@)
    }
}

/// Within the crate, the model of a dictionary is that of its entries.
pub(crate) broadcast proof fn lemma_dict_view(d: Dict)
    ensures
        #[trigger] d@ == model_entries(d.entries@),
{
}

pub proof fn lemma_model_list(s: Seq<Node>)
    ensures
        model_list(s).len() == s.len(),
        forall|i: int| 0 <= i < s.len() ==> #[trigger] model_list(s)[i] == s[i].model(),
    decreases s.len(),
{
    if s.len() > 0 {
        lemma_model_list(s.drop_last());
    }
}

pub proof fn lemma_model_entries(s: Seq<(String, Node)>)
    ensures
        model_entries(s).len() == s.len(),
        forall|i: int|
            0 <= i < s.len() ==> #[trigger] model_entries(s)[i] == (s[i].0@, s[i].1.model()),
    decreases s.len(),
{
    if s.len() > 0 {
        lemma_model_entries(s.drop_last());
    }
}

pub proof fn lemma_model_list_push(s: Seq<Node>, n: Node)
    ensures
        model_list(s.push(n)) == model_list(s).push(n.model()),
{
    assert(s.push(n).drop_last() =~= s);
}

pub proof fn lemma_model_entries_push(s: Seq<(String, Node)>, e: (String, Node))
    ensures
        model_entries(s.push(e)) == model_entries(s).push((e.0@, e.1.model())),
{
    assert(s.push(e).drop_last() =~= s);
}

/// Whether the keys of a sequence of entries are strictly increasing.
pub open spec fn keys_sorted(es: Seq<(Seq<char>, NodeModel)>) -> bool {
    forall|i: int, j: int| 0 <= i < j < es.len() ==> chars_lt(#[trigger] es[i].0, #[trigger] es[j].0)
}

/// The first value stored under key `k`, if any.
pub open spec fn dict_get(es: Seq<(Seq<char>, NodeModel)>, k: Seq<char>) -> Option<NodeModel>
    decreases es.len(),
{
    if es.len() == 0 {
        None
    } else if es[0].0 == k {
        Some(es[0].1)
    } else {
        dict_get(es.drop_first(), k)
    }
}

/// The entries after storing `v` under `k`: the entry with key `k` is replaced, or a new
/// one is placed before the first entry whose key is greater.
pub open spec fn dict_insert(es: Seq<(Seq<char>, NodeModel)>, k: Seq<char>, v: NodeModel) -> Seq<
    (Seq<char>, NodeModel),
>
    decreases es.len(),
{
    if es.len() == 0 {
        seq![(k, v)]
    } else if es[0].0 == k {
        seq![(k, v)] + es.drop_first()
    } else if chars_lt(k, es[0].0) {
        seq![(k, v)] + es
    } else {
        seq![es[0]] + dict_insert(es.drop_first(), k, v)
    }
}

impl NodeModel {
    /// Every dictionary in the value has its keys in strictly increasing order.
    pub open spec fn wf(self) -> bool
        decreases self,
    {
        match self {
            NodeModel::List(items) => forall|i: int| 0 <= i < items.len() ==> (#[trigger] items[i]).wf(),
            NodeModel::Dictionary(es) => keys_sorted(es) && forall|i: int|
                0 <= i < es.len() ==> (#[trigger] es[i]).1.wf(),
            _ => true,
        }
    }
}

/// The position of the first entry whose key is `k`, if any.
pub open spec fn dict_index(es: Seq<(Seq<char>, NodeModel)>, k: Seq<char>) -> Option<int>
    decreases es.len(),
{
    if es.len() == 0 {
        None
    } else if es[0].0 == k {
        Some(0)
    } else {
        match dict_index(es.drop_first(), k) {
            Some(i) => Some(i + 1),
            None => None,
        }
    }
}

pub proof fn lemma_dict_index(es: Seq<(Seq<char>, NodeModel)>, k: Seq<char>)
    ensures
        dict_index(es, k) matches Some(i) ==> 0 <= i < es.len() && es[i].0 == k && dict_get(es, k)
            == Some(es[i].1) && forall|j: int| 0 <= j < i ==> es[j].0 != k,
        dict_index(es, k) is None ==> dict_get(es, k) is None && forall|j: int|
            0 <= j < es.len() ==> es[j].0 != k,
    decreases es.len(),
{
    if es.len() > 0 {
        lemma_dict_index(es.drop_first(), k);
        if es[0].0 != k {
            assert forall|j: int| 0 < j < es.len() implies #[trigger] es[j].0 == es.drop_first()[j - 1].0 by {}
        }
    }
}

proof fn lemma_model_entries_update(s: Seq<(String, Node)>, i: int)
    requires
        0 <= i < s.len(),
    ensures
        forall|e: (String, Node)| #[trigger] model_entries(s.update(i, e)) == model_entries(s).update(i, (e.0@, e.1.model())),
{
    assert forall|e: (String, Node)| #[trigger] model_entries(s.update(i, e)) == model_entries(s).update(i, (e.0@, e.1.model())) by {
        let t = s.update(i, e);
        lemma_model_entries(s);
        lemma_model_entries(t);
        assert(model_entries(t) =~= model_entries(s).update(i, (e.0@, e.1.model())));
    }
}

/// The value of the entry at position `i`, to change in place; its key stays.
fn value_at_mut(entries: &mut Vec<(String, Node)>, i: usize) -> (r: &mut Node)
    requires
        i < old(entries)@.len(),
    ensures
        *r == old(entries)@[i as int].1,
        final(entries)@ == old(entries)@.update(i as int, (old(entries)@[i as int].0, *final(r))),
    no_unwind
{
    &mut entries[i].1
}

/// A copy of `n`, node by node.
pub fn clone_node(n: &Node) -> (r: Node)
    ensures
        r@ == n@,
    decreases n,
{
    match n {
        Node::Integer(i) => Node::Integer(*i),
        Node::Str(s) => Node::Str(s.clone()),
        Node::List(items) => {
            let mut out: Vec<Node> = Vec::new();
            proof {
                lemma_model_list(items@);
            }
            let mut i: usize = 0;
            while i < items.len()
                invariant
                    0 <= i <= items@.len(),
                    *n == Node::List(*items),
                    model_list(items@).len() == items@.len(),
                    forall|j: int| 0 <= j < items@.len() ==> #[trigger] model_list(items@)[j] == items@[j]@,
                    model_list(out@) == model_list(items@).subrange(0, i as int),
                decreases items@.len() - i,
            {
                assert(decreases_to!(*n => (*n)->List_0));
                assert(decreases_to!(*items => items@));
                assert(decreases_to!(items@ => items@[i as int]));
                let c = clone_node(&items[i]);
                proof {
                    lemma_model_list_push(out@, c);
                }
                out.push(c);
                i = i + 1;
                assert(model_list(out@) =~= model_list(items@).subrange(0, i as int));
            }
            assert(model_list(items@).subrange(0, i as int) =~= model_list(items@));
            Node::List(out)
        },
        Node::Dictionary(d) => {
            assert(decreases_to!(*n => (*n)->Dictionary_0));
            Node::Dictionary(clone_dict(d))
        },
        Node::Null => Node::Null,
    }
}

/// A copy of the dictionary `d`, entry by entry.
pub fn clone_dict(d: &Dict) -> (r: Dict)
    ensures
        r@ == d@,
    decreases d,
{
    let mut out: Vec<(String, Node)> = Vec::new();
    let ghost es = model_entries(d.entries@);
    proof {
        lemma_model_entries(d.entries@);
    }
    let mut i: usize = 0;
    while i < d.entries.len()
        invariant
            0 <= i <= d.entries@.len(),
            es == model_entries(d.entries@),
            es.len() == d.entries@.len(),
            forall|j: int| 0 <= j < d.entries@.len() ==> #[trigger] es[j] == (d.entries@[j].0@, d.entries@[j].1@),
            model_entries(out@) == es.subrange(0, i as int),
        decreases d.entries@.len() - i,
    {
        let entry = &d.entries[i];
        assert(decreases_to!(*d => d.entries));
        assert(decreases_to!(d.entries => d.entries@));
        assert(decreases_to!(d.entries@ => d.entries@[i as int]));
        assert(decreases_to!(d.entries@[i as int] => d.entries@[i as int].1));
        let v = clone_node(&entry.1);
        let k = entry.0.clone();
        proof {
            lemma_model_entries_push(out@, (k, v));
        }
        out.push((k, v));
        i = i + 1;
        assert(model_entries(out@) =~= es.subrange(0, i as int));
    }
    assert(es.subrange(0, i as int) =~= es);
    proof {
        use_type_invariant(d);
        lemma_entries_sorted(d.entries@);
        lemma_entries_sorted(out@);
    }
    Dict { entries: out }
}

impl Clone for Node {
    fn clone(&self) -> (r: Node)
        ensures
            r@ == self@,
    {
        clone_node(self)
    }
}

impl Clone for Dict {
    fn clone(&self) -> (r: Dict)
        ensures
            r@ == self@,
    {
        clone_dict(self)
    }
}

impl Dict {
    /// An empty dictionary.
    pub fn new() -> (d: Dict)
        ensures
            d@ == Seq::<(Seq<char>, NodeModel)>::empty(),
    {
        Dict { entries: Vec::new() }
    }

    /// The entries, in increasing key order.
    pub fn entries(&self) -> (r: &Vec<(String, Node)>)
        ensures
            model_entries(r@) == self@,
            keys_sorted(self@),
    {
        proof {
            use_type_invariant(self);
            lemma_entries_sorted(self.entries@);
        }
        &self.entries
    }

    /// The number of entries.
    pub fn len(&self) -> (r: usize)
        ensures
            r == self@.len(),
    {
        proof {
            lemma_model_entries(self.entries@);
        }
        self.entries.len()
    }

    /// Whether there is no entry.
    pub fn is_empty(&self) -> (r: bool)
        ensures
            r == (self@.len() == 0),
    {
        proof {
            lemma_model_entries(self.entries@);
        }
        self.entries.len() == 0
    }

    /// The position of the first entry with key `key`.
    pub fn index_of(&self, key: &str) -> (r: Option<usize>)
        ensures
            match r {
                Some(i) => dict_index(self@, key@) == Some(i as int),
                None => dict_index(self@, key@) is None,
            },
    {
        let k = chars_of(key);
        let ghost es = self@;
        proof {
            lemma_model_entries(self.entries@);
            lemma_dict_index(es, key@);
        }
        let mut i: usize = 0;
        while i < self.entries.len()
            invariant
                0 <= i <= self.entries@.len(),
                es == self@,
                k@ == key@,
                es.len() == self.entries@.len(),
                forall|j: int| 0 <= j < self.entries@.len() ==> #[trigger] es[j] == (self.entries@[j].0@, self.entries@[j].1.model()),
                forall|j: int| 0 <= j < i ==> es[j].0 != key@,
                dict_index(es, key@) matches Some(m) ==> m >= i,
            decreases self.entries@.len() - i,
        {
            proof {
                lemma_dict_index(es, key@);
            }
            let kc = chars_of(self.entries[i].0.as_str());
            assert(es[i as int].0 == kc@);
            if chars_equal(kc.as_slice(), k.as_slice()) {
                proof {
                    if dict_index(es, key@) is None {
                        assert(es[i as int].0 == key@);
                    } else {
                        let m = dict_index(es, key@)->0;
                        if m > i {
                            assert(es[i as int].0 == key@);
                        }
                    }
                }
                return Some(i);
            }
            i = i + 1;
        }
        None
    }

    /// The value stored under `key`, if any.
    pub fn get(&self, key: &str) -> (r: Option<&Node>)
        ensures
            match r {
                Some(n) => dict_get(self@, key@) == Some(n.model()),
                None => dict_get(self@, key@) is None,
            },
    {
        proof {
            lemma_model_entries(self.entries@);
            lemma_dict_index(self@, key@);
        }
        let idx = self.index_of(key);
        match idx {
            Some(i) => {
                proof {
                    assert(dict_index(self@, key@) is Some);
                    let m = dict_index(self@, key@)->0;
                    assert(0 <= m < self@.len());
                    assert(self@.len() == self.entries@.len());
                    assert(m == i as int);
                    assert(self@[i as int] == (self.entries@[i as int].0@, self.entries@[i as int].1.model()));
                    assert(dict_get(self@, key@) == Some(self@[m].1));
                }
                Some(&self.entries[i].1)
            },
            None => None,
        }
    }

    /// The value stored under `key`, to change in place, if any.
    pub fn get_mut(&mut self, key: &str) -> (r: Option<&mut Node>)
        ensures
            match dict_index(old(self)@, key@) {
                Some(i) => {
                    &&& 0 <= i < old(self)@.len()
                    &&& r is Some
                    &&& (*r->0)@ == old(self)@[i].1
                    &&& final(self)@ == old(self)@.update(i, (old(self)@[i].0, (*final(r->0))@))
                },
                None => r is None && *final(self) == *old(self),
            },
    {
        proof {
            lemma_model_entries(self.entries@);
            lemma_dict_index(self@, key@);
        }
        match self.index_of(key) {
            Some(i) => {
                proof {
                    use_type_invariant(&*self);
                    lemma_model_entries_update(self.entries@, i as int);
                }
                let v = value_at_mut(&mut self.entries, i);
                proof {
                    let e = (old(self).entries@[i as int].0, *final(v));
                    assert(model_entries(old(self).entries@.update(i as int, e)) == model_entries(
                        old(self).entries@,
                    ).update(i as int, (e.0@, e.1.model())));
                }
                Some(v)
            },
            None => None,
        }
    }

    /// Whether some entry has key `key`.
    pub fn contains_key(&self, key: &str) -> (r: bool)
        ensures
            r == (dict_get(self@, key@) is Some),
    {
        proof {
            lemma_dict_index(self@, key@);
        }
        self.index_of(key).is_some()
    }

    /// Stores `value` under `key`, keeping the keys in order; returns the value that `key`
    /// held, if any.
    pub fn insert(&mut self, key: String, value: Node) -> (r: Option<Node>)
        ensures
            final(self)@ == dict_insert(old(self)@, key@, value@),
            match r {
                Some(n) => dict_get(old(self)@, key@) == Some(n.model()),
                None => dict_get(old(self)@, key@) is None,
            },
    {
        proof {
            use_type_invariant(&*self);
            lemma_entries_sorted(self.entries@);
            law_dict_read_after_write(self@, key@, value@);
        }
        let k = chars_of(key.as_str());
        let ghost es = self@;
        let mut entries: Vec<(String, Node)> = Vec::new();
        std::mem::swap(&mut entries, &mut self.entries);
        let ghost kv = (key@, value@);
        proof {
            lemma_model_entries(entries@);
        }
        let mut i: usize = 0;
        assert(es.skip(0) =~= es);
        assert(es.take(0) + dict_insert(es, key@, value@) =~= dict_insert(es, key@, value@));
        while i < entries.len()
            invariant
                0 <= i <= entries@.len(),
                entries@ == old(self).entries@,
                keys_sorted(es),
                keys_sorted(dict_insert(es, key@, value@)),
                es == old(self)@,
                kv == (key@, value@),
                k@ == key@,
                es.len() == entries@.len(),
                forall|j: int| 0 <= j < entries@.len() ==> #[trigger] es[j] == (entries@[j].0@, entries@[j].1.model()),
                dict_insert(es, key@, value@) == es.take(i as int) + dict_insert(es.skip(i as int), key@, value@),
                dict_get(es, key@) == dict_get(es.skip(i as int), key@),
                keys_sorted(es) ==> keys_sorted(es.skip(i as int)),
            decreases entries@.len() - i,
        {
            let kc = chars_of(entries[i].0.as_str());
            let ghost rest = es.skip(i as int);
            assert(rest[0] == es[i as int]);
            if chars_equal(kc.as_slice(), k.as_slice()) {
                let ghost before = entries@;
                let old_entry = entries.remove(i);
                entries.insert(i, (key, value));
                proof {
                    let after = entries@;
                    assert(after =~= before.update(i as int, after[i as int]));
                    lemma_model_entries(after);
                    let target = es.take(i as int) + (seq![kv] + rest.drop_first());
                    assert(model_entries(after) =~= target) by {
                        assert forall|j: int| 0 <= j < after.len() implies #[trigger] model_entries(after)[j] == target[j] by {
                            if j < i {
                                assert(after[j] == before[j]);
                            } else if j > i {
                                assert(after[j] == before[j]);
                                assert(target[j] == rest[j - i]);
                            }
                        }
                    }
                }
                proof {
                    lemma_entries_sorted(entries@);
                }
                self.entries = entries;
                return Some(old_entry.1);
            }
            if chars_less(k.as_slice(), kc.as_slice()) {
                let ghost before = entries@;
                entries.insert(i, (key, value));
                proof {
                    let after = entries@;
                    lemma_model_entries(after);
                    let target = es.take(i as int) + (seq![kv] + rest);
                    assert(model_entries(after) =~= target) by {
                        assert forall|j: int| 0 <= j < after.len() implies #[trigger] model_entries(after)[j] == target[j] by {
                            if j < i {
                                assert(after[j] == before[j]);
                            } else if j > i {
                                assert(after[j] == before[j - 1]);
                                assert(target[j] == rest[j - 1 - i]);
                            }
                        }
                    }
                    if keys_sorted(es) {
                        lemma_dict_index(rest, key@);
                        assert forall|j: int| 0 <= j < rest.len() implies rest[j].0 != key@ by {
                            if j > 0 {
                                assert(chars_lt(rest[0].0, rest[j].0));
                                lemma_chars_lt_transitive(key@, rest[0].0, rest[j].0);
                                lemma_chars_lt_irreflexive(key@);
                            } else {
                                lemma_chars_lt_irreflexive(key@);
                            }
                        }
                    }
                }
                proof {
                    lemma_entries_sorted(entries@);
                }
                self.entries = entries;
                return None;
            }
            proof {
                assert(rest.drop_first() =~= es.skip(i as int + 1));
                assert(es.take(i as int + 1) =~= es.take(i as int).push(es[i as int]));
                assert(es.take(i as int) + dict_insert(rest, key@, value@) =~= es.take(i as int + 1)
                    + dict_insert(es.skip(i as int + 1), key@, value@));
                if keys_sorted(es) {
                    let r2 = es.skip(i as int + 1);
                    assert forall|a: int, b: int| 0 <= a < b < r2.len() implies chars_lt(#[trigger] r2[a].0, #[trigger] r2[b].0) by {
                        assert(r2[a] == rest[a + 1]);
                        assert(r2[b] == rest[b + 1]);
                    }
                }
            }
            i = i + 1;
        }
        let ghost before = entries@;
        entries.push((key, value));
        proof {
            let after = entries@;
            lemma_model_entries(after);
            assert(es.skip(i as int).len() == 0);
            assert(es.take(i as int) =~= es);
            assert(model_entries(after) =~= es + seq![kv]) by {
                assert forall|j: int| 0 <= j < after.len() implies #[trigger] model_entries(after)[j] == (es + seq![kv])[j] by {
                    if j < i {
                        assert(after[j] == before[j]);
                    }
                }
            }
            lemma_entries_sorted(entries@);
        }
        self.entries = entries;
        None
    }
}

} // verus!
