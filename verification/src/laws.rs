//! Properties that relate the parsers and writers of the library.
use vstd::prelude::*;
use crate::error::embedded::BencodeError;
use crate::error::messages::{
    ERR_DICT_KEYS_ORDER, ERR_DICT_KEY_MUST_BE_STRING, ERR_EMPTY_INPUT, ERR_INVALID_INTEGER,
    ERR_INVALID_STRING_LENGTH, ERR_STRING_TOO_SHORT, ERR_UNTERMINATED_DICTIONARY,
    ERR_UNTERMINATED_INTEGER, ERR_UNTERMINATED_LIST, FILE_NOT_FOUND,
};
use crate::nodes::borrowed::{BorrowedModel, owned, owned_entries, owned_items};
use crate::nodes::convert::dict_from_pairs;
use crate::nodes::node::{
    Node, NodeModel, dict_get, dict_index, dict_insert, keys_sorted, lemma_dict_index,
    lemma_model_entries, model_entries,
};
use crate::parser::borrowed::{
    spec_borrowed, spec_borrowed_bytes, spec_borrowed_dict, spec_borrowed_list,
};
use crate::parser::non_recursive::{
    FrameModel, StackParseError, spec_finish, spec_handle_value, spec_run,
};
use crate::parser::default::{
    Outcome, lemma_parse_progress,
    find_byte, lemma_find_byte, spec_parse, spec_parse_dict, spec_parse_integer, spec_parse_list,
    spec_parse_string,
};
use crate::stringify::default::{
    encode, encode_entries, encode_items, encode_str, lemma_encode_valid_utf8,
};
use crate::stringify::json::{json, json_entries, json_items};
use crate::stringify::xml::{xml, xml_entries, xml_items};
use crate::stringify::yaml::{indent, lemma_indent, yaml, yaml_entries, yaml_items};
use vstd::string::StringSliceAdditionalSpecFns;
use crate::text::{
    all_digits, chars_lt, digits_value, int_digits, is_digit, latin1, lemma_chars_lt_asymmetric,
    lemma_chars_lt_irreflexive, lemma_chars_lt_total, lemma_chars_lt_transitive, nat_digits,
    parse_i64_spec, parse_usize_spec,
};
use vstd::utf8::{
    decode_utf8, decode_utf8_encode_utf8, encode_utf8, is_ascii_chars, is_ascii_chars_encode_utf8,
};

verus! {

broadcast use crate::nodes::node::lemma_dict_view;

/// The values that bencode writes and reads back unchanged: no `Null` anywhere, every string
/// and key ASCII (a parser reads each byte as one character), dictionary keys non-empty and
/// strictly increasing, lengths within `usize`.
pub open spec fn encodable(m: NodeModel) -> bool
    decreases m,
{
    match m {
        NodeModel::Integer(_) => true,
        NodeModel::Str(t) => is_ascii_chars(t) && t.len() <= usize::MAX,
        NodeModel::List(items) => forall|i: int| 0 <= i < items.len() ==> encodable(#[trigger] items[i]),
        NodeModel::Dictionary(es) => keys_sorted(es) && forall|i: int|
            0 <= i < es.len() ==> {
                &&& (#[trigger] es[i]).0.len() > 0
                &&& is_ascii_chars(es[i].0)
                &&& es[i].0.len() <= usize::MAX
                &&& encodable(es[i].1)
            },
        NodeModel::Null => false,
    }
}

proof fn lemma_nat_digits(n: nat)
    ensures
        nat_digits(n).len() >= 1,
        all_digits(nat_digits(n)),
        digits_value(nat_digits(n)) == n,
    decreases n,
{
    if n >= 10 {
        lemma_nat_digits(n / 10);
        let d = nat_digits(n);
        assert(d.drop_last() =~= nat_digits(n / 10));
        assert(n == (n / 10) * 10 + n % 10) by (nonlinear_arith);
        assert(d.last() == (48 + n % 10) as u8);
        assert(((48 + n % 10) as u8) as int == 48 + n % 10);
        assert forall|i: int| 0 <= i < d.len() implies is_digit(#[trigger] d[i]) by {
            if i < d.len() - 1 {
                assert(d[i] == nat_digits(n / 10)[i]);
            }
        }
        assert(d.last() - 48 == n % 10);
        assert(digits_value(d) == digits_value(d.drop_last()) * 10 + (d.last() - 48) as nat);
        assert(digits_value(d) == (n / 10) * 10 + n % 10);
    } else {
        let d = nat_digits(n);
        assert(d.drop_last() =~= Seq::<u8>::empty());
        assert(((48 + n) as u8) as int == 48 + n);
        assert(d.last() == (48 + n) as u8);
        assert(digits_value(d.drop_last()) == 0);
        assert(digits_value(d) == digits_value(d.drop_last()) * 10 + (d.last() - 48) as nat);
    }
}

proof fn lemma_parse_usize_digits(n: nat)
    requires
        n <= usize::MAX,
    ensures
        parse_usize_spec(nat_digits(n)) == Some(n as usize),
{
    lemma_nat_digits(n);
    assert(is_digit(nat_digits(n)[0]));
}

proof fn lemma_parse_i64_digits(i: i64)
    ensures
        parse_i64_spec(int_digits(i as int)) == Some(i),
        int_digits(i as int) != seq![45u8, 48u8],
        all_digits(int_digits(i as int)) || (int_digits(i as int)[0] == 45u8 && all_digits(
            int_digits(i as int).drop_first(),
        )),
        int_digits(i as int).len() >= 1,
{
    if i < 0 {
        let n = (0 - i) as nat;
        lemma_nat_digits(n);
        let b = int_digits(i as int);
        assert(b.drop_first() =~= nat_digits(n));
        if b == seq![45u8, 48u8] {
            assert(nat_digits(n) =~= seq![48u8]);
            assert(digits_value(seq![48u8]) == 0) by {
                assert(seq![48u8].drop_last() =~= Seq::<u8>::empty());
                assert(seq![48u8].last() == 48u8);
                assert(digits_value(Seq::<u8>::empty()) == 0);
            }
        }
    } else {
        lemma_nat_digits(i as nat);
        assert(is_digit(int_digits(i as int)[0]));
    }
}

/// `find_byte` stops at the first `b`.
proof fn lemma_find_at(s: Seq<u8>, p: int, k: int, b: u8)
    requires
        0 <= p <= k < s.len(),
        s[k] == b,
        forall|j: int| p <= j < k ==> s[j] != b,
    ensures
        find_byte(s, p, b) == k,
    decreases k - p,
{
    if p < k {
        lemma_find_at(s, p + 1, k, b);
    }
}

proof fn lemma_ascii_latin1(t: Seq<char>)
    requires
        is_ascii_chars(t),
    ensures
        encode_utf8(t).len() == t.len(),
        latin1(encode_utf8(t)) == t,
{
    is_ascii_chars_encode_utf8(t);
    let b = encode_utf8(t);
    assert forall|i: int| 0 <= i < t.len() implies #[trigger] latin1(b)[i] == t[i] by {
        assert(t[i] as u8 == b[i]);
        assert('\0' <= t[i] <= '\u{7f}');
    }
    assert(latin1(b) =~= t);
}

/// A string's bencode form read back at `|pre|` gives the string.
proof fn lemma_string_roundtrip(t: Seq<char>, pre: Seq<u8>, rest: Seq<u8>)
    requires
        is_ascii_chars(t),
        t.len() <= usize::MAX,
    ensures
        spec_parse_string(pre + encode_str(t) + rest, pre.len() as int) == (Ok::<
            Seq<char>,
            BencodeError,
        >(t), (pre.len() + encode_str(t).len()) as int),
        encode_str(t).len() >= 2,
        is_digit(encode_str(t)[0]),
{
    let s = pre + encode_str(t) + rest;
    let u = encode_utf8(t);
    lemma_ascii_latin1(t);
    let d = nat_digits(u.len());
    lemma_nat_digits(u.len());
    lemma_parse_usize_digits(u.len());
    let p = pre.len() as int;
    let k = p + d.len();
    assert(s[k] == 58u8);
    assert forall|j: int| p <= j < k implies s[j] != 58u8 by {
        assert(s[j] == d[j - p]);
        assert(is_digit(d[j - p]));
    }
    lemma_find_at(s, p, k, 58u8);
    assert(s.subrange(p, k) =~= d);
    assert(s.subrange(k + 1, k + 1 + u.len()) =~= u);
    assert(encode_str(t)[0] == d[0]);
}

/// Splitting a list of items splits its bencode form.
proof fn lemma_encode_items_concat(a: Seq<NodeModel>, b: Seq<NodeModel>)
    ensures
        encode_items(a + b) == encode_items(a) + encode_items(b),
    decreases b.len(),
{
    if b.len() == 0 {
        assert(a + b =~= a);
        assert(encode_items(a) + encode_items(b) =~= encode_items(a));
    } else {
        assert((a + b).drop_last() =~= a + b.drop_last());
        lemma_encode_items_concat(a, b.drop_last());
        assert(encode_items(a + b) =~= encode_items(a) + encode_items(b));
    }
}

proof fn lemma_encode_entries_concat(a: Seq<(Seq<char>, NodeModel)>, b: Seq<(Seq<char>, NodeModel)>)
    ensures
        encode_entries(a + b) == encode_entries(a) + encode_entries(b),
    decreases b.len(),
{
    if b.len() == 0 {
        assert(a + b =~= a);
        assert(encode_entries(a) + encode_entries(b) =~= encode_entries(a));
    } else {
        assert((a + b).drop_last() =~= a + b.drop_last());
        lemma_encode_entries_concat(a, b.drop_last());
        assert(encode_entries(a + b) =~= encode_entries(a) + encode_entries(b));
    }
}

/// What an encodable value's bencode form starts with: `i`, `l`, `d` or a digit.
proof fn lemma_encode_start(m: NodeModel)
    requires
        encodable(m),
    ensures
        encode(m).len() >= 1,
        encode(m)[0] == 105u8 || encode(m)[0] == 108u8 || encode(m)[0] == 100u8 || is_digit(
            encode(m)[0],
        ),
{
    match m {
        NodeModel::Str(t) => {
            lemma_string_roundtrip(t, Seq::empty(), Seq::empty());
        },
        _ => {},
    }
}

/// Reading back the bencode form of an encodable value, wherever it stands in the input,
/// gives the value and stops right after its form.
proof fn lemma_roundtrip(m: NodeModel, pre: Seq<u8>, rest: Seq<u8>)
    requires
        encodable(m),
    ensures
        spec_parse(pre + encode(m) + rest, pre.len() as int) == (Ok::<NodeModel, BencodeError>(m), (pre.len() + encode(m).len()) as int),
    decreases m, 0int,
{
    let s = pre + encode(m) + rest;
    let p = pre.len() as int;
    match m {
        NodeModel::Integer(i) => {
            let d = int_digits(i as int);
            lemma_parse_i64_digits(i);
            let k = p + 1 + d.len();
            assert(s[p] == 105u8);
            assert(s[k] == 101u8);
            assert forall|j: int| p + 1 <= j < k implies s[j] != 101u8 by {
                assert(s[j] == d[j - p - 1]);
                if all_digits(d) {
                    assert(is_digit(d[j - p - 1]));
                } else if j > p + 1 {
                    assert(d[j - p - 1] == d.drop_first()[j - p - 2]);
                    assert(is_digit(d.drop_first()[j - p - 2]));
                }
            }
            lemma_find_at(s, p + 1, k, 101u8);
            assert(s.subrange(p + 1, k) =~= d);
        },
        NodeModel::Str(t) => {
            lemma_string_roundtrip(t, pre, rest);
        },
        NodeModel::List(items) => {
            assert(s[p] == 108u8);
            lemma_list_roundtrip(items, 0, pre, rest);
            assert(items.subrange(0, 0) =~= Seq::<NodeModel>::empty());
            assert(encode_items(Seq::<NodeModel>::empty()).len() == 0);
        },
        NodeModel::Dictionary(es) => {
            assert(s[p] == 100u8);
            lemma_dict_roundtrip(es, 0, pre, rest);
            assert(es.subrange(0, 0) =~= Seq::<(Seq<char>, NodeModel)>::empty());
            assert(encode_entries(Seq::<(Seq<char>, NodeModel)>::empty()).len() == 0);
        },
        NodeModel::Null => {},
    }
}

proof fn lemma_list_roundtrip(items: Seq<NodeModel>, j: int, pre: Seq<u8>, rest: Seq<u8>)
    requires
        0 <= j <= items.len(),
        encodable(NodeModel::List(items)),
    ensures
        ({
            let s = pre + encode(NodeModel::List(items)) + rest;
            let q = (pre.len() + 1 + encode_items(items.subrange(0, j)).len()) as int;
            spec_parse_list(s, q, items.subrange(0, j)) == (Ok::<NodeModel, BencodeError>(
                NodeModel::List(items),
            ), (pre.len() + encode(NodeModel::List(items)).len()) as int)
        }),
    decreases items, items.len() - j,
{
    let s = pre + encode(NodeModel::List(items)) + rest;
    let a = items.subrange(0, j);
    let b = items.subrange(j, items.len() as int);
    assert(a + b =~= items);
    lemma_encode_items_concat(a, b);
    let q = (pre.len() + 1 + encode_items(a).len()) as int;
    if j == items.len() {
        assert(b =~= Seq::<NodeModel>::empty());
        assert(s[q] == 101u8);
        assert(a =~= items);
    } else {
        let x = items[j];
        let c = b.drop_first();
        assert(b =~= seq![x] + c);
        lemma_encode_items_concat(seq![x], c);
        assert(seq![x].drop_last() =~= Seq::<NodeModel>::empty());
        assert(seq![x].last() == x);
        assert(encode_items(Seq::<NodeModel>::empty()) =~= Seq::<u8>::empty());
        assert(encode_items(seq![x]) =~= encode(x));
        assert(encodable(x));
        let pre2 = pre + seq![108u8] + encode_items(a);
        let rest2 = encode_items(c) + seq![101u8] + rest;
        assert(s =~= pre2 + encode(x) + rest2);
        assert(pre2.len() == q);
        lemma_encode_start(x);
        assert(s[q] == encode(x)[0]);
        lemma_roundtrip(x, pre2, rest2);
        let q2 = q + encode(x).len();
        let a2 = items.subrange(0, j + 1);
        assert(a2 =~= a.push(x));
        assert(a2.drop_last() =~= a);
        assert(encode_items(a2) == encode_items(a) + encode(x));
        lemma_list_roundtrip(items, j + 1, pre, rest);
    }
}

#[verifier::rlimit(50)]
proof fn lemma_dict_roundtrip(es: Seq<(Seq<char>, NodeModel)>, j: int, pre: Seq<u8>, rest: Seq<u8>)
    requires
        0 <= j <= es.len(),
        encodable(NodeModel::Dictionary(es)),
    ensures
        ({
            let s = pre + encode(NodeModel::Dictionary(es)) + rest;
            let q = (pre.len() + 1 + encode_entries(es.subrange(0, j)).len()) as int;
            let last = if j == 0 {
                Seq::<char>::empty()
            } else {
                es[j - 1].0
            };
            spec_parse_dict(s, q, es.subrange(0, j), last) == (Ok::<NodeModel, BencodeError>(
                NodeModel::Dictionary(es),
            ), (pre.len() + encode(NodeModel::Dictionary(es)).len()) as int)
        }),
    decreases es, es.len() - j,
{
    let s = pre + encode(NodeModel::Dictionary(es)) + rest;
    let a = es.subrange(0, j);
    let b = es.subrange(j, es.len() as int);
    assert(a + b =~= es);
    lemma_encode_entries_concat(a, b);
    let q = (pre.len() + 1 + encode_entries(a).len()) as int;
    if j == es.len() {
        assert(b =~= Seq::<(Seq<char>, NodeModel)>::empty());
        assert(s[q] == 101u8);
        assert(a =~= es);
    } else {
        let e = es[j];
        let c = b.drop_first();
        assert(b =~= seq![e] + c);
        lemma_encode_entries_concat(seq![e], c);
        assert(seq![e].drop_last() =~= Seq::<(Seq<char>, NodeModel)>::empty());
        assert(seq![e].last() == e);
        assert(encode_entries(Seq::<(Seq<char>, NodeModel)>::empty()) =~= Seq::<u8>::empty());
        assert(encode_entries(seq![e]) =~= encode_str(e.0) + encode(e.1));
        assert(e.0.len() > 0 && is_ascii_chars(e.0) && e.0.len() <= usize::MAX && encodable(e.1));
        let pre_k = pre + seq![100u8] + encode_entries(a);
        let rest_k = encode(e.1) + encode_entries(c) + seq![101u8] + rest;
        assert(s =~= pre_k + encode_str(e.0) + rest_k);
        assert(pre_k.len() == q);
        lemma_string_roundtrip(e.0, pre_k, rest_k);
        assert(s[q] == encode_str(e.0)[0]);
        let q2 = q + encode_str(e.0).len();
        let last = if j == 0 {
            Seq::<char>::empty()
        } else {
            es[j - 1].0
        };
        if j == 0 {
            assert(chars_lt(last, e.0));
        } else {
            assert(chars_lt(es[j - 1].0, es[j].0));
        }
        let pre_v = pre_k + encode_str(e.0);
        let rest_v = encode_entries(c) + seq![101u8] + rest;
        assert(s =~= pre_v + encode(e.1) + rest_v);
        assert(decreases_to!(es => es[j]));
        assert(decreases_to!(es[j] => es[j].1));
        lemma_roundtrip(e.1, pre_v, rest_v);
        lemma_encode_start(e.1);
        let a2 = es.subrange(0, j + 1);
        assert(a2 =~= a.push(e));
        assert(a2.drop_last() =~= a);
        assert(encode_entries(a2) == encode_entries(a) + encode_str(e.0) + encode(e.1));
        lemma_dict_roundtrip(es, j + 1, pre, rest);
    }
}

/// Reading what was written: parsing the bencode form of any encodable value gives that
/// value back and consumes exactly the form.
pub proof fn law_parse_inverts_stringify(m: NodeModel)
    requires
        encodable(m),
    ensures
        spec_parse(encode(m), 0) == (Ok::<NodeModel, BencodeError>(m), encode(m).len() as int),
{
    lemma_roundtrip(m, Seq::empty(), Seq::empty());
    assert(Seq::<u8>::empty() + encode(m) + Seq::<u8>::empty() =~= encode(m));
}

/// Reading what was written as text: `stringify_to_string` gives the text whose UTF-8 form
/// is the bencode of the value, and `parse_str` reads that UTF-8 form; for an encodable
/// value this gives the value back.
pub proof fn law_parse_str_inverts_stringify_to_string(m: NodeModel)
    requires
        encodable(m),
    ensures
        spec_parse(encode_utf8(decode_utf8(encode(m))), 0) == (Ok::<NodeModel, BencodeError>(m), encode(m).len() as int),
{
    lemma_encode_valid_utf8(m);
    decode_utf8_encode_utf8(encode(m));
    law_parse_inverts_stringify(m);
}

proof fn lemma_wf_value(s: Seq<u8>, p: int)
    ensures
        spec_parse(s, p).0 matches Ok(m) ==> m.wf(),
    decreases s.len() - p, 0int,
{
    if 0 <= p < s.len() {
        let c = s[p];
        if c == 108u8 {
            lemma_wf_list(s, p + 1, Seq::empty());
        } else if c == 100u8 {
            lemma_wf_dict(s, p + 1, Seq::empty(), Seq::empty());
        }
    }
}

proof fn lemma_wf_list(s: Seq<u8>, q: int, acc: Seq<NodeModel>)
    requires
        forall|i: int| 0 <= i < acc.len() ==> (#[trigger] acc[i]).wf(),
    ensures
        spec_parse_list(s, q, acc).0 matches Ok(m) ==> m.wf(),
    decreases s.len() - q, 1int,
{
    if 0 <= q < s.len() {
        if s[q] == 101u8 {
            assert(NodeModel::List(acc)->List_0 == acc);
        } else {
            lemma_wf_value(s, q);
            let (r, q2) = spec_parse(s, q);
            if r is Ok && q < q2 <= s.len() {
                let acc2 = acc.push(r->Ok_0);
                assert forall|i: int| 0 <= i < acc2.len() implies (#[trigger] acc2[i]).wf() by {
                    if i < acc.len() {
                        assert(acc2[i] == acc[i]);
                    }
                }
                lemma_wf_list(s, q2, acc2);
            }
        }
    }
}

proof fn lemma_wf_dict(s: Seq<u8>, q: int, acc: Seq<(Seq<char>, NodeModel)>, last: Seq<char>)
    requires
        keys_sorted(acc),
        acc.len() > 0 ==> acc.last().0 == last,
        forall|i: int| 0 <= i < acc.len() ==> (#[trigger] acc[i]).1.wf(),
    ensures
        spec_parse_dict(s, q, acc, last).0 matches Ok(m) ==> m.wf(),
    decreases s.len() - q, 1int,
{
    if 0 <= q < s.len() {
        if s[q] == 101u8 {
            assert(NodeModel::Dictionary(acc)->Dictionary_0 == acc);
        } else {
            let (kr, q2) = spec_parse_string(s, q);
            if kr is Ok && chars_lt(last, kr->Ok_0) && q < q2 <= s.len() {
                let key = kr->Ok_0;
                lemma_wf_value(s, q2);
                let (vr, q3) = spec_parse(s, q2);
                if vr is Ok && q2 < q3 <= s.len() {
                    let acc2 = acc.push((key, vr->Ok_0));
                    assert forall|i: int, j: int| 0 <= i < j < acc2.len() implies chars_lt(
                        #[trigger] acc2[i].0,
                        #[trigger] acc2[j].0,
                    ) by {
                        if j < acc.len() {
                            assert(chars_lt(acc[i].0, acc[j].0));
                        } else if i < acc.len() - 1 {
                            assert(chars_lt(acc[i].0, acc[acc.len() - 1].0));
                            lemma_chars_lt_transitive(acc[i].0, last, key);
                        }
                    }
                    assert forall|i: int| 0 <= i < acc2.len() implies (#[trigger] acc2[i]).1.wf() by {
                        if i < acc.len() {
                            assert(acc2[i] == acc[i]);
                        }
                    }
                    lemma_wf_dict(s, q3, acc2, key);
                }
            }
        }
    }
}

/// What the default parser gives is well formed: the keys of every dictionary in a value it
/// reads are strictly increasing.
pub proof fn law_parsed_values_are_well_formed(s: Seq<u8>, p: int)
    ensures
        spec_parse(s, p).0 matches Ok(m) ==> m.wf(),
{
    lemma_wf_value(s, p);
}

/// Storing again under the key of the last entry, greater than every other key, replaces
/// that entry's value.
proof fn lemma_dict_insert_last_again(
    es: Seq<(Seq<char>, NodeModel)>,
    k: Seq<char>,
    x: NodeModel,
    v: NodeModel,
)
    requires
        forall|i: int| 0 <= i < es.len() ==> chars_lt(#[trigger] es[i].0, k),
    ensures
        dict_insert(es.push((k, x)), k, v) == es.push((k, v)),
    decreases es.len(),
{
    let e = es.push((k, x));
    if es.len() == 0 {
        assert(e.drop_first() =~= Seq::<(Seq<char>, NodeModel)>::empty());
        assert(seq![(k, v)] + e.drop_first() =~= es.push((k, v)));
    } else {
        assert(chars_lt(es[0].0, k));
        lemma_chars_lt_irreflexive(k);
        lemma_chars_lt_asymmetric(es[0].0, k);
        let t = es.drop_first();
        assert forall|i: int| 0 <= i < t.len() implies chars_lt(#[trigger] t[i].0, k) by {
            assert(t[i] == es[i + 1]);
        }
        lemma_dict_insert_last_again(t, k, x, v);
        assert(e.drop_first() =~= t.push((k, x)));
        assert(e[0] == es[0]);
        assert(seq![es[0]] + t.push((k, v)) =~= es.push((k, v)));
    }
}

/// A string value with no `:` after its length reaches the end of the input.
proof fn lemma_colonless_string_ends_input(s: Seq<u8>, p: int)
    requires
        0 <= p < s.len(),
        48 <= s[p] <= 57,
        find_byte(s, p, 58u8) >= s.len(),
        spec_parse(s, p).0 is Ok,
    ensures
        spec_parse(s, p).1 == s.len(),
{
    lemma_find_byte(s, p, 58u8);
}

proof fn lemma_nr_value(s: Seq<u8>, p: int, st: Seq<FrameModel>)
    requires
        spec_parse(s, p).0 is Ok,
        0 <= p < s.len() && 48 <= s[p] <= 57 ==> find_byte(s, p, 58u8) < s.len(),
    ensures
        spec_run(s, p, st) == spec_finish(s, spec_parse(s, p).1, st, spec_parse(s, p).0->Ok_0),
    decreases s.len() - p, 0int,
{
    let c = s[p];
    if c == 105u8 {
        lemma_find_byte(s, p + 1, 101u8);
    } else if c == 108u8 {
        lemma_nr_list(s, p + 1, Seq::empty(), st);
    } else if c == 100u8 {
        lemma_nr_dict(s, p + 1, Seq::empty(), Seq::empty(), st);
    } else {
        lemma_find_byte(s, p, 58u8);
    }
}

proof fn lemma_nr_list(s: Seq<u8>, q: int, acc: Seq<NodeModel>, st: Seq<FrameModel>)
    requires
        spec_parse_list(s, q, acc).0 is Ok,
    ensures
        spec_run(s, q, st.push(FrameModel::List(acc))) == spec_finish(
            s,
            spec_parse_list(s, q, acc).1,
            st,
            spec_parse_list(s, q, acc).0->Ok_0,
        ),
    decreases s.len() - q, 1int,
{
    let top = FrameModel::List(acc);
    assert(st.push(top).drop_last() =~= st);
    if s[q] != 101u8 {
        let (r, q2) = spec_parse(s, q);
        if 48 <= s[q] <= 57 && find_byte(s, q, 58u8) >= s.len() {
            lemma_colonless_string_ends_input(s, q);
            assert(spec_parse_list(s, q2, acc.push(r->Ok_0)).0 is Err);
        }
        lemma_nr_value(s, q, st.push(top));
        let n = r->Ok_0;
        assert(spec_handle_value(st.push(top), n) == Ok::<Seq<FrameModel>, StackParseError>(
            st.push(FrameModel::List(acc.push(n))),
        ));
        lemma_nr_list(s, q2, acc.push(n), st);
    }
}

proof fn lemma_nr_dict(
    s: Seq<u8>,
    q: int,
    acc: Seq<(Seq<char>, NodeModel)>,
    last: Seq<char>,
    st: Seq<FrameModel>,
)
    requires
        spec_parse_dict(s, q, acc, last).0 is Ok,
        keys_sorted(acc),
        acc.len() > 0 ==> acc.last().0 == last,
    ensures
        spec_run(s, q, st.push(FrameModel::Dict(acc, false, last))) == spec_finish(
            s,
            spec_parse_dict(s, q, acc, last).1,
            st,
            spec_parse_dict(s, q, acc, last).0->Ok_0,
        ),
    decreases s.len() - q, 1int,
{
    let top = FrameModel::Dict(acc, false, last);
    assert(st.push(top).drop_last() =~= st);
    if s[q] != 101u8 {
        let (kr, q2) = spec_parse_string(s, q);
        let key = kr->Ok_0;
        lemma_find_byte(s, q, 58u8);
        let k = find_byte(s, q, 58u8);
        // The key's length text is digits, perhaps after one `+`; a key with no `:` after
        // it would be empty, which is below no key.
        assert(k < s.len()) by {
            if k >= s.len() {
                assert(key.len() == 0);
            }
        }
        let ins = dict_insert(acc, key, NodeModel::List(Seq::empty()));
        let mid = st.push(FrameModel::Dict(ins, true, key));
        assert(spec_handle_value(st.push(top), NodeModel::Str(key)) == Ok::<
            Seq<FrameModel>,
            StackParseError,
        >(mid));
        let n = parse_usize_spec(s.subrange(q, k))->0;
        assert(q2 == k + 1 + n);
        assert(key == latin1(s.subrange(k + 1, k + 1 + n)));
        assert(spec_finish(s, q2, st.push(top), NodeModel::Str(key)) == spec_run(s, q2, mid));
        if s[q] == 43u8 {
            let b = s.subrange(q, k);
            assert(b.drop_first() =~= s.subrange(q + 1, k));
            assert(48 <= s[q + 1] <= 57) by {
                assert(is_digit(b.drop_first()[0]));
            }
            assert(find_byte(s, q + 1, 58u8) == k);
            assert(parse_usize_spec(s.subrange(q + 1, k)) == parse_usize_spec(b));
            assert(spec_run(s, q, st.push(top)) == spec_run(s, q + 1, st.push(top)));
            assert(spec_run(s, q + 1, st.push(top)) == spec_finish(
                s,
                q2,
                st.push(top),
                NodeModel::Str(key),
            ));
        } else {
            assert(48 <= s[q] <= 57) by {
                assert(is_digit(s.subrange(q, k)[0]));
            }
            assert(spec_run(s, q, st.push(top)) == spec_finish(
                s,
                q2,
                st.push(top),
                NodeModel::Str(key),
            ));
        }
        assert(spec_run(s, q, st.push(top)) == spec_run(s, q2, mid));
        let (vr, q3) = spec_parse(s, q2);
        if 48 <= s[q2] <= 57 && find_byte(s, q2, 58u8) >= s.len() {
            lemma_colonless_string_ends_input(s, q2);
            assert(spec_parse_dict(s, q3, acc.push((key, vr->Ok_0)), key).0 is Err);
        }
        lemma_nr_value(s, q2, mid);
        let v = vr->Ok_0;
        assert forall|i: int| 0 <= i < acc.len() implies chars_lt(#[trigger] acc[i].0, key) by {
            if i < acc.len() - 1 {
                assert(chars_lt(acc[i].0, acc[acc.len() - 1].0));
                lemma_chars_lt_transitive(acc[i].0, last, key);
            }
        }
        lemma_dict_insert_greatest(acc, key, NodeModel::List(Seq::empty()));
        lemma_dict_insert_last_again(acc, key, NodeModel::List(Seq::empty()), v);
        let acc2 = acc.push((key, v));
        assert(mid.drop_last() =~= st);
        assert(spec_handle_value(mid, v) == Ok::<Seq<FrameModel>, StackParseError>(
            st.push(FrameModel::Dict(acc2, false, key)),
        ));
        assert forall|i: int, j: int| 0 <= i < j < acc2.len() implies chars_lt(
            #[trigger] acc2[i].0,
            #[trigger] acc2[j].0,
        ) by {
            if j < acc.len() {
                assert(chars_lt(acc[i].0, acc[j].0));
            }
        }
        lemma_nr_dict(s, q3, acc2, key, st);
    }
}

/// The stack-based parser gives the value that the recursive parser gives, and stops at the
/// same place, on every input the recursive parser accepts, except a top-level string whose
/// length has no `:` after it (which the recursive parser reads as a string of that length,
/// possible only for length 0, and the stack-based parser refuses).
pub proof fn law_non_recursive_agrees_with_default(s: Seq<u8>, p: int)
    requires
        spec_parse(s, p).0 is Ok,
        0 <= p < s.len() && 48 <= s[p] <= 57 ==> find_byte(s, p, 58u8) < s.len(),
    ensures
        spec_run(s, p, Seq::empty()) == (
            Ok::<NodeModel, StackParseError>(spec_parse(s, p).0->Ok_0),
            spec_parse(s, p).1,
        ),
{
    lemma_nr_value(s, p, Seq::empty());
}

/// Storing a key greater than every key of `es` appends the entry.
proof fn lemma_dict_insert_greatest(es: Seq<(Seq<char>, NodeModel)>, k: Seq<char>, v: NodeModel)
    requires
        forall|i: int| 0 <= i < es.len() ==> chars_lt(#[trigger] es[i].0, k),
    ensures
        dict_insert(es, k, v) == es.push((k, v)),
    decreases es.len(),
{
    if es.len() > 0 {
        assert(chars_lt(es[0].0, k));
        lemma_chars_lt_irreflexive(k);
        lemma_chars_lt_asymmetric(es[0].0, k);
        let t = es.drop_first();
        assert forall|i: int| 0 <= i < t.len() implies chars_lt(#[trigger] t[i].0, k) by {
            assert(t[i] == es[i + 1]);
        }
        lemma_dict_insert_greatest(t, k, v);
        assert(seq![es[0]] + t.push((k, v)) =~= es.push((k, v)));
    }
}

/// Storing entries whose keys are strictly increasing, in turn, gives those entries.
proof fn lemma_dict_from_sorted(es: Seq<(Seq<char>, NodeModel)>)
    requires
        keys_sorted(es),
    ensures
        dict_from_pairs(es) == es,
    decreases es.len(),
{
    if es.len() > 0 {
        let init = es.drop_last();
        assert forall|i: int, j: int| 0 <= i < j < init.len() implies chars_lt(
            #[trigger] init[i].0,
            #[trigger] init[j].0,
        ) by {
            assert(chars_lt(es[i].0, es[j].0));
        }
        lemma_dict_from_sorted(init);
        assert forall|i: int| 0 <= i < init.len() implies chars_lt(#[trigger] init[i].0, es.last().0) by {
            assert(chars_lt(es[i].0, es[es.len() - 1].0));
        }
        lemma_dict_insert_greatest(init, es.last().0, es.last().1);
        assert(init.push(es.last()) =~= es);
    }
}

proof fn lemma_borrowed_value(s: Seq<u8>, p: int)
    ensures
        spec_parse(s, p).0 is Ok ==> {
            &&& spec_borrowed(s, p).0 is Ok
            &&& owned(spec_borrowed(s, p).0->Ok_0) == spec_parse(s, p).0->Ok_0
            &&& spec_borrowed(s, p).1 == spec_parse(s, p).1
        },
    decreases s.len() - p, 0int,
{
    if 0 <= p < s.len() {
        let c = s[p];
        if c == 108u8 {
            lemma_borrowed_list(s, p + 1, Seq::empty(), Seq::empty());
        } else if c == 100u8 {
            lemma_borrowed_dict(s, p + 1, Seq::empty(), Seq::empty(), Seq::empty());
        }
    }
}

proof fn lemma_borrowed_list(s: Seq<u8>, q: int, acc: Seq<NodeModel>, bacc: Seq<BorrowedModel>)
    requires
        owned_items(bacc) == acc,
    ensures
        spec_parse_list(s, q, acc).0 is Ok ==> {
            &&& spec_borrowed_list(s, q, bacc).0 is Ok
            &&& owned(spec_borrowed_list(s, q, bacc).0->Ok_0) == spec_parse_list(s, q, acc).0->Ok_0
            &&& spec_borrowed_list(s, q, bacc).1 == spec_parse_list(s, q, acc).1
        },
    decreases s.len() - q, 1int,
{
    if 0 <= q < s.len() && s[q] != 101u8 {
        lemma_borrowed_value(s, q);
        let (r, q2) = spec_parse(s, q);
        if r is Ok && q < q2 <= s.len() {
            let b = spec_borrowed(s, q).0->Ok_0;
            assert(bacc.push(b).drop_last() =~= bacc);
            lemma_borrowed_list(s, q2, acc.push(r->Ok_0), bacc.push(b));
        }
    }
}

proof fn lemma_borrowed_dict(
    s: Seq<u8>,
    q: int,
    acc: Seq<(Seq<char>, NodeModel)>,
    last: Seq<char>,
    bacc: Seq<(Seq<u8>, BorrowedModel)>,
)
    requires
        owned_entries(bacc) == acc,
        keys_sorted(acc),
        acc.len() > 0 ==> acc.last().0 == last,
    ensures
        spec_parse_dict(s, q, acc, last).0 is Ok ==> {
            &&& spec_borrowed_dict(s, q, bacc).0 is Ok
            &&& owned(spec_borrowed_dict(s, q, bacc).0->Ok_0) == spec_parse_dict(s, q, acc, last).0->Ok_0
            &&& spec_borrowed_dict(s, q, bacc).1 == spec_parse_dict(s, q, acc, last).1
        },
    decreases s.len() - q, 1int,
{
    if 0 <= q < s.len() {
        if s[q] == 101u8 {
            lemma_dict_from_sorted(acc);
        } else {
            let (kr, q2) = spec_parse_string(s, q);
            if kr is Ok && chars_lt(last, kr->Ok_0) && q < q2 <= s.len() {
                let key = kr->Ok_0;
                let kb = spec_borrowed_bytes(s, q).0->Ok_0;
                lemma_borrowed_value(s, q2);
                let (vr, q3) = spec_parse(s, q2);
                if vr is Ok && q2 < q3 <= s.len() {
                    let v = vr->Ok_0;
                    let bv = spec_borrowed(s, q2).0->Ok_0;
                    let acc2 = acc.push((key, v));
                    assert(bacc.push((kb, bv)).drop_last() =~= bacc);
                    assert forall|i: int, j: int| 0 <= i < j < acc2.len() implies chars_lt(
                        #[trigger] acc2[i].0,
                        #[trigger] acc2[j].0,
                    ) by {
                        if j < acc.len() {
                            assert(chars_lt(acc[i].0, acc[j].0));
                        } else if i < acc.len() - 1 {
                            assert(chars_lt(acc[i].0, acc[acc.len() - 1].0));
                            lemma_chars_lt_transitive(acc[i].0, last, key);
                        }
                    }
                    lemma_borrowed_dict(s, q3, acc2, key, bacc.push((kb, bv)));
                }
            }
        }
    }
}

/// The borrowed parser accepts every input that the default parser accepts and stops at
/// the same place, and the owned copy of its value is the default parser's value.
pub proof fn law_borrowed_agrees_with_default(s: Seq<u8>, p: int)
    requires
        spec_parse(s, p).0 is Ok,
    ensures
        spec_borrowed(s, p).0 matches Ok(b) && owned(b) == spec_parse(s, p).0->Ok_0,
        spec_borrowed(s, p).1 == spec_parse(s, p).1,
{
    lemma_borrowed_value(s, p);
}

/// Reading back what was written: after `dict_insert`, the key holds the new value,
/// every other key holds what it held, and the keys stay strictly increasing.
pub proof fn law_dict_read_after_write(es: Seq<(Seq<char>, NodeModel)>, k: Seq<char>, v: NodeModel)
    requires
        keys_sorted(es),
    ensures
        keys_sorted(dict_insert(es, k, v)),
        dict_get(dict_insert(es, k, v), k) == Some(v),
        forall|k2: Seq<char>| k2 != k ==> dict_get(dict_insert(es, k, v), k2) == dict_get(es, k2),
        forall|e| #[trigger] dict_insert(es, k, v).contains(e) ==> e == (k, v) || es.contains(e),
    decreases es.len(),
{
    let r = dict_insert(es, k, v);
    if es.len() == 0 {
        assert(r.drop_first().len() == 0);
        assert forall|k2: Seq<char>| k2 != k implies dict_get(r, k2) == dict_get(es, k2) by {
            assert(dict_get(r, k2) == dict_get(r.drop_first(), k2));
        }
    } else if es[0].0 == k {
        let t = es.drop_first();
        assert(r.drop_first() =~= t);
        assert forall|i: int, j: int| 0 <= i < j < r.len() implies chars_lt(#[trigger] r[i].0, #[trigger] r[j].0) by {
            assert(chars_lt(es[i].0, es[j].0));
        }
        assert forall|e| #[trigger] r.contains(e) implies e == (k, v) || es.contains(e) by {
            let i = choose|i: int| 0 <= i < r.len() && r[i] == e;
            if i > 0 {
                assert(es[i] == e);
            }
        }
        assert forall|k2: Seq<char>| k2 != k implies dict_get(r, k2) == dict_get(es, k2) by {
            assert(r[0].0 == k);
        }
    } else if chars_lt(k, es[0].0) {
        assert(r.drop_first() =~= es);
        assert forall|i: int, j: int| 0 <= i < j < r.len() implies chars_lt(#[trigger] r[i].0, #[trigger] r[j].0) by {
            if i == 0 {
                if j > 1 {
                    lemma_chars_lt_transitive(k, es[0].0, es[j - 1].0);
                }
            } else {
                assert(chars_lt(es[i - 1].0, es[j - 1].0));
            }
        }
        assert forall|k2: Seq<char>| k2 != k implies dict_get(r, k2) == dict_get(es, k2) by {
            assert(r.drop_first() =~= es);
        }
        assert forall|e| #[trigger] r.contains(e) implies e == (k, v) || es.contains(e) by {
            let i = choose|i: int| 0 <= i < r.len() && r[i] == e;
            if i > 0 {
                assert(es[i - 1] == e);
            }
        }
    } else {
        let t = es.drop_first();
        assert(keys_sorted(t)) by {
            assert forall|i: int, j: int| 0 <= i < j < t.len() implies chars_lt(#[trigger] t[i].0, #[trigger] t[j].0) by {
                assert(chars_lt(es[i + 1].0, es[j + 1].0));
            }
        }
        law_dict_read_after_write(t, k, v);
        let rt = dict_insert(t, k, v);
        assert(r.drop_first() =~= rt);
        lemma_chars_lt_total(k, es[0].0);
        assert forall|i: int, j: int| 0 <= i < j < r.len() implies chars_lt(#[trigger] r[i].0, #[trigger] r[j].0) by {
            if i == 0 {
                assert(r[j] == rt[j - 1]);
                assert(rt.contains(rt[j - 1]));
                if rt[j - 1] == (k, v) {
                } else {
                    let m = choose|m: int| 0 <= m < t.len() && t[m] == rt[j - 1];
                    assert(chars_lt(es[0].0, es[m + 1].0));
                }
            } else {
                assert(r[i] == rt[i - 1]);
                assert(r[j] == rt[j - 1]);
            }
        }
        assert forall|k2: Seq<char>| k2 != k implies dict_get(r, k2) == dict_get(es, k2) by {
            assert(r[0] == es[0]);
            if es[0].0 != k2 {
                assert(dict_get(r, k2) == dict_get(rt, k2));
                assert(dict_get(es, k2) == dict_get(t, k2));
            }
        }
        assert forall|e| #[trigger] r.contains(e) implies e == (k, v) || es.contains(e) by {
            let i = choose|i: int| 0 <= i < r.len() && r[i] == e;
            if i > 0 {
                assert(rt.contains(rt[i - 1]));
                if rt[i - 1] != (k, v) {
                    let m = choose|m: int| 0 <= m < t.len() && t[m] == rt[i - 1];
                    assert(es[m + 1] == e);
                }
            }
        }
    }
}

/// Replacing the value of the entry at the first position of key `k` makes `k` read the new
/// value and leaves every other key reading what it read.
proof fn lemma_dict_get_update(ms: Seq<(Seq<char>, NodeModel)>, k: Seq<char>, v: NodeModel)
    requires
        dict_index(ms, k) is Some,
    ensures
        dict_get(ms.update(dict_index(ms, k)->0, (k, v)), k) == Some(v),
        forall|k2: Seq<char>|
            k2 != k ==> dict_get(ms.update(dict_index(ms, k)->0, (k, v)), k2) == dict_get(ms, k2),
    decreases ms.len(),
{
    lemma_dict_index(ms, k);
    let i = dict_index(ms, k)->0;
    let u = ms.update(i, (k, v));
    if i > 0 {
        let t = ms.drop_first();
        lemma_dict_index(t, k);
        assert(dict_index(t, k) == Some(i - 1));
        lemma_dict_get_update(t, k, v);
        assert(u.drop_first() =~= t.update(i - 1, (k, v)));
        assert(u[0] == ms[0]);
        assert forall|k2: Seq<char>| k2 != k implies dict_get(u, k2) == dict_get(ms, k2) by {
            if ms[0].0 != k2 {
                assert(dict_get(u, k2) == dict_get(u.drop_first(), k2));
                assert(dict_get(ms, k2) == dict_get(t, k2));
                assert(dict_get(t.update(i - 1, (k, v)), k2) == dict_get(t, k2));
            }
        }
    } else {
        assert(u.drop_first() =~= ms.drop_first());
        assert forall|k2: Seq<char>| k2 != k implies dict_get(u, k2) == dict_get(ms, k2) by {
            assert(dict_get(u, k2) == dict_get(u.drop_first(), k2));
        }
    }
}

/// Writing in place: when the value of the first entry with key `k` is replaced (as
/// `Dict::get_mut` and `Node::get_mut` allow), `k` reads the new value and every other key
/// reads what it read.
pub proof fn law_get_after_write_in_place(es: Seq<(String, Node)>, k: Seq<char>, n: Node)
    requires
        dict_index(model_entries(es), k) is Some,
    ensures
        ({
            let i = dict_index(model_entries(es), k)->0;
            let es2 = es.update(i, (es[i].0, n));
            &&& dict_get(model_entries(es2), k) == Some(n@)
            &&& forall|k2: Seq<char>|
                k2 != k ==> dict_get(model_entries(es2), k2) == dict_get(model_entries(es), k2)
        }),
{
    let ms = model_entries(es);
    lemma_model_entries(es);
    lemma_dict_index(ms, k);
    let i = dict_index(ms, k)->0;
    let es2 = es.update(i, (es[i].0, n));
    lemma_model_entries(es2);
    assert(model_entries(es2) =~= ms.update(i, (k, n@)));
    lemma_dict_get_update(ms, k, n@);
}

/// An error's numeric code tells its kind: two errors with the same code are equal, or both
/// are unexpected characters (which may differ in the character).
pub proof fn law_error_code_identifies_kind(a: BencodeError, b: BencodeError)
    ensures
        a.spec_code() == b.spec_code() ==> a == b || (a is UnexpectedCharacter
            && b is UnexpectedCharacter),
{
}

/// Reading an error back from its message gives the error, for every error but an
/// unexpected character (whose message also names the character).
pub proof fn law_error_message_round_trip(e: BencodeError)
    requires
        !(e is UnexpectedCharacter),
    ensures
        BencodeError::spec_from_message(e.message()) == e,
{
    reveal_strlit("Empty input");
    reveal_strlit("Invalid integer");
    reveal_strlit("Unterminated integer");
    reveal_strlit("Invalid string length");
    reveal_strlit("String too short");
    reveal_strlit("Unterminated list");
    reveal_strlit("Unterminated dictionary");
    reveal_strlit("Dictionary keys must be in order");
    reveal_strlit("Dictionary key must be string");
    reveal_strlit("File not found");
    reveal_strlit("IO error");
    assert(ERR_EMPTY_INPUT@.len() == 11);
    assert(ERR_INVALID_INTEGER@.len() == 15);
    assert(ERR_UNTERMINATED_INTEGER@.len() == 20);
    assert(ERR_INVALID_STRING_LENGTH@.len() == 21);
    assert(ERR_STRING_TOO_SHORT@.len() == 16);
    assert(ERR_UNTERMINATED_LIST@.len() == 17);
    assert(ERR_UNTERMINATED_DICTIONARY@.len() == 23);
    assert(ERR_DICT_KEYS_ORDER@.len() == 32);
    assert(ERR_DICT_KEY_MUST_BE_STRING@.len() == 29);
    assert(FILE_NOT_FOUND@.len() == 14);
    assert("IO error"@.len() == 8);
}

/// Whether the value at `p` is a string whose length runs to the end of `s`, with no `:`
/// after it.
pub open spec fn bare_length(s: Seq<u8>, p: int) -> bool {
    &&& 0 <= p < s.len()
    &&& (48u8 <= s[p] <= 57u8) || s[p] == 58u8
    &&& find_byte(s, p, 58u8) >= s.len()
}

proof fn lemma_find_byte_ext(s: Seq<u8>, rest: Seq<u8>, p: int, b: u8)
    requires
        0 <= p,
        find_byte(s, p, b) < s.len(),
    ensures
        find_byte(s + rest, p, b) == find_byte(s, p, b),
    decreases s.len() - p,
{
    if p < s.len() && s[p] != b {
        lemma_find_byte_ext(s, rest, p + 1, b);
    }
}

proof fn lemma_integer_ext(s: Seq<u8>, rest: Seq<u8>, q: int)
    requires
        0 <= q,
        spec_parse_integer(s, q).0 is Ok,
    ensures
        spec_parse_integer(s + rest, q) == spec_parse_integer(s, q),
{
    let k = find_byte(s, q, 101u8);
    lemma_find_byte(s, q, 101u8);
    lemma_find_byte_ext(s, rest, q, 101u8);
    assert((s + rest).subrange(q, k) =~= s.subrange(q, k));
}

proof fn lemma_string_ext(s: Seq<u8>, rest: Seq<u8>, p: int)
    requires
        0 <= p,
        find_byte(s, p, 58u8) < s.len(),
        spec_parse_string(s, p).0 is Ok,
    ensures
        spec_parse_string(s + rest, p) == spec_parse_string(s, p),
{
    let k = find_byte(s, p, 58u8);
    lemma_find_byte(s, p, 58u8);
    lemma_find_byte_ext(s, rest, p, 58u8);
    assert((s + rest).subrange(p, k) =~= s.subrange(p, k));
    let n = parse_usize_spec(s.subrange(p, k))->0;
    assert((s + rest).subrange(k + 1, k + 1 + n) =~= s.subrange(k + 1, k + 1 + n));
}

proof fn lemma_parse_ext(s: Seq<u8>, rest: Seq<u8>, p: int)
    requires
        spec_parse(s, p).0 is Ok,
        !bare_length(s, p),
    ensures
        spec_parse(s + rest, p) == spec_parse(s, p),
    decreases s.len() - p, 0int,
{
    let t = s + rest;
    assert(t[p] == s[p]);
    let c = s[p];
    if c == 105u8 {
        lemma_integer_ext(s, rest, p + 1);
    } else if c == 108u8 {
        lemma_list_ext(s, rest, p + 1, Seq::empty());
    } else if c == 100u8 {
        lemma_dict_ext(s, rest, p + 1, Seq::empty(), Seq::empty());
    } else {
        lemma_string_ext(s, rest, p);
    }
}

/// A string that parses with its length running to the end of `s` ends at the end of `s`.
proof fn lemma_bare_length_ends(s: Seq<u8>, p: int)
    requires
        bare_length(s, p),
        spec_parse(s, p).0 is Ok,
    ensures
        spec_parse(s, p).1 == s.len(),
{
}

proof fn lemma_list_ext(s: Seq<u8>, rest: Seq<u8>, q: int, acc: Seq<NodeModel>)
    requires
        spec_parse_list(s, q, acc).0 is Ok,
    ensures
        spec_parse_list(s + rest, q, acc) == spec_parse_list(s, q, acc),
    decreases s.len() - q, 1int,
{
    let t = s + rest;
    assert(t[q] == s[q]);
    if s[q] != 101u8 {
        let (o, q2) = spec_parse(s, q);
        if bare_length(s, q) {
            lemma_bare_length_ends(s, q);
            assert(spec_parse_list(s, q2, acc.push(o->Ok_0)).0 is Err);
        }
        lemma_parse_ext(s, rest, q);
        lemma_list_ext(s, rest, q2, acc.push(o->Ok_0));
    }
}

proof fn lemma_dict_ext(
    s: Seq<u8>,
    rest: Seq<u8>,
    q: int,
    acc: Seq<(Seq<char>, NodeModel)>,
    last: Seq<char>,
)
    requires
        spec_parse_dict(s, q, acc, last).0 is Ok,
    ensures
        spec_parse_dict(s + rest, q, acc, last) == spec_parse_dict(s, q, acc, last),
    decreases s.len() - q, 1int,
{
    let t = s + rest;
    assert(t[q] == s[q]);
    if s[q] != 101u8 {
        let (kr, q2) = spec_parse_string(s, q);
        lemma_find_byte(s, q, 58u8);
        lemma_string_ext(s, rest, q);
        let (o, q3) = spec_parse(s, q2);
        if bare_length(s, q2) {
            lemma_bare_length_ends(s, q2);
            assert(spec_parse_dict(s, q3, acc.push((kr->Ok_0, o->Ok_0)), kr->Ok_0).0 is Err);
        }
        lemma_parse_ext(s, rest, q2);
        lemma_dict_ext(s, rest, q3, acc.push((kr->Ok_0, o->Ok_0)), kr->Ok_0);
    }
}

/// A value that parses is read the same, and ends at the same position, whatever bytes
/// follow it: trailing bytes are left unread, not refused. The one exception is a string
/// whose length has no `:` after it (such as `0`), which runs to the end of the input.
pub proof fn law_parse_ignores_what_follows(s: Seq<u8>, rest: Seq<u8>, p: int)
    requires
        spec_parse(s, p).0 is Ok,
        !bare_length(s, p),
    ensures
        spec_parse(s + rest, p) == spec_parse(s, p),
{
    lemma_parse_ext(s, rest, p);
}

/// Handing a finished value to the innermost open container changes that container alone:
/// a list gets the value appended; a dictionary waiting for a key takes a string as its key
/// and refuses anything else; a dictionary waiting for the value of its key read last then
/// reads the value under that key and every other key as before.
pub proof fn law_handle_value(stack: Seq<FrameModel>, v: NodeModel)
    requires
        stack.len() > 0,
    ensures
        match spec_handle_value(stack, v) {
            Ok(st) => st.len() == stack.len() && forall|i: int|
                0 <= i < stack.len() - 1 ==> #[trigger] st[i] == stack[i],
            Err(e) => e == StackParseError::KeyNotString && (stack.last() matches FrameModel::Dict(
                _,
                awaiting,
                _,
            ) && !awaiting) && !(v is Str),
        },
        stack.last() matches FrameModel::List(items) ==> (spec_handle_value(stack, v) matches Ok(st)
            && st.last() == FrameModel::List(items.push(v))),
        stack.last() matches FrameModel::Dict(es, awaiting, k) ==> (awaiting && keys_sorted(es) ==> (
        spec_handle_value(stack, v) matches Ok(st) && st.last() matches FrameModel::Dict(
            es2,
            awaiting2,
            k2,
        ) && !awaiting2 && k2 == k && keys_sorted(es2) && dict_get(es2, k) == Some(v) && (dict_get(
            es,
            k,
        ) is Some ==> es2.len() == es.len()) && forall|k3: Seq<char>|
            k3 != k ==> #[trigger] dict_get(es2, k3) == dict_get(es, k3))),
        stack.last() matches FrameModel::Dict(es, awaiting, k) ==> (!awaiting ==> (v matches NodeModel::Str(
            key,
        ) ==> (spec_handle_value(stack, v) matches Ok(st) && st.last() == FrameModel::Dict(
            dict_insert(es, key, NodeModel::List(Seq::empty())),
            true,
            key,
        )))),
{
    match stack.last() {
        FrameModel::List(items) => {},
        FrameModel::Dict(es, awaiting, k) => {
            if awaiting && keys_sorted(es) {
                law_dict_read_after_write(es, k, v);
                if dict_get(es, k) is Some {
                    lemma_dict_insert_present_len(es, k, v);
                }
            }
        },
    }
}

/// Storing under a key that a sorted dictionary holds replaces its value, so the number of
/// entries stays.
proof fn lemma_dict_insert_present_len(es: Seq<(Seq<char>, NodeModel)>, k: Seq<char>, v: NodeModel)
    requires
        keys_sorted(es),
        dict_get(es, k) is Some,
    ensures
        dict_insert(es, k, v).len() == es.len(),
    decreases es.len(),
{
    if es[0].0 != k {
        lemma_dict_index(es, k);
        let i = dict_index(es, k)->0;
        assert(i > 0);
        assert(chars_lt(es[0].0, es[i].0));
        if chars_lt(k, es[0].0) {
            lemma_chars_lt_asymmetric(k, es[0].0);
        }
        let t = es.drop_first();
        assert(keys_sorted(t)) by {
            assert forall|a: int, b: int| 0 <= a < b < t.len() implies chars_lt(#[trigger] t[a].0, #[trigger] t[b].0) by {
                assert(chars_lt(es[a + 1].0, es[b + 1].0));
            }
        }
        lemma_dict_insert_present_len(t, k, v);
    }
}

/// Whether the bytes `a` come before the bytes `b`, byte by byte: a proper prefix comes
/// first, otherwise the first byte where they differ decides.
pub open spec fn bytes_lt(a: Seq<u8>, b: Seq<u8>) -> bool
    decreases a.len(),
{
    if a.len() == 0 {
        b.len() > 0
    } else if b.len() == 0 {
        false
    } else if a[0] != b[0] {
        a[0] < b[0]
    } else {
        bytes_lt(a.drop_first(), b.drop_first())
    }
}

/// Keys read as one character per byte compare as their bytes do.
proof fn lemma_bytes_lt_latin1(a: Seq<u8>, b: Seq<u8>)
    ensures
        chars_lt(latin1(a), latin1(b)) == bytes_lt(a, b),
    decreases a.len(),
{
    if a.len() > 0 && b.len() > 0 {
        assert(latin1(a).drop_first() =~= latin1(a.drop_first()));
        assert(latin1(b).drop_first() =~= latin1(b.drop_first()));
        assert(latin1(a)[0] == a[0] as char);
        assert(latin1(b)[0] == b[0] as char);
        lemma_bytes_lt_latin1(a.drop_first(), b.drop_first());
    }
}

/// The bencode form of the key bytes `k`: their number in decimal, `:`, the bytes.
pub open spec fn key_form(k: Seq<u8>) -> Seq<u8> {
    nat_digits(k.len()) + seq![58u8] + k
}

/// Where entry `i` of a dictionary form starts: right after the `d`, or where the value of
/// the entry before it ends.
pub open spec fn entry_start(ends: Seq<int>, i: int) -> int {
    if i == 0 {
        1
    } else {
        ends[i - 1]
    }
}

/// `s` starts with a dictionary form: `d`, then for each entry the form of its key bytes
/// followed by a value that parses as `values[i]` and ends at `ends[i]`, then `e`.
#[verifier::opaque]
pub open spec fn dict_form(
    s: Seq<u8>,
    keys: Seq<Seq<u8>>,
    values: Seq<NodeModel>,
    ends: Seq<int>,
) -> bool {
    &&& keys.len() == values.len() == ends.len()
    &&& 0 < s.len() && s[0] == 100u8
    &&& forall|i: int|
        #![trigger keys[i]]
        0 <= i < keys.len() ==> {
            let p = entry_start(ends, i);
            &&& keys[i].len() <= usize::MAX
            &&& p + key_form(keys[i]).len() <= s.len()
            &&& s.subrange(p, p + key_form(keys[i]).len()) == key_form(keys[i])
            &&& spec_parse(s, p + key_form(keys[i]).len()) == (Ok::<NodeModel, BencodeError>(
                values[i],
            ), ends[i])
        }
    &&& entry_start(ends, keys.len() as int) < s.len()
    &&& s[entry_start(ends, keys.len() as int)] == 101u8
}

/// Key `i` comes after the key before it (the first one after the empty key), byte by byte.
pub open spec fn key_in_order(keys: Seq<Seq<u8>>, i: int) -> bool {
    bytes_lt(
        if i == 0 {
            Seq::<u8>::empty()
        } else {
            keys[i - 1]
        },
        keys[i],
    )
}

/// The keys strictly increase byte by byte, the first one after the empty key.
pub open spec fn keys_ascend(keys: Seq<Seq<u8>>) -> bool {
    forall|i: int| 0 <= i < keys.len() ==> #[trigger] key_in_order(keys, i)
}

/// The entries a dictionary form gives: each key's bytes read as characters, with its value.
pub open spec fn read_entries(keys: Seq<Seq<u8>>, values: Seq<NodeModel>) -> Seq<
    (Seq<char>, NodeModel),
> {
    Seq::new(keys.len(), |i: int| (latin1(keys[i]), values[i]))
}

/// The form of the key bytes `k` at `p` is read as the key.
proof fn lemma_key_form(s: Seq<u8>, p: int, k: Seq<u8>)
    requires
        0 <= p,
        p + key_form(k).len() <= s.len(),
        s.subrange(p, p + key_form(k).len()) == key_form(k),
        k.len() <= usize::MAX,
    ensures
        spec_parse_string(s, p) == (Ok::<Seq<char>, BencodeError>(latin1(k)), p + key_form(
            k,
        ).len()),
        key_form(k).len() >= 2,
        is_digit(s[p]),
{
    let d = nat_digits(k.len());
    let f = key_form(k);
    lemma_nat_digits(k.len());
    lemma_parse_usize_digits(k.len());
    let c = p + d.len();
    assert forall|i: int| 0 <= i < f.len() implies s[p + i] == #[trigger] f[i] by {
        assert(s.subrange(p, p + f.len())[i] == s[p + i]);
    }
    assert(s[c] == f[d.len() as int]);
    assert(s[c] == 58u8);
    assert forall|j: int| p <= j < c implies s[j] != 58u8 by {
        assert(s[p + (j - p)] == f[j - p]);
        assert(f[j - p] == d[j - p]);
        assert(is_digit(d[j - p]));
    }
    lemma_find_at(s, p, c, 58u8);
    assert(s.subrange(p, c) =~= d) by {
        assert forall|i: int| 0 <= i < d.len() implies s.subrange(p, c)[i] == d[i] by {
            assert(s[p + i] == f[i]);
        }
    }
    assert(s.subrange(c + 1, c + 1 + k.len()) =~= k) by {
        assert forall|i: int| 0 <= i < k.len() implies s.subrange(c + 1, c + 1 + k.len())[i] == k[i] by {
            assert(s[p + (d.len() + 1 + i)] == f[d.len() + 1 + i]);
        }
    }
    assert(s[p] == f[0]);
    assert(f[0] == d[0]);
}

proof fn lemma_dict_form_entry(
    s: Seq<u8>,
    keys: Seq<Seq<u8>>,
    values: Seq<NodeModel>,
    ends: Seq<int>,
    i: int,
)
    requires
        dict_form(s, keys, values, ends),
        0 <= i < keys.len(),
    ensures
        keys.len() == values.len() == ends.len(),
        0 <= entry_start(ends, i),
        keys[i].len() <= usize::MAX,
        entry_start(ends, i) + key_form(keys[i]).len() <= s.len(),
        s.subrange(entry_start(ends, i), entry_start(ends, i) + key_form(keys[i]).len())
            == key_form(keys[i]),
        spec_parse(s, entry_start(ends, i) + key_form(keys[i]).len()) == (Ok::<
            NodeModel,
            BencodeError,
        >(values[i]), ends[i]),
        entry_start(ends, i) + key_form(keys[i]).len() < ends[i] <= s.len(),
    decreases i,
{
    reveal(dict_form);
    assert(keys[i] == keys[i]);
    if i > 0 {
        lemma_dict_form_entry(s, keys, values, ends, i - 1);
    }
    lemma_parse_progress(s, entry_start(ends, i) + key_form(keys[i]).len());
}

proof fn lemma_dict_form_end(s: Seq<u8>, keys: Seq<Seq<u8>>, values: Seq<NodeModel>, ends: Seq<int>)
    requires
        dict_form(s, keys, values, ends),
    ensures
        keys.len() == values.len() == ends.len(),
        0 < s.len() && s[0] == 100u8,
        entry_start(ends, keys.len() as int) < s.len(),
        s[entry_start(ends, keys.len() as int)] == 101u8,
{
    reveal(dict_form);
}

proof fn lemma_read_entries_take(keys: Seq<Seq<u8>>, values: Seq<NodeModel>, j: int)
    requires
        keys.len() == values.len(),
        0 <= j <= keys.len(),
    ensures
        j == keys.len() ==> read_entries(keys.take(j), values.take(j)) == read_entries(keys, values),
        j < keys.len() ==> read_entries(keys.take(j + 1), values.take(j + 1)) == read_entries(
            keys.take(j),
            values.take(j),
        ).push((latin1(keys[j]), values[j])),
{
    if j == keys.len() {
        assert(keys.take(j) =~= keys);
        assert(values.take(j) =~= values);
    } else {
        assert(read_entries(keys.take(j + 1), values.take(j + 1)) =~= read_entries(
            keys.take(j),
            values.take(j),
        ).push((latin1(keys[j]), values[j])));
    }
}

/// The rest of a dictionary read from `q`, as `spec_parse_dict` gives it.
#[verifier::opaque]
spec fn dict_rest(
    s: Seq<u8>,
    q: int,
    acc: Seq<(Seq<char>, NodeModel)>,
    last: Seq<char>,
) -> Outcome {
    spec_parse_dict(s, q, acc, last)
}

/// A dictionary read on at its `e` ends there with the entries so far.
proof fn lemma_dict_close(s: Seq<u8>, p: int, acc: Seq<(Seq<char>, NodeModel)>, last: Seq<char>)
    requires
        0 <= p < s.len(),
        s[p] == 101u8,
    ensures
        dict_rest(s, p, acc, last) == (Ok::<NodeModel, BencodeError>(NodeModel::Dictionary(acc)), p
            + 1),
{
    reveal(dict_rest);
}

/// One entry of a dictionary read on: its key read at `p`, in order, and its value after it.
proof fn lemma_dict_step(
    s: Seq<u8>,
    p: int,
    k: Seq<u8>,
    v: NodeModel,
    e: int,
    acc: Seq<(Seq<char>, NodeModel)>,
    last: Seq<char>,
)
    requires
        0 <= p,
        p + key_form(k).len() <= s.len(),
        s.subrange(p, p + key_form(k).len()) == key_form(k),
        k.len() <= usize::MAX,
        spec_parse(s, p + key_form(k).len()) == (Ok::<NodeModel, BencodeError>(v), e),
        p + key_form(k).len() < e <= s.len(),
    ensures
        chars_lt(last, latin1(k)) ==> dict_rest(s, p, acc, last) == dict_rest(
            s,
            e,
            acc.push((latin1(k), v)),
            latin1(k),
        ),
        !chars_lt(last, latin1(k)) ==> dict_rest(s, p, acc, last).0 == Err::<
            NodeModel,
            BencodeError,
        >(BencodeError::DictKeysOutOfOrder),
{
    reveal(dict_rest);
    lemma_key_form(s, p, k);
    assert(p < s.len() && s[p] != 101u8);
}

proof fn lemma_dict_form(
    s: Seq<u8>,
    keys: Seq<Seq<u8>>,
    values: Seq<NodeModel>,
    ends: Seq<int>,
    j: int,
)
    requires
        dict_form(s, keys, values, ends),
        0 <= j <= keys.len(),
        forall|x: int| 0 <= x < j ==> #[trigger] key_in_order(keys, x),
    ensures
        ({
            let last = if j == 0 {
                Seq::<char>::empty()
            } else {
                latin1(keys[j - 1])
            };
            let o = dict_rest(
                s,
                entry_start(ends, j),
                read_entries(keys.take(j), values.take(j)),
                last,
            );
            &&& keys_ascend(keys) ==> o == (Ok::<NodeModel, BencodeError>(
                NodeModel::Dictionary(read_entries(keys, values)),
            ), entry_start(ends, keys.len() as int) + 1)
            &&& !keys_ascend(keys) ==> o.0 == Err::<NodeModel, BencodeError>(
                BencodeError::DictKeysOutOfOrder,
            )
        }),
    decreases keys.len() - j,
{
    let n = keys.len() as int;
    let p = entry_start(ends, j);
    let acc = read_entries(keys.take(j), values.take(j));
    let last = if j == 0 {
        Seq::<char>::empty()
    } else {
        latin1(keys[j - 1])
    };
    lemma_dict_form_end(s, keys, values, ends);
    if j == n {
        if n > 0 {
            lemma_dict_form_entry(s, keys, values, ends, n - 1);
        }
        lemma_read_entries_take(keys, values, j);
        assert(keys_ascend(keys));
        lemma_dict_close(s, p, acc, last);
    } else {
        let k = keys[j];
        let prev = if j == 0 {
            Seq::<u8>::empty()
        } else {
            keys[j - 1]
        };
        assert(latin1(prev) =~= last);
        if j > 0 {
            lemma_dict_form_entry(s, keys, values, ends, j - 1);
        }
        lemma_dict_form_entry(s, keys, values, ends, j);
        lemma_bytes_lt_latin1(prev, k);
        lemma_dict_step(s, p, k, values[j], ends[j], acc, last);
        assert(key_in_order(keys, j) == bytes_lt(prev, k));
        if !bytes_lt(prev, k) {
            assert(!keys_ascend(keys));
        } else {
            lemma_read_entries_take(keys, values, j);
            assert(entry_start(ends, j + 1) == ends[j]);
            lemma_dict_form(s, keys, values, ends, j + 1);
        }
    }
}

/// A dictionary form is read exactly when its keys strictly increase byte by byte, the
/// first one not empty (so `ab` before `abc` is fine); the dictionary then holds each key
/// with its value, in that order. Otherwise it is refused as out of order.
pub proof fn law_dictionary_keys_must_ascend(
    s: Seq<u8>,
    keys: Seq<Seq<u8>>,
    values: Seq<NodeModel>,
    ends: Seq<int>,
)
    requires
        dict_form(s, keys, values, ends),
    ensures
        keys_ascend(keys) ==> spec_parse(s, 0) == (Ok::<NodeModel, BencodeError>(
            NodeModel::Dictionary(read_entries(keys, values)),
        ), entry_start(ends, keys.len() as int) + 1),
        !keys_ascend(keys) ==> spec_parse(s, 0).0 == Err::<NodeModel, BencodeError>(
            BencodeError::DictKeysOutOfOrder,
        ),
{
    reveal(dict_rest);
    lemma_dict_form_end(s, keys, values, ends);
    lemma_dict_form(s, keys, values, ends, 0);
    assert(read_entries(keys.take(0), values.take(0)) =~= Seq::<(Seq<char>, NodeModel)>::empty());
}

/// `n` spaces.
pub open spec fn spaces(n: nat) -> Seq<u8> {
    Seq::new(n, |i: int| 32u8)
}

proof fn lemma_indent_spaces(level: int)
    requires
        level >= 0,
    ensures
        indent(level + 1) == spaces((2 * level) as nat),
{
    lemma_indent(level + 1);
    assert(indent(level + 1) =~= spaces((2 * level) as nat));
}

proof fn lemma_yaml_entries_concat(
    a: Seq<(Seq<char>, NodeModel)>,
    b: Seq<(Seq<char>, NodeModel)>,
    level: int,
)
    ensures
        yaml_entries(a + b, level) == yaml_entries(a, level) + yaml_entries(b, level),
    decreases b.len(),
{
    if b.len() == 0 {
        assert(a + b =~= a);
        assert(yaml_entries(a, level) + yaml_entries(b, level) =~= yaml_entries(a, level));
    } else {
        assert((a + b).drop_last() =~= a + b.drop_last());
        lemma_yaml_entries_concat(a, b.drop_last(), level);
        assert(yaml_entries(a + b, level) =~= yaml_entries(a, level) + yaml_entries(b, level));
    }
}

proof fn lemma_yaml_items_concat(a: Seq<NodeModel>, b: Seq<NodeModel>, level: int)
    ensures
        yaml_items(a + b, level) == yaml_items(a, level) + yaml_items(b, level),
    decreases b.len(),
{
    if b.len() == 0 {
        assert(a + b =~= a);
        assert(yaml_items(a, level) + yaml_items(b, level) =~= yaml_items(a, level));
    } else {
        assert((a + b).drop_last() =~= a + b.drop_last());
        lemma_yaml_items_concat(a, b.drop_last(), level);
        assert(yaml_items(a + b, level) =~= yaml_items(a, level) + yaml_items(b, level));
    }
}

/// YAML dictionaries line by line: at nesting level `level`, a dictionary of one entry is
/// a new line, then `2 * level` spaces, the key, `: `, the value's form one level deeper,
/// and a new line; the form of a dictionary whose entries are those of `a` followed by
/// those of `b` is the form of `a` followed by the lines of `b`. So every entry line of a
/// dictionary at level `level` is indented by exactly `2 * level` spaces.
pub proof fn law_yaml_dictionary_lines(
    a: Seq<(Seq<char>, NodeModel)>,
    b: Seq<(Seq<char>, NodeModel)>,
    k: Seq<char>,
    v: NodeModel,
    level: nat,
)
    ensures
        yaml(NodeModel::Dictionary(seq![(k, v)]), level as int) == seq![10u8] + spaces(2 * level)
            + encode_utf8(k) + seq![58u8, 32u8] + yaml(v, level + 1int) + seq![10u8],
        a.len() > 0 && b.len() > 0 ==> yaml(NodeModel::Dictionary(a + b), level as int) == yaml(
            NodeModel::Dictionary(a),
            level as int,
        ) + yaml(NodeModel::Dictionary(b), level as int).drop_first(),
{
    lemma_indent_spaces(level as int);
    let one = seq![(k, v)];
    assert(one.drop_last() =~= Seq::<(Seq<char>, NodeModel)>::empty());
    assert(one.last() == (k, v));
    assert(yaml_entries(Seq::<(Seq<char>, NodeModel)>::empty(), level as int) =~= Seq::<u8>::empty());
    assert(spaces(2 * level) == indent(level + 1int));
    assert(yaml(NodeModel::Dictionary(one), level as int) =~= seq![10u8] + spaces(2 * level)
        + encode_utf8(k) + seq![58u8, 32u8] + yaml(v, level + 1int) + seq![10u8]);
    if a.len() > 0 && b.len() > 0 {
        lemma_yaml_entries_concat(a, b, level as int);
        assert((seq![10u8] + yaml_entries(b, level as int)).drop_first() =~= yaml_entries(
            b,
            level as int,
        ));
        assert(yaml(NodeModel::Dictionary(a + b), level as int) =~= yaml(
            NodeModel::Dictionary(a),
            level as int,
        ) + yaml(NodeModel::Dictionary(b), level as int).drop_first());
    }
}

/// YAML lists line by line: at nesting level `level`, a list of one item is a new line,
/// then `2 * level` spaces, `- `, the item's form one level deeper, and a new line; the form
/// of a list whose items are those of `a` followed by those of `b` is the form of `a`
/// followed by the lines of `b`. So every item line of a list at level `level` is indented
/// by exactly `2 * level` spaces.
pub proof fn law_yaml_list_lines(a: Seq<NodeModel>, b: Seq<NodeModel>, x: NodeModel, level: nat)
    ensures
        yaml(NodeModel::List(seq![x]), level as int) == seq![10u8] + spaces(2 * level) + seq![
            45u8,
            32u8,
        ] + yaml(x, level + 1int) + seq![10u8],
        a.len() > 0 && b.len() > 0 ==> yaml(NodeModel::List(a + b), level as int) == yaml(
            NodeModel::List(a),
            level as int,
        ) + yaml(NodeModel::List(b), level as int).drop_first(),
{
    lemma_indent_spaces(level as int);
    let one = seq![x];
    assert(one.drop_last() =~= Seq::<NodeModel>::empty());
    assert(one.last() == x);
    assert(yaml_items(Seq::<NodeModel>::empty(), level as int) =~= Seq::<u8>::empty());
    assert(spaces(2 * level) == indent(level + 1int));
    assert(yaml(NodeModel::List(one), level as int) =~= seq![10u8] + spaces(2 * level) + seq![
        45u8,
        32u8,
    ] + yaml(x, level + 1int) + seq![10u8]);
    if a.len() > 0 && b.len() > 0 {
        lemma_yaml_items_concat(a, b, level as int);
        assert((seq![10u8] + yaml_items(b, level as int)).drop_first() =~= yaml_items(
            b,
            level as int,
        ));
        assert(yaml(NodeModel::List(a + b), level as int) =~= yaml(NodeModel::List(a), level as int)
            + yaml(NodeModel::List(b), level as int).drop_first());
    }
}

proof fn lemma_xml_entries_concat(a: Seq<(Seq<char>, NodeModel)>, b: Seq<(Seq<char>, NodeModel)>)
    ensures
        xml_entries(a + b) == xml_entries(a) + xml_entries(b),
    decreases b.len(),
{
    if b.len() == 0 {
        assert(a + b =~= a);
        assert(xml_entries(a) + xml_entries(b) =~= xml_entries(a));
    } else {
        assert((a + b).drop_last() =~= a + b.drop_last());
        lemma_xml_entries_concat(a, b.drop_last());
        assert(xml_entries(a + b) =~= xml_entries(a) + xml_entries(b));
    }
}

/// XML dictionaries entry by entry: the empty dictionary is `<dictionary></dictionary>`; a
/// dictionary of one entry holds one `item` element with its key and its value; and the
/// form of a dictionary whose entries are those of `a` followed by those of `b` is the form
/// of `a` without its closing tag followed by the form of `b` without its opening tag. So
/// each entry has an `item` element of its own.
pub proof fn law_xml_dictionary_items(
    a: Seq<(Seq<char>, NodeModel)>,
    b: Seq<(Seq<char>, NodeModel)>,
    k: Seq<char>,
    v: NodeModel,
)
    ensures
        xml(NodeModel::Dictionary(Seq::empty())) == "<dictionary>".spec_bytes()
            + "</dictionary>".spec_bytes(),
        xml(NodeModel::Dictionary(seq![(k, v)])) == "<dictionary>".spec_bytes()
            + "<item><key>".spec_bytes() + encode_utf8(k) + "</key><value>".spec_bytes() + xml(v)
            + "</value></item>".spec_bytes() + "</dictionary>".spec_bytes(),
        ({
            let fa = xml(NodeModel::Dictionary(a));
            let fb = xml(NodeModel::Dictionary(b));
            xml(NodeModel::Dictionary(a + b)) == fa.subrange(
                0,
                fa.len() - "</dictionary>".spec_bytes().len(),
            ) + fb.subrange("<dictionary>".spec_bytes().len() as int, fb.len() as int)
        }),
{
    let d = "<dictionary>".spec_bytes();
    let e = "</dictionary>".spec_bytes();
    assert(xml_entries(Seq::empty()) =~= Seq::<u8>::empty());
    assert(xml(NodeModel::Dictionary(Seq::empty())) =~= d + e);
    let one = seq![(k, v)];
    assert(one.drop_last() =~= Seq::<(Seq<char>, NodeModel)>::empty());
    assert(xml(NodeModel::Dictionary(one)) =~= d + "<item><key>".spec_bytes() + encode_utf8(k)
        + "</key><value>".spec_bytes() + xml(v) + "</value></item>".spec_bytes() + e);
    lemma_xml_entries_concat(a, b);
    let fa = xml(NodeModel::Dictionary(a));
    let fb = xml(NodeModel::Dictionary(b));
    assert(fa.subrange(0, fa.len() - e.len()) =~= d + xml_entries(a));
    assert(fb.subrange(d.len() as int, fb.len() as int) =~= xml_entries(b) + e);
    assert(xml(NodeModel::Dictionary(a + b)) =~= (d + xml_entries(a)) + (xml_entries(b) + e));
}

/// A string's bencode form, wherever it stands, is read back as the bytes of its UTF-8
/// form, one character per byte, and reading stops right after the form: its length prefix
/// counts those bytes, whatever the characters.
pub proof fn law_bencode_string_is_its_utf8_bytes(t: Seq<char>, pre: Seq<u8>, rest: Seq<u8>)
    requires
        encode_utf8(t).len() <= usize::MAX,
    ensures
        spec_parse(pre + encode(NodeModel::Str(t)) + rest, pre.len() as int) == (Ok::<
            NodeModel,
            BencodeError,
        >(NodeModel::Str(latin1(encode_utf8(t)))), (pre.len() + encode(NodeModel::Str(t)).len()) as int),
        spec_parse_string(pre + encode_str(t) + rest, pre.len() as int) == (Ok::<
            Seq<char>,
            BencodeError,
        >(latin1(encode_utf8(t))), (pre.len() + encode_str(t).len()) as int),
{
    let s = pre + encode_str(t) + rest;
    let u = encode_utf8(t);
    let d = nat_digits(u.len());
    lemma_nat_digits(u.len());
    lemma_parse_usize_digits(u.len());
    let p = pre.len() as int;
    let k = p + d.len();
    assert(s[k] == 58u8);
    assert forall|j: int| p <= j < k implies s[j] != 58u8 by {
        assert(s[j] == d[j - p]);
        assert(is_digit(d[j - p]));
    }
    lemma_find_at(s, p, k, 58u8);
    assert(s.subrange(p, k) =~= d);
    assert(s.subrange(k + 1, k + 1 + u.len()) =~= u);
    assert(s[p] == d[0]);
    assert(is_digit(d[0]));
}

/// A bencode dictionary entry by entry: one entry is `d`, the key's string form, the
/// value's form, `e`; and the form of a dictionary whose entries are those of `a` followed
/// by those of `b` is the form of `a` without its `e` followed by the form of `b` without
/// its `d`.
pub proof fn law_bencode_dictionary_entries(
    a: Seq<(Seq<char>, NodeModel)>,
    b: Seq<(Seq<char>, NodeModel)>,
    k: Seq<char>,
    v: NodeModel,
)
    ensures
        encode(NodeModel::Dictionary(seq![(k, v)])) == seq![100u8] + encode(NodeModel::Str(k))
            + encode(v) + seq![101u8],
        encode(NodeModel::Dictionary(a + b)) == encode(NodeModel::Dictionary(a)).drop_last()
            + encode(NodeModel::Dictionary(b)).drop_first(),
{
    let one = seq![(k, v)];
    assert(one.drop_last() =~= Seq::<(Seq<char>, NodeModel)>::empty());
    assert(encode_entries(Seq::<(Seq<char>, NodeModel)>::empty()) =~= Seq::<u8>::empty());
    assert(encode(NodeModel::Dictionary(one)) =~= seq![100u8] + encode(NodeModel::Str(k)) + encode(v)
        + seq![101u8]);
    lemma_encode_entries_concat(a, b);
    assert(encode(NodeModel::Dictionary(a + b)) =~= encode(NodeModel::Dictionary(a)).drop_last()
        + encode(NodeModel::Dictionary(b)).drop_first());
}

proof fn lemma_json_entries_concat(a: Seq<(Seq<char>, NodeModel)>, b: Seq<(Seq<char>, NodeModel)>)
    requires
        a.len() > 0,
        b.len() > 0,
    ensures
        json_entries(a + b) == json_entries(a) + seq![44u8] + json_entries(b),
    decreases b.len(),
{
    assert((a + b).drop_last() =~= a + b.drop_last());
    assert((a + b).last() == b.last());
    if b.len() == 1 {
        assert(b.drop_last() =~= Seq::<(Seq<char>, NodeModel)>::empty());
        assert(a + b.drop_last() =~= a);
        assert(json_entries(a + b) =~= json_entries(a) + seq![44u8] + json_entries(b));
    } else {
        lemma_json_entries_concat(a, b.drop_last());
        assert(json_entries(a + b) =~= json_entries(a) + seq![44u8] + json_entries(b));
    }
}

proof fn lemma_json_items_concat(a: Seq<NodeModel>, b: Seq<NodeModel>)
    requires
        a.len() > 0,
        b.len() > 0,
    ensures
        json_items(a + b) == json_items(a) + seq![44u8] + json_items(b),
    decreases b.len(),
{
    assert((a + b).drop_last() =~= a + b.drop_last());
    assert((a + b).last() == b.last());
    if b.len() == 1 {
        assert(b.drop_last() =~= Seq::<NodeModel>::empty());
        assert(a + b.drop_last() =~= a);
        assert(json_items(a + b) =~= json_items(a) + seq![44u8] + json_items(b));
    } else {
        lemma_json_items_concat(a, b.drop_last());
        assert(json_items(a + b) =~= json_items(a) + seq![44u8] + json_items(b));
    }
}

/// JSON objects and arrays element by element: one entry is `{"key":value}`, one item is
/// `[value]`, and the form of a collection whose elements are those of `a` followed by
/// those of `b` (both non-empty) is the form of `a` without its closing bracket, a `,`, and
/// the form of `b` without its opening bracket.
pub proof fn law_json_elements(
    a: Seq<(Seq<char>, NodeModel)>,
    b: Seq<(Seq<char>, NodeModel)>,
    xs: Seq<NodeModel>,
    ys: Seq<NodeModel>,
    k: Seq<char>,
    v: NodeModel,
)
    ensures
        json(NodeModel::Dictionary(seq![(k, v)])) == seq![123u8, 34u8] + encode_utf8(k) + seq![
            34u8,
            58u8,
        ] + json(v) + seq![125u8],
        json(NodeModel::List(seq![v])) == seq![91u8] + json(v) + seq![93u8],
        a.len() > 0 && b.len() > 0 ==> json(NodeModel::Dictionary(a + b)) == json(
            NodeModel::Dictionary(a),
        ).drop_last() + seq![44u8] + json(NodeModel::Dictionary(b)).drop_first(),
        xs.len() > 0 && ys.len() > 0 ==> json(NodeModel::List(xs + ys)) == json(
            NodeModel::List(xs),
        ).drop_last() + seq![44u8] + json(NodeModel::List(ys)).drop_first(),
{
    let one = seq![(k, v)];
    assert(one.last() == (k, v));
    assert(json(NodeModel::Dictionary(one)) =~= seq![123u8, 34u8] + encode_utf8(k) + seq![
        34u8,
        58u8,
    ] + json(v) + seq![125u8]);
    assert(seq![v].last() == v);
    assert(json(NodeModel::List(seq![v])) =~= seq![91u8] + json(v) + seq![93u8]);
    if a.len() > 0 && b.len() > 0 {
        lemma_json_entries_concat(a, b);
        assert(json(NodeModel::Dictionary(a + b)) =~= json(NodeModel::Dictionary(a)).drop_last()
            + seq![44u8] + json(NodeModel::Dictionary(b)).drop_first());
    }
    if xs.len() > 0 && ys.len() > 0 {
        lemma_json_items_concat(xs, ys);
        assert(json(NodeModel::List(xs + ys)) =~= json(NodeModel::List(xs)).drop_last() + seq![44u8]
            + json(NodeModel::List(ys)).drop_first());
    }
}

proof fn lemma_xml_items_concat(a: Seq<NodeModel>, b: Seq<NodeModel>)
    ensures
        xml_items(a + b) == xml_items(a) + xml_items(b),
    decreases b.len(),
{
    if b.len() == 0 {
        assert(a + b =~= a);
        assert(xml_items(a) + xml_items(b) =~= xml_items(a));
    } else {
        assert((a + b).drop_last() =~= a + b.drop_last());
        lemma_xml_items_concat(a, b.drop_last());
        assert(xml_items(a + b) =~= xml_items(a) + xml_items(b));
    }
}

/// XML lists item by item: one item is `<list>`, the item's form, `</list>`; the form of a
/// list whose items are those of `a` followed by those of `b` is the form of `a` without
/// its closing tag followed by the form of `b` without its opening tag.
pub proof fn law_xml_list_items(a: Seq<NodeModel>, b: Seq<NodeModel>, x: NodeModel)
    ensures
        xml(NodeModel::List(seq![x])) == "<list>".spec_bytes() + xml(x) + "</list>".spec_bytes(),
        ({
            let fa = xml(NodeModel::List(a));
            let fb = xml(NodeModel::List(b));
            xml(NodeModel::List(a + b)) == fa.subrange(0, fa.len() - "</list>".spec_bytes().len())
                + fb.subrange("<list>".spec_bytes().len() as int, fb.len() as int)
        }),
{
    let d = "<list>".spec_bytes();
    let e = "</list>".spec_bytes();
    assert(seq![x].drop_last() =~= Seq::<NodeModel>::empty());
    assert(seq![x].last() == x);
    assert(xml_items(Seq::<NodeModel>::empty()) =~= Seq::<u8>::empty());
    assert(xml(NodeModel::List(seq![x])) =~= d + xml(x) + e);
    lemma_xml_items_concat(a, b);
    let fa = xml(NodeModel::List(a));
    let fb = xml(NodeModel::List(b));
    assert(fa.subrange(0, fa.len() - e.len()) =~= d + xml_items(a));
    assert(fb.subrange(d.len() as int, fb.len() as int) =~= xml_items(b) + e);
    assert(xml(NodeModel::List(a + b)) =~= (d + xml_items(a)) + (xml_items(b) + e));
}

/// A bencode list item by item: one item is `l`, the item's form, `e`; the form of a list
/// whose items are those of `a` followed by those of `b` is the form of `a` without its `e`
/// followed by the form of `b` without its `l`.
pub proof fn law_bencode_list_items(a: Seq<NodeModel>, b: Seq<NodeModel>, x: NodeModel)
    ensures
        encode(NodeModel::List(seq![x])) == seq![108u8] + encode(x) + seq![101u8],
        encode(NodeModel::List(a + b)) == encode(NodeModel::List(a)).drop_last() + encode(
            NodeModel::List(b),
        ).drop_first(),
{
    assert(seq![x].drop_last() =~= Seq::<NodeModel>::empty());
    assert(seq![x].last() == x);
    assert(encode_items(Seq::<NodeModel>::empty()) =~= Seq::<u8>::empty());
    assert(encode(NodeModel::List(seq![x])) =~= seq![108u8] + encode(x) + seq![101u8]);
    lemma_encode_items_concat(a, b);
    assert(encode(NodeModel::List(a + b)) =~= encode(NodeModel::List(a)).drop_last() + encode(
        NodeModel::List(b),
    ).drop_first());
}

} // verus!
