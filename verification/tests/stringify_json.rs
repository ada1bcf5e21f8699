use bencode_lib::BufferDestination as Buffer;
use bencode_lib::Dict;
use bencode_lib::Node;
use bencode_lib::stringify::json;

#[test]
fn json_stringify_integer_works() {
    let mut destination = Buffer::new();
    json::stringify(&Node::Integer(42), &mut destination);
    assert_eq!(destination.to_string(), "42");
}

#[test]
fn json_stringify_string_works() {
    let mut destination = Buffer::new();
    json::stringify(&Node::Str("hello".to_string()), &mut destination);
    assert_eq!(destination.to_string(), "\"hello\"");
}

#[test]
fn json_stringify_list_works() {
    let mut destination = Buffer::new();
    json::stringify(&Node::List(vec![
        Node::Integer(1),
        Node::Integer(2),
        Node::Str("three".to_string()),
    ]), &mut destination);
    assert_eq!(destination.to_string(), "[1,2,\"three\"]");
}

#[test]
fn json_stringify_dictionary_works() {
    let mut destination = Buffer::new();
    let mut dict = Dict::new();
    dict.insert("key1".to_string(), Node::Integer(1));
    dict.insert("key2".to_string(), Node::Str("value".to_string()));
    json::stringify(&Node::Dictionary(dict), &mut destination);
    assert_eq!(destination.to_string(), "{\"key1\":1,\"key2\":\"value\"}");
}

#[test]
fn stringify_empty_structures_works() {
    let mut destination = Buffer::new();
    json::stringify(&Node::List(vec![]), &mut destination);
    assert_eq!(destination.to_string(), "[]");
    destination.clear();
    json::stringify(&Node::Dictionary(Dict::new()), &mut destination);
    assert_eq!(destination.to_string(), "{}");
}

#[test]
fn stringify_nested_structures_works() {
    let mut destination = Buffer::new();
    let inner_list = Node::List(vec![Node::Integer(1), Node::Integer(2)]);
    let mut inner_dict = Dict::new();
    inner_dict.insert("key".to_string(), Node::Str("value".to_string()));
    let dict = Node::Dictionary(inner_dict);

    json::stringify(&Node::List(vec![inner_list, dict]), &mut destination);
    assert_eq!(destination.to_string(), "[[1,2],{\"key\":\"value\"}]");
}
