use bencode_lib::BufferDestination as Buffer;
use bencode_lib::Dict;
use bencode_lib::Node;
use bencode_lib::stringify::xml;

#[test]
fn test_string_node() {
    let mut destination = Buffer::new();
    xml::stringify(&Node::Str("test".into()), &mut destination);
    assert_eq!(destination.to_string(), "<string>test</string>");
}

#[test]
fn test_integer_node() {
    let mut destination = Buffer::new();
    xml::stringify(&Node::Integer(42), &mut destination);
    assert_eq!(destination.to_string(), "<integer>42</integer>");
}

#[test]
fn test_list_node() {
    let mut destination = Buffer::new();
    xml::stringify(&Node::List(vec![Node::Integer(1), Node::Str("test".into())]), &mut destination);
    assert_eq!(destination.to_string(), "<list><integer>1</integer><string>test</string></list>");
}

#[test]
fn test_dictionary_node() {
    let mut destination = Buffer::new();
    let mut dict = Dict::new();
    dict.insert("key".into(), Node::Str("value".into()));
    xml::stringify(&Node::Dictionary(dict), &mut destination);
    assert_eq!(destination.to_string(), "<dictionary><item><key>key</key><value><string>value</string></value></item></dictionary>");
}
