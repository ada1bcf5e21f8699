use bencode_lib::BufferDestination;
use bencode_lib::BufferSource;
use bencode_lib::Dict;
use bencode_lib::Node;
use bencode_lib::make_node;
use bencode_lib::stringify::toml;

#[test]
fn stringify_toml_test_stringify_nested_dictionary() {
    let mut destination = BufferDestination::new();
    let mut inner_dict = Dict::new();
    inner_dict.insert("inner_key".to_string(), make_node("inner_value"));
    let mut outer_dict = Dict::new();
    outer_dict.insert("outer_key".to_string(), make_node(inner_dict));
    let node = make_node(outer_dict);
    toml::stringify(&node, &mut destination).unwrap();
    assert_eq!(
        destination.to_string(),
        "[outer_key]\ninner_key = \"inner_value\"\n"
    );
}

#[test]
fn stringify_toml_test_stringify_deeply_nested_dictionary() {
    let mut level3 = Dict::new();
    level3.insert("deep_key".to_string(), Node::Integer(123));
    let level3 = Node::Dictionary(level3);

    let mut level2 = Dict::new();
    level2.insert("level3".to_string(), level3);
    let level2 = Node::Dictionary(level2);

    let mut level1 = Dict::new();
    level1.insert("level2".to_string(), level2);
    let level1 = Node::Dictionary(level1);

    let mut root = Dict::new();
    root.insert("level1".to_string(), level1);

    let mut dest = BufferDestination::new();
    toml::stringify(&Node::Dictionary(root), &mut dest).unwrap();
    assert_eq!(dest.to_string(), "[level1.level2.level3]\ndeep_key = 123\n");
}

#[test]
fn test_stringify_non_dictionary_root() {
    let mut destination = BufferDestination::new();
    let node = make_node("test");
    let result = toml::stringify(&node, &mut destination);
    assert!(result.is_err());
    assert_eq!(
        result.unwrap_err(),
        "TOML format requires a dictionary at the root level"
    );
}

#[test]
fn test_heterogeneous_list() {
    let mut dest = BufferDestination::new();
    let mut dict = Dict::new();
    dict.insert(
        "key".to_string(),
        make_node(vec![make_node(1), make_node("test")]),
    );
    let result = toml::stringify(&Node::Dictionary(dict), &mut dest);
    assert!(result.is_err());
    assert_eq!(
        result.unwrap_err(),
        "TOML lists must contain elements of the same type"
    );
}

#[test]
fn test_array_table() {
    let mut dest = BufferDestination::new();
    let mut inner1 = Dict::new();
    inner1.insert("name".to_string(), make_node("first"));
    let mut inner2 = Dict::new();
    inner2.insert("name".to_string(), make_node("second"));

    let mut dict = Dict::new();
    dict.insert(
        "items".to_string(),
        make_node(vec![make_node(inner1), make_node(inner2)]),
    );

    toml::stringify(&Node::Dictionary(dict), &mut dest).unwrap();
    assert_eq!(
        dest.to_string(),
        "[[items]]\nname = \"first\"\n[[items]]\nname = \"second\"\n"
    );
}

#[test]
fn test_mixed_array_table() {
    let mut dest = BufferDestination::new();
    let mut inner = Dict::new();
    inner.insert("simple".to_string(), make_node(42));
    let mut nested = Dict::new();
    nested.insert("value".to_string(), make_node("test"));
    inner.insert("complex".to_string(), make_node(nested));

    let mut dict = Dict::new();
    dict.insert("items".to_string(), make_node(vec![make_node(inner)]));

    toml::stringify(&Node::Dictionary(dict), &mut dest).unwrap();
    assert_eq!(
        dest.to_string(),
        "[[items]]\nsimple = 42\n[items.complex]\nvalue = \"test\"\n"
    );
}

#[test]
fn test_nested_array_tables() {
    let mut dest = BufferDestination::new();
    let mut deepest = Dict::new();
    deepest.insert("value".to_string(), make_node(42));

    let mut inner = Dict::new();
    inner.insert(
        "nested".to_string(),
        make_node(vec![make_node(deepest.clone())]),
    );

    let mut dict = Dict::new();
    dict.insert("items".to_string(), make_node(vec![make_node(inner)]));

    toml::stringify(&Node::Dictionary(dict), &mut dest).unwrap();
    assert_eq!(dest.to_string(), "[[items]]\n[items.nested]\nvalue = 42\n");
}

#[test]
fn test_stringify_nested_object_with_array() {
    let mut source = BufferSource::new(
        b"d4:infod5:filesld6:lengthi351874e4:pathl10:large.jpegeed6:lengthi100e4:pathl1:2eeeee",
    );
    let node = bencode_lib::parse(&mut source).unwrap();
    let mut dest = BufferDestination::new();
    toml::stringify(&node, &mut dest).unwrap();
    assert_eq!(
        dest.to_string(),
        "[[info.files]]\nlength = 351874\npath = [\"large.jpeg\"]\n[[info.files]]\nlength = 100\npath = [\"2\"]\n"
    );
}

#[test]
fn test_stringify_nested_object_with_array_and_object_and_array() {
    let mut source = BufferSource::new(
        b"d4:infod5:filesld6:lengthi351874e4:pathl10:large.jpegeed6:lengthi100e4:pathl1:2eeeee4:filesld6:lengthi351874e4:pathl10:large.jpege",
    );
    let node = bencode_lib::parse(&mut source).unwrap();
    let mut dest = BufferDestination::new();
    toml::stringify(&node, &mut dest).unwrap();
    assert_eq!(
        dest.to_string(),
        "[[info.files]]\nlength = 351874\npath = [\"large.jpeg\"]\n[[info.files]]\nlength = 100\npath = [\"2\"]\n"
    );
}

#[test]
fn stringify_toml_test_stringify_empty_dictionary() {
    let mut dest = BufferDestination::new();
    toml::stringify(&Node::Dictionary(Dict::new()), &mut dest).unwrap();
    assert_eq!(dest.to_string(), "");
}

#[test]
fn test_stringify_complex_mixed_structure() {
    let mut dest = BufferDestination::new();

    // Create a complex structure with multiple nesting levels
    let mut dict = Dict::new();
    dict.insert("title".to_string(), make_node("Test Document"));
    dict.insert("version".to_string(), make_node(1));

    let mut author = Dict::new();
    author.insert("name".to_string(), make_node("John Doe"));
    author.insert("email".to_string(), make_node("john@example.com"));
    dict.insert("author".to_string(), make_node(author));

    let mut item1 = Dict::new();
    item1.insert("id".to_string(), make_node(1));
    item1.insert("name".to_string(), make_node("Item One"));

    let mut item2 = Dict::new();
    item2.insert("id".to_string(), make_node(2));
    item2.insert("name".to_string(), make_node("Item Two"));

    dict.insert(
        "items".to_string(),
        make_node(vec![make_node(item1), make_node(item2)]),
    );

    toml::stringify(&Node::Dictionary(dict), &mut dest).unwrap();
    let output = dest.to_string();

    // Verify key components are present
    assert!(output.contains("title = \"Test Document\""));
    assert!(output.contains("version = 1"));
    assert!(output.contains("[author]"));
    assert!(output.contains("name = \"John Doe\""));
    assert!(output.contains("[[items]]"));
    assert!(output.contains("id = 1"));
    assert!(output.contains("name = \"Item One\""));
}

#[test]
fn test_stringify_with_list_of_primitives() {
    let mut dest = BufferDestination::new();
    let mut dict = Dict::new();
    dict.insert(
        "numbers".to_string(),
        make_node(vec![make_node(1), make_node(2), make_node(3)]),
    );
    dict.insert(
        "strings".to_string(),
        make_node(vec![make_node("a"), make_node("b"), make_node("c")]),
    );

    toml::stringify(&Node::Dictionary(dict), &mut dest).unwrap();
    let output = dest.to_string();

    assert!(output.contains("numbers = [1, 2, 3]"));
    assert!(output.contains("strings = [\"a\", \"b\", \"c\"]"));
}

#[test]
fn test_stringify_array_of_arrays_fails() {
    let mut dest = BufferDestination::new();
    let mut dict = Dict::new();
    // Array containing arrays - first element is list, second is integer
    dict.insert(
        "nested".to_string(),
        make_node(vec![make_node(vec![make_node(1)]), make_node(2)]),
    );

    let result = toml::stringify(&Node::Dictionary(dict), &mut dest);
    assert!(result.is_err());
}

#[test]
fn test_stringify_dictionary_with_none_value() {
    let mut dest = BufferDestination::new();
    let mut dict = Dict::new();
    dict.insert("key1".to_string(), make_node("value"));
    dict.insert("key2".to_string(), Node::Null);

    toml::stringify(&Node::Dictionary(dict), &mut dest).unwrap();
    let output = dest.to_string();

    assert!(output.contains("key1 = \"value\""));
    assert!(output.contains("key2 = null"));
}

#[test]
fn test_stringify_nested_with_prefix() {
    let mut dest = BufferDestination::new();
    let mut inner = Dict::new();
    inner.insert("value".to_string(), make_node(42));

    let mut middle = Dict::new();
    middle.insert("inner".to_string(), make_node(inner));

    let mut outer = Dict::new();
    outer.insert("middle".to_string(), make_node(middle));

    toml::stringify(&Node::Dictionary(outer), &mut dest).unwrap();
    assert_eq!(dest.to_string(), "[middle.inner]\nvalue = 42\n");
}

#[test]
fn test_stringify_array_table_with_nested_dict() {
    let mut dest = BufferDestination::new();

    let mut nested_dict = Dict::new();
    nested_dict.insert("nested_key".to_string(), make_node("nested_value"));

    let mut item = Dict::new();
    item.insert("id".to_string(), make_node(1));
    item.insert("details".to_string(), make_node(nested_dict));

    let mut root = Dict::new();
    root.insert("items".to_string(), make_node(vec![make_node(item)]));

    toml::stringify(&Node::Dictionary(root), &mut dest).unwrap();
    let output = dest.to_string();

    assert!(output.contains("[[items]]"));
    assert!(output.contains("id = 1"));
    assert!(output.contains("[items.details]"));
    assert!(output.contains("nested_key = \"nested_value\""));
}

#[test]
fn test_stringify_list_of_lists_homogeneous() {
    let mut dest = BufferDestination::new();
    let mut dict = Dict::new();
    // List of lists (homogeneous - all are lists)
    dict.insert(
        "matrix".to_string(),
        make_node(vec![
            make_node(vec![make_node(1), make_node(2)]),
            make_node(vec![make_node(3), make_node(4)]),
        ]),
    );

    let result = toml::stringify(&Node::Dictionary(dict), &mut dest);
    // This should succeed as all elements are lists
    assert!(result.is_ok());
}

#[test]
fn test_stringify_with_special_characters_in_string() {
    let mut dest = BufferDestination::new();
    let mut dict = Dict::new();
    dict.insert("text".to_string(), make_node("hello\nworld\ttab"));

    toml::stringify(&Node::Dictionary(dict), &mut dest).unwrap();
    let output = dest.to_string();

    // Should have escaped special characters
    assert!(output.contains("text = \"hello\\u000aworld\\u0009tab\""));
}

#[test]
fn test_stringify_negative_numbers() {
    let mut dest = BufferDestination::new();
    let mut dict = Dict::new();
    dict.insert("negative".to_string(), make_node(-42));
    dict.insert(
        "neg_list".to_string(),
        make_node(vec![make_node(-1), make_node(-2), make_node(-3)]),
    );

    toml::stringify(&Node::Dictionary(dict), &mut dest).unwrap();
    let output = dest.to_string();

    assert!(output.contains("negative = -42"));
    assert!(output.contains("neg_list = [-1, -2, -3]"));
}
