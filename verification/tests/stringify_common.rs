use bencode_lib::BufferDestination as Buffer;
use bencode_lib::stringify::common::escape_string;

#[test]
fn test_escape_regular_string() {
    let mut destination = Buffer::new();
    escape_string("hello world", &mut destination);
    assert_eq!(destination.to_string(), "hello world");
}

#[test]
fn test_escape_special_characters() {
    let mut destination = Buffer::new();
    escape_string("hello\"world\\test", &mut destination);
    assert_eq!(destination.to_string(), "hello\\\"world\\\\test");
}

#[test]
fn test_escape_unprintable_characters() {
    let mut destination = Buffer::new();
    escape_string("hello\nworld\t", &mut destination);
    assert_eq!(destination.to_string(), "hello\\u000aworld\\u0009");
}

#[test]
fn test_escape_empty_string() {
    let mut destination = Buffer::new();
    escape_string("", &mut destination);
    assert_eq!(destination.to_string(), "");
}
