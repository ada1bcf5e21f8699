use bencode_lib::BufferSource;
use bencode_lib::error::messages::{ERR_EMPTY_INPUT, ERR_INVALID_STRING_LENGTH, ERR_UNTERMINATED_DICTIONARY, ERR_UNTERMINATED_LIST};
use bencode_lib::parse;
#[test]
fn parser_errors_test_empty_input() {
    let mut source = BufferSource::new(b"");
    assert!(matches!(parse(&mut source), Err(s) if s == ERR_EMPTY_INPUT));
}

#[test]
fn parser_errors_test_invalid_character() {
    let mut source = BufferSource::new(b"x123");
    assert!(matches!(parse(&mut source), Err(s) if s.contains("Unexpected character")));
}

#[test]
fn parser_errors_test_invalid_start_character_z() {
    let mut source = BufferSource::new(b"z");
    assert!(matches!(parse(&mut source), Err(s) if s.contains("Unexpected character")));
}

#[test]
fn parser_errors_test_invalid_start_character_dash() {
    let mut source = BufferSource::new(b"-42");
    assert!(matches!(parse(&mut source), Err(s) if s.contains("Unexpected character")));
}

#[test]
fn parser_errors_test_malformed_nested_structure() {
    let mut source = BufferSource::new(b"ld3:keyi42e");
    assert!(
        matches!(parse(&mut source), Err(s) if s == ERR_UNTERMINATED_DICTIONARY || s == ERR_UNTERMINATED_LIST)
    );
}

#[test]
fn parser_errors_test_dictionary_missing_value() {
    let mut source = BufferSource::new(b"d3:keye");
    assert!(matches!(parse(&mut source), Err(_)));
}

#[test]
fn parser_errors_test_list_with_invalid_element() {
    let mut source = BufferSource::new(b"lxe");
    assert!(matches!(parse(&mut source), Err(s) if s.contains("Unexpected character")));
}

#[test]
fn parser_errors_test_string_with_colon_separator_only() {
    // Test the case where ':' is encountered as the first character
    let mut source = BufferSource::new(b":test");
    assert!(matches!(parse(&mut source), Err(s) if s == ERR_INVALID_STRING_LENGTH));
}
