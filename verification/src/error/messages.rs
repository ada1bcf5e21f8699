//! The texts with which the parsers report errors.
use vstd::prelude::*;
use crate::text::push_char;

verus! {

/// Reported when a file cannot be opened.
pub const FILE_NOT_FOUND: &'static str = "File not found";

pub const ERR_EMPTY_INPUT: &'static str = "Empty input";

pub const ERR_INVALID_INTEGER: &'static str = "Invalid integer";

pub const ERR_UNTERMINATED_INTEGER: &'static str = "Unterminated integer";

pub const ERR_INVALID_STRING_LENGTH: &'static str = "Invalid string length";

pub const ERR_STRING_TOO_SHORT: &'static str = "String too short";

pub const ERR_UNTERMINATED_LIST: &'static str = "Unterminated list";

pub const ERR_UNTERMINATED_DICTIONARY: &'static str = "Unterminated dictionary";

pub const ERR_DICT_KEYS_ORDER: &'static str = "Dictionary keys must be in order";

pub const ERR_DICT_KEY_MUST_BE_STRING: &'static str = "Dictionary key must be string";

/// The prefix of the message for an unexpected character.
pub const UNEXPECTED_CHARACTER_PREFIX: &'static str = "Unexpected character: ";

/// The message for an unexpected character `c`: the prefix, then `c` itself.
pub open spec fn unexpected_character_message(c: char) -> Seq<char> {
    UNEXPECTED_CHARACTER_PREFIX@.push(c)
}

/// Builds the message `"Unexpected character: <c>"`.
pub fn unexpected_character(c: char) -> (r: String)
    ensures
        r@ == unexpected_character_message(c),
{
    let mut r = UNEXPECTED_CHARACTER_PREFIX.to_owned();
    push_char(&mut r, c);
    r
}

} // verus!
