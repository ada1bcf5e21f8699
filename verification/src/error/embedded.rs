//! A light error type that needs no heap allocation.
use vstd::prelude::*;
use crate::error::messages::{
    ERR_DICT_KEYS_ORDER, ERR_DICT_KEY_MUST_BE_STRING, ERR_EMPTY_INPUT, ERR_INVALID_INTEGER,
    ERR_INVALID_STRING_LENGTH, ERR_STRING_TOO_SHORT, ERR_UNTERMINATED_DICTIONARY,
    ERR_UNTERMINATED_INTEGER, ERR_UNTERMINATED_LIST, FILE_NOT_FOUND, unexpected_character,
    unexpected_character_message,
};
use crate::text::{chars_of, chars_equal};

verus! {

/// The failures that parsing bencode and accessing files can end in.
#[derive(Debug, Clone, Copy, PartialEq, Eq, Structural)]
pub enum BencodeError {
    /// Input was empty or exhausted unexpectedly
    EmptyInput,
    /// Invalid integer format (e.g., non-numeric characters, -0, etc.)
    InvalidInteger,
    /// Integer not properly terminated with 'e'
    UnterminatedInteger,
    /// String length prefix is invalid or not a valid number
    InvalidStringLength,
    /// String content is shorter than declared length
    StringTooShort,
    /// List not properly terminated with 'e'
    UnterminatedList,
    /// Dictionary not properly terminated with 'e'
    UnterminatedDictionary,
    /// Dictionary keys must be in lexicographic order
    DictKeysOutOfOrder,
    /// Dictionary key must be a string type
    DictKeyMustBeString,
    /// Encountered an unexpected character (stores the character)
    UnexpectedCharacter(char),
    /// File not found (for std environments)
    FileNotFound,
    /// Generic IO error
    IoError,
}

impl BencodeError {
    /// The fixed description of each error.
    pub open spec fn spec_as_str(self) -> Seq<char> {
        match self {
            BencodeError::EmptyInput => ERR_EMPTY_INPUT@,
            BencodeError::InvalidInteger => ERR_INVALID_INTEGER@,
            BencodeError::UnterminatedInteger => ERR_UNTERMINATED_INTEGER@,
            BencodeError::InvalidStringLength => ERR_INVALID_STRING_LENGTH@,
            BencodeError::StringTooShort => ERR_STRING_TOO_SHORT@,
            BencodeError::UnterminatedList => ERR_UNTERMINATED_LIST@,
            BencodeError::UnterminatedDictionary => ERR_UNTERMINATED_DICTIONARY@,
            BencodeError::DictKeysOutOfOrder => ERR_DICT_KEYS_ORDER@,
            BencodeError::DictKeyMustBeString => ERR_DICT_KEY_MUST_BE_STRING@,
            BencodeError::UnexpectedCharacter(_) => "Unexpected character"@,
            BencodeError::FileNotFound => FILE_NOT_FOUND@,
            BencodeError::IoError => "IO error"@,
        }
    }

    /// The text an error is displayed with: its description, or for an unexpected
    /// character the description followed by `": "` and the character.
    pub open spec fn message(self) -> Seq<char> {
        match self {
            BencodeError::UnexpectedCharacter(c) => unexpected_character_message(c),
            _ => self.spec_as_str(),
        }
    }

    /// The numeric code of each error.
    pub open spec fn spec_code(self) -> u8 {
        match self {
            BencodeError::EmptyInput => 1,
            BencodeError::InvalidInteger => 2,
            BencodeError::UnterminatedInteger => 3,
            BencodeError::InvalidStringLength => 4,
            BencodeError::StringTooShort => 5,
            BencodeError::UnterminatedList => 6,
            BencodeError::UnterminatedDictionary => 7,
            BencodeError::DictKeysOutOfOrder => 8,
            BencodeError::DictKeyMustBeString => 9,
            BencodeError::UnexpectedCharacter(_) => 10,
            BencodeError::FileNotFound => 11,
            BencodeError::IoError => 12,
        }
    }

    /// Returns a static string describing the error.
    pub fn as_str(&self) -> (r: &'static str)
        ensures
            r@ == self.spec_as_str(),
    {
        match self {
            BencodeError::EmptyInput => ERR_EMPTY_INPUT,
            BencodeError::InvalidInteger => ERR_INVALID_INTEGER,
            BencodeError::UnterminatedInteger => ERR_UNTERMINATED_INTEGER,
            BencodeError::InvalidStringLength => ERR_INVALID_STRING_LENGTH,
            BencodeError::StringTooShort => ERR_STRING_TOO_SHORT,
            BencodeError::UnterminatedList => ERR_UNTERMINATED_LIST,
            BencodeError::UnterminatedDictionary => ERR_UNTERMINATED_DICTIONARY,
            BencodeError::DictKeysOutOfOrder => ERR_DICT_KEYS_ORDER,
            BencodeError::DictKeyMustBeString => ERR_DICT_KEY_MUST_BE_STRING,
            BencodeError::UnexpectedCharacter(_) => "Unexpected character",
            BencodeError::FileNotFound => FILE_NOT_FOUND,
            BencodeError::IoError => "IO error",
        }
    }

    /// Returns the error code as a u8 for compact error reporting.
    pub fn code(&self) -> (r: u8)
        ensures
            r == self.spec_code(),
    {
        match self {
            BencodeError::EmptyInput => 1,
            BencodeError::InvalidInteger => 2,
            BencodeError::UnterminatedInteger => 3,
            BencodeError::InvalidStringLength => 4,
            BencodeError::StringTooShort => 5,
            BencodeError::UnterminatedList => 6,
            BencodeError::UnterminatedDictionary => 7,
            BencodeError::DictKeysOutOfOrder => 8,
            BencodeError::DictKeyMustBeString => 9,
            BencodeError::UnexpectedCharacter(_) => 10,
            BencodeError::FileNotFound => 11,
            BencodeError::IoError => 12,
        }
    }

    /// The text of the error, as a `String`.
    pub fn to_string(&self) -> (r: String)
        ensures
            r@ == self.message(),
    {
        match self {
            BencodeError::UnexpectedCharacter(c) => unexpected_character(*c),
            _ => self.as_str().to_owned(),
        }
    }

    /// The error that a message names: the variant whose description equals `s`,
    /// and `IoError` for any other text.
    pub open spec fn spec_from_message(s: Seq<char>) -> BencodeError {
        if s == ERR_EMPTY_INPUT@ {
            BencodeError::EmptyInput
        } else if s == ERR_INVALID_INTEGER@ {
            BencodeError::InvalidInteger
        } else if s == ERR_UNTERMINATED_INTEGER@ {
            BencodeError::UnterminatedInteger
        } else if s == ERR_INVALID_STRING_LENGTH@ {
            BencodeError::InvalidStringLength
        } else if s == ERR_STRING_TOO_SHORT@ {
            BencodeError::StringTooShort
        } else if s == ERR_UNTERMINATED_LIST@ {
            BencodeError::UnterminatedList
        } else if s == ERR_UNTERMINATED_DICTIONARY@ {
            BencodeError::UnterminatedDictionary
        } else if s == ERR_DICT_KEYS_ORDER@ {
            BencodeError::DictKeysOutOfOrder
        } else if s == ERR_DICT_KEY_MUST_BE_STRING@ {
            BencodeError::DictKeyMustBeString
        } else if s == FILE_NOT_FOUND@ {
            BencodeError::FileNotFound
        } else {
            BencodeError::IoError
        }
    }

    /// Maps a message back to its error.
    pub fn from_message(s: &str) -> (r: BencodeError)
        ensures
            r == Self::spec_from_message(s@),
    {
        let c = chars_of(s);
        if chars_equal(c.as_slice(), chars_of(ERR_EMPTY_INPUT).as_slice()) {
            BencodeError::EmptyInput
        } else if chars_equal(c.as_slice(), chars_of(ERR_INVALID_INTEGER).as_slice()) {
            BencodeError::InvalidInteger
        } else if chars_equal(c.as_slice(), chars_of(ERR_UNTERMINATED_INTEGER).as_slice()) {
            BencodeError::UnterminatedInteger
        } else if chars_equal(c.as_slice(), chars_of(ERR_INVALID_STRING_LENGTH).as_slice()) {
            BencodeError::InvalidStringLength
        } else if chars_equal(c.as_slice(), chars_of(ERR_STRING_TOO_SHORT).as_slice()) {
            BencodeError::StringTooShort
        } else if chars_equal(c.as_slice(), chars_of(ERR_UNTERMINATED_LIST).as_slice()) {
            BencodeError::UnterminatedList
        } else if chars_equal(c.as_slice(), chars_of(ERR_UNTERMINATED_DICTIONARY).as_slice()) {
            BencodeError::UnterminatedDictionary
        } else if chars_equal(c.as_slice(), chars_of(ERR_DICT_KEYS_ORDER).as_slice()) {
            BencodeError::DictKeysOutOfOrder
        } else if chars_equal(c.as_slice(), chars_of(ERR_DICT_KEY_MUST_BE_STRING).as_slice()) {
            BencodeError::DictKeyMustBeString
        } else if chars_equal(c.as_slice(), chars_of(FILE_NOT_FOUND).as_slice()) {
            BencodeError::FileNotFound
        } else {
            BencodeError::IoError
        }
    }
}

impl From<String> for BencodeError {
    fn from(s: String) -> (r: BencodeError) {
        BencodeError::from_message(s.as_str())
    }
}

impl vstd::std_specs::convert::FromSpecImpl<String> for BencodeError {
    open spec fn obeys_from_spec() -> bool {
        true
    }

    open spec fn from_spec(v: String) -> BencodeError {
        BencodeError::spec_from_message(v@)
    }
}

impl From<&str> for BencodeError {
    fn from(s: &str) -> (r: BencodeError) {
        BencodeError::from_message(s)
    }
}

impl vstd::std_specs::convert::FromSpecImpl<&str> for BencodeError {
    open spec fn obeys_from_spec() -> bool {
        true
    }

    open spec fn from_spec(v: &str) -> BencodeError {
        BencodeError::spec_from_message(v@)
    }
}

impl From<BencodeError> for String {
    fn from(e: BencodeError) -> (r: String)
        ensures
            r@ == e.message(),
    {
        e.to_string()
    }
}

impl vstd::std_specs::convert::FromSpecImpl<BencodeError> for String {
    open spec fn obeys_from_spec() -> bool {
        false
    }

    open spec fn from_spec(v: BencodeError) -> String {
        arbitrary()
    }
}

} // verus!
