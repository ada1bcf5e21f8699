# bencode_lib

A library for Bencode, the encoding of BitTorrent metadata files, written in Verus: each
function carries a contract, and Verus proves that the code meets it.

## Layout

- `src/nodes/`: `Node`, the parsed tree, with `Dict`, a dictionary whose keys are always in strictly
  increasing order (an invariant of the type); typed access to a node and its human-readable form; conversions from
  plain values; `BorrowedNode`, a tree whose strings borrow from the input.
- `src/parser/`: the recursive parser (`default`), whose specification `spec_parse` defines
  what bencode bytes mean; an iterative parser proved to give exactly the same results; a
  borrowing parser; and a lenient stack-based parser (`non_recursive`).
- `src/stringify/`: writers to bencode, JSON, XML, YAML and TOML, each specified byte for byte.
- `src/io/`: in-memory sources and destinations and the traits they implement.
- `src/error/`: the error type and its messages.
- `src/memory.rs`, `src/config.rs`, `src/misc.rs`: a memory tracker, an arena, a bounded
  buffer, parser and encoder settings, the version.
- `src/laws.rs`: properties that relate several functions, such as that parsing the bencode
  form of a value gives the value back.
- `app/`: file-backed sources and destinations and whole-file reading and writing, which
  need the file system.

## Checking

The library verifies with Verus; `tests/` holds behaviour tests of the public API and tests of
the contracts on concrete values.
