# idl_parser_rs

An OMG IDL parser and binary decoder, verified with Verus.

1. **Parse** OMG IDL text into an AST (modules, structs, basic types, arrays,
   sequences, strings, bitsets, annotations): `parse_idl`.
2. **Decode** binary data according to a parsed schema into typed values:
   `decoder::Decoder::decode` and, for packets of frames,
   `decoder::Decoder::decode_packet`.

## Layout

- `src/ast.rs` — the AST and its mathematical models (views).
- `src/parser/grammar.rs` — the accepted language, as spec functions from
  text and a position to a model and the position after it; the modules
  beside it parse and are proved to follow it.
- `src/decoder/model.rs` — what decoding means, as spec functions from a
  configuration, a module model and bytes to value models or an error with
  its message;
  `codec.rs`, `string.rs` and `mod.rs` decode and are proved to follow it.
- `src/decoder/laws.rs`, `src/parser/laws.rs` — properties that hold for all
  inputs: decoded structs behave as maps with one entry per field name, in
  declaration order; byte order; octet sequences are raw bytes; padding
  aligns and padding twice skips nothing more; the header is never read;
  a leading root-module segment of a schema id is optional; UTF-16 text
  round-trips; a valid configuration is never refused later; a packet
  decodes as its struct does, and every frame carries the `@format`
  annotation; the last annotation pair wins; whitespace and comments before
  the module are ignored.
- `src/text.rs` — character helpers and the two calls into `std` whose
  contracts are trusted (`String::from_utf8`, `String::from_utf16`).
- `app/lib.rs` — `Display`/`Error` for the errors, and decoded values with
  floating-point numbers and hash maps.

Floats are carried by the library as their IEEE-754 bit patterns
(`Value::F32(u32)`, `Value::F64(u64)`). A decode that could never finish (a
struct that contains itself at the same input position, or sequence elements
that consume no input) ends with `DecoderError::InvalidData`.
