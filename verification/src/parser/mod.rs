//! IDL parser: a recursive-descent parser for the supported subset of
//! OMG IDL, proved against the grammar in [`grammar`].
//!
//! Grammar (supported subset):
//! ```text
//! module       ::= "module" identifier "{" module_content* "}"
//! module_content ::= module | struct_def | bitset_def
//! struct_def   ::= "struct" identifier "{" field* "}"
//! field        ::= annotation* type_ref identifier ";"
//! bitset_def   ::= "bitset" identifier "{" bitfield_def* "}"
//! bitfield_def ::= "bitfield" "<" integer ">" identifier ";"
//!
//! type_ref     ::= array_type | base_type
//! array_type   ::= base_type "[" integer "]"
//! base_type    ::= sequence_type | primitive_types | string_type | bitfield_type | type_name
//! sequence_type ::= "sequence" "<" type_ref ">"
//! string_type  ::= "string" | "string" "<" integer ">"
//! bitfield_type ::= "bitfield" "<" integer ">"
//! type_name    ::= identifier
//! ```
use vstd::prelude::*;
use vstd::string::*;
use vstd::utf8::{decode_utf8, encode_utf8, is_char_boundary};

pub mod annotation;
pub mod bitset;
pub mod field;
pub mod grammar;
pub mod laws;
pub mod module;
pub mod struct_type;
pub mod type_ref;
pub mod util;

use crate::ast::Module;
use crate::text::owned;
use grammar::{g_idl, trailing_start};
use module::parse_module;
use util::{ws0, Source};

verus! {

/// Parse error type.
#[derive(Debug)]
pub struct ParseError {
    pub message: String,
}

impl ParseError {
    /// The error as text: `parse error: ` followed by the message.
    pub fn to_display_string(&self) -> (r: String)
        ensures
            r@ == seq!['p', 'a', 'r', 's', 'e', ' ', 'e', 'r', 'r', 'o', 'r', ':', ' '] + self.message@,
    {
        let mut r = String::from_str("parse error: ");
        proof {
            reveal_strlit("parse error: ");
        }
        r.append(self.message.as_str());
        r
    }
}

/// The bytes of `s` that the trailing-input message quotes: its first 50
/// bytes in UTF-8 (all of them when there are fewer), or all of `s` when
/// the 50th byte falls inside a character.
pub open spec fn preview_bytes(s: Seq<char>) -> Seq<u8> {
    let b = encode_utf8(s);
    let k = if b.len() < 50 {
        b.len() as int
    } else {
        50int
    };
    if is_char_boundary(b, k) {
        b.take(k)
    } else {
        b
    }
}

/// The message of the error for a text that is not one module followed by
/// whitespace and comments.
pub open spec fn parse_error_message(s: Seq<char>) -> Seq<char> {
    match trailing_start(s) {
        Some(q) => "trailing input: '"@ + decode_utf8(preview_bytes(s.subrange(q, s.len() as int)))
            + "'"@,
        None => "input is not a module definition"@,
    }
}

/// `trailing input: '...'` quoting the first 50 bytes of `rest` (all of
/// it when it is shorter).
fn trailing_message(rest: &str) -> (r: String)
    ensures
        r@ == "trailing input: '"@ + decode_utf8(preview_bytes(rest@)) + "'"@,
{
    let n = rest.as_bytes().len();
    let cut = if n < 50 {
        n
    } else {
        50
    };
    let ghost b = encode_utf8(rest@);
    assert(b.len() == n);
    let head = if rest.is_char_boundary(cut) {
        let h = rest.split_at(cut).0;
        assert(b.take(cut as int) =~= b.subrange(0, cut as int));
        assert(encode_utf8(h@) == preview_bytes(rest@));
        h
    } else {
        assert(encode_utf8(rest@) == preview_bytes(rest@));
        rest
    };
    proof {
        vstd::utf8::encode_utf8_decode_utf8(head@);
    }
    let mut message = String::from_str("trailing input: '");
    message.append(head);
    message.append("'");
    message
}

/// Parse an IDL string into a Module AST.
///
/// Returns `ParseError` if the input cannot be parsed, including trailing
/// input after the module definition other than whitespace and comments.
/// The message of that error quotes the first 50 bytes of the trailing
/// input.
pub fn parse_idl(input: &str) -> (r: Result<Module, ParseError>)
    ensures
        r is Ok <==> g_idl(input@) is Some,
        r matches Ok(m) ==> g_idl(input@) == Some(m@),
        r matches Err(e) ==> e.message@ == parse_error_message(input@),
{
    let src = Source::new(input);
    let s = src.chars.as_slice();
    let (module, p) = match parse_module(&src, 0) {
        Some(x) => x,
        None => {
            return Err(ParseError { message: owned("input is not a module definition") });
        },
    };
    let q = ws0(s, p);
    if q < s.len() {
        let rest = input.substring_char(q, s.len());
        return Err(ParseError { message: trailing_message(rest) });
    }
    Ok(module)
}

} // verus!
