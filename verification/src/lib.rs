//! OMG IDL parser and binary decoder.
//!
//! [`parse_idl`] turns IDL text into a [`ast::Module`]; the decoder reads
//! binary data laid out as the module's structs describe.
use vstd::prelude::*;

pub mod ast;
pub mod decoder;
pub mod parser;
pub mod text;

use parser::grammar::g_idl;
use parser::parse_error_message;

verus! {

/// Parse IDL source code into a Module AST.
///
/// This is the main entry point for parsing OMG IDL text.
pub fn parse_idl(input: &str) -> (r: Result<ast::Module, parser::ParseError>)
    ensures
        r is Ok <==> g_idl(input@) is Some,
        r matches Ok(m) ==> g_idl(input@) == Some(m@),
        r matches Err(e) ==> e.message@ == parse_error_message(input@),
{
    parser::parse_idl(input)
}

} // verus!
