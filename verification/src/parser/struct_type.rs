//! Struct definition parser: `struct name { field* }`.
use vstd::prelude::*;

use super::field::parse_fields;
use super::grammar::{g_header, g_struct};
use super::util::{advances, agrees, identifier, in_ws_char, match_tag, kw_struct, ws0, ws1, Source};
use crate::ast::Struct;

verus! {

/// `keyword name {`: returns the name's bounds and the position after `{`.
pub fn parse_header(s: &[char], p: usize, keyword: &[char]) -> (r: Option<(usize, usize, usize)>)
    requires
        p <= s@.len(),
    ensures
        match r {
            Some((a, b, c)) => g_header(s@, p as int, keyword@) == Some((a as int, b as int, c as int))
                && p < a < b < c <= s@.len(),
            None => g_header(s@, p as int, keyword@) is None,
        },
{
    let k = ws0(s, p);
    let a = match_tag(s, k, keyword)?;
    let b = ws1(s, a)?;
    let c = identifier(s, b)?;
    let d = in_ws_char(s, c, '{')?;
    Some((b, c, d))
}

/// Parse a struct definition.
pub fn parse_struct(src: &Source, p: usize) -> (r: Option<(Struct, usize)>)
    requires
        src.wf(),
        p <= src.s().len(),
    ensures
        agrees(r, g_struct(src.s(), p as int)),
        advances(r, p, src.s().len() as int),
{
    proof {
        reveal(g_struct);
    }
    let s = src.chars.as_slice();
    let (a, b, c) = parse_header(s, p, kw_struct())?;
    let (fields, d) = parse_fields(src, c);
    let e = in_ws_char(s, d, '}')?;
    Some((Struct { name: src.slice(a, b), fields }, e))
}

} // verus!
