//! Type parsers: `type_ref`, base types, `sequence<T>`, `string<N>`,
//! `bitfield<N>` and type names.
//!
//! Alternatives are tried in order, and multi-word types before their
//! prefix words: `unsigned long long` before `unsigned long`, `long long`
//! before `long`.
use vstd::prelude::*;

use super::grammar;
use super::grammar::{
    g_angle_integer, g_array_suffix, g_array_suffixes, g_base_token, g_base_type, g_bitfield_type, g_primitive, g_sequence,
    g_string_type, g_two_words, g_type_name, g_type_ref,
};
use super::util::{
    advances, agrees, identifier, in_ws_char, integer, kw_bitfield, kw_boolean, kw_double,
    kw_float, kw_long, kw_octet, kw_sequence, kw_short, kw_string, kw_unsigned, match_char,
    match_keyword, opt_pos, ws0, ws1, Source,
};
use crate::ast::TypeRef;

verus! {

/// `first`, whitespace or comments, `second`.
fn two_words(s: &[char], p: usize, first: &[char], second: &[char]) -> (r: Option<usize>)
    requires
        p <= s@.len(),
    ensures
        opt_pos(r) == g_two_words(s@, p as int, first@, second@),
        r matches Some(q) ==> p < q <= s@.len(),
{
    let a = match_keyword(s, p, first)?;
    let b = ws1(s, a)?;
    match_keyword(s, b, second)
}

fn parse_unsigned_long_long(s: &[char], p: usize) -> (r: Option<usize>)
    requires
        p <= s@.len(),
    ensures
        r matches Some(q) ==> p < q <= s@.len(),
        opt_pos(r) == (match g_two_words(s@, p as int, grammar::kw_unsigned(), grammar::kw_long()) {
            Some(a) => match grammar::g_ws1(s@, a) {
                Some(b) => grammar::g_keyword(s@, b, grammar::kw_long()),
                None => None,
            },
            None => None,
        }),
{
    let a = two_words(s, p, kw_unsigned(), kw_long())?;
    let b = ws1(s, a)?;
    match_keyword(s, b, kw_long())
}

fn parse_unsigned_long(s: &[char], p: usize) -> (r: Option<usize>)
    requires
        p <= s@.len(),
    ensures
        opt_pos(r) == g_two_words(s@, p as int, grammar::kw_unsigned(), grammar::kw_long()),
        r matches Some(q) ==> p < q <= s@.len(),
{
    two_words(s, p, kw_unsigned(), kw_long())
}

fn parse_long_long(s: &[char], p: usize) -> (r: Option<usize>)
    requires
        p <= s@.len(),
    ensures
        opt_pos(r) == g_two_words(s@, p as int, grammar::kw_long(), grammar::kw_long()),
        r matches Some(q) ==> p < q <= s@.len(),
{
    two_words(s, p, kw_long(), kw_long())
}

fn parse_unsigned_short(s: &[char], p: usize) -> (r: Option<usize>)
    requires
        p <= s@.len(),
    ensures
        opt_pos(r) == g_two_words(s@, p as int, grammar::kw_unsigned(), grammar::kw_short()),
        r matches Some(q) ==> p < q <= s@.len(),
{
    two_words(s, p, kw_unsigned(), kw_short())
}

/// The primitive type keywords.
fn parse_primitive(s: &[char], p: usize) -> (r: Option<(TypeRef, usize)>)
    requires
        p <= s@.len(),
    ensures
        agrees(r, g_primitive(s@, p as int)),
        advances(r, p, s@.len() as int),
{
    if let Some(q) = parse_unsigned_long_long(s, p) {
        return Some((TypeRef::UnsignedLongLong, q));
    }
    if let Some(q) = parse_unsigned_long(s, p) {
        return Some((TypeRef::UnsignedLong, q));
    }
    if let Some(q) = parse_long_long(s, p) {
        return Some((TypeRef::LongLong, q));
    }
    if let Some(q) = parse_unsigned_short(s, p) {
        return Some((TypeRef::UnsignedShort, q));
    }
    if let Some(q) = match_keyword(s, p, kw_long()) {
        return Some((TypeRef::Long, q));
    }
    if let Some(q) = match_keyword(s, p, kw_octet()) {
        return Some((TypeRef::Octet, q));
    }
    if let Some(q) = match_keyword(s, p, kw_short()) {
        return Some((TypeRef::Short, q));
    }
    if let Some(q) = match_keyword(s, p, kw_double()) {
        return Some((TypeRef::Double, q));
    }
    if let Some(q) = match_keyword(s, p, kw_float()) {
        return Some((TypeRef::Float, q));
    }
    if let Some(q) = match_keyword(s, p, kw_boolean()) {
        return Some((TypeRef::Boolean, q));
    }
    None
}

/// `<` integer `>`.
fn parse_angle_integer(s: &[char], p: usize) -> (r: Option<(u32, usize)>)
    requires
        p <= s@.len(),
    ensures
        match r {
            Some((n, q)) => g_angle_integer(s@, p as int) == Some((n, q as int)) && p < q
                <= s@.len(),
            None => g_angle_integer(s@, p as int) is None,
        },
{
    let a = in_ws_char(s, p, '<')?;
    let (n, b) = integer(s, a)?;
    let c = match_char(s, b, '>')?;
    Some((n, c))
}

/// Parse a string type: `string` or `string<N>`.
fn parse_string_inner(s: &[char], p: usize) -> (r: Option<(TypeRef, usize)>)
    requires
        p <= s@.len(),
    ensures
        agrees(r, g_string_type(s@, p as int)),
        advances(r, p, s@.len() as int),
{
    let a = match_keyword(s, p, kw_string())?;
    match parse_angle_integer(s, a) {
        Some((n, b)) => Some((TypeRef::String { length: Some(n) }, b)),
        None => Some((TypeRef::String { length: None }, a)),
    }
}

/// `bitfield<N>`; the width keeps the low eight bits of `N`.
fn parse_bitfield_base(s: &[char], p: usize) -> (r: Option<(TypeRef, usize)>)
    requires
        p <= s@.len(),
    ensures
        agrees(r, g_bitfield_type(s@, p as int)),
        advances(r, p, s@.len() as int),
{
    let a = match_keyword(s, p, kw_bitfield())?;
    let (n, b) = parse_angle_integer(s, a)?;
    Some((TypeRef::BitField { width: (n % 256) as u8 }, b))
}

/// Any identifier, as a reference to a user-defined type.
fn parse_type_name_base(src: &Source, p: usize) -> (r: Option<(TypeRef, usize)>)
    requires
        src.wf(),
        p <= src.s().len(),
    ensures
        agrees(r, g_type_name(src.s(), p as int)),
        advances(r, p, src.s().len() as int),
{
    let q = identifier(src.chars.as_slice(), p)?;
    Some((TypeRef::TypeName { name: src.slice(p, q) }, q))
}

/// `[N]` right after a base type.
fn parse_array_suffix(s: &[char], p: usize) -> (r: Option<(u32, usize)>)
    requires
        p <= s@.len(),
    ensures
        match r {
            Some((n, q)) => g_array_suffix(s@, p as int) == Some((n, q as int)) && p < q
                <= s@.len(),
            None => g_array_suffix(s@, p as int) is None,
        },
{
    let a = match_char(s, p, '[')?;
    let (n, b) = integer(s, a)?;
    let c = match_char(s, b, ']')?;
    Some((n, c))
}

/// Parse a type_ref: a base type with the whitespace after it, then any
/// number of `[N]` array suffixes, each wrapping the type so far.
pub fn parse_type_ref(src: &Source, p: usize) -> (r: Option<(TypeRef, usize)>)
    requires
        src.wf(),
        p <= src.s().len(),
    ensures
        agrees(r, g_type_ref(src.s(), p as int)),
        advances(r, p, src.s().len() as int),
    decreases src.s().len() - p, 3int,
{
    let (base, q) = parse_base_type(src, p)?;
    let s = src.chars.as_slice();
    let mut t = base;
    let mut cur = q;
    while cur < s.len()
        invariant
            src.wf(),
            s@ == src.s(),
            p < q <= cur <= s@.len(),
            g_type_ref(src.s(), p as int) == Some(g_array_suffixes(s@, cur as int, t@)),
        ensures
            g_type_ref(src.s(), p as int) == Some(g_array_suffixes(s@, cur as int, t@)),
            g_array_suffixes(s@, cur as int, t@) == (t@, cur as int),
            p < cur <= s@.len(),
        decreases s@.len() - cur,
    {
        match parse_array_suffix(s, cur) {
            Some((size, r)) => {
                t = TypeRef::Array { inner: Box::new(t), size };
                cur = r;
            },
            None => {
                break;
            },
        }
    }
    Some((t, cur))
}

/// Parse a base type (without array suffix) and the whitespace and
/// comments after it.
pub fn parse_base_type(src: &Source, p: usize) -> (r: Option<(TypeRef, usize)>)
    requires
        src.wf(),
        p <= src.s().len(),
    ensures
        agrees(r, g_base_type(src.s(), p as int)),
        advances(r, p, src.s().len() as int),
    decreases src.s().len() - p, 2int,
{
    let (t, q) = parse_base_token(src, p)?;
    let s = src.chars.as_slice();
    let w = ws0(s, q);
    Some((t, w))
}

/// The text of a base type.
fn parse_base_token(src: &Source, p: usize) -> (r: Option<(TypeRef, usize)>)
    requires
        src.wf(),
        p <= src.s().len(),
    ensures
        agrees(r, g_base_token(src.s(), p as int)),
        advances(r, p, src.s().len() as int),
    decreases src.s().len() - p, 1int,
{
    let s = src.chars.as_slice();
    if let Some(x) = parse_sequence_inner(src, p) {
        return Some(x);
    }
    if let Some(x) = parse_primitive(s, p) {
        return Some(x);
    }
    if let Some(x) = parse_string_inner(s, p) {
        return Some(x);
    }
    if let Some(x) = parse_bitfield_base(s, p) {
        return Some(x);
    }
    parse_type_name_base(src, p)
}

/// Parse a sequence type: `sequence<T>`.
pub fn parse_sequence_inner(src: &Source, p: usize) -> (r: Option<(TypeRef, usize)>)
    requires
        src.wf(),
        p <= src.s().len(),
    ensures
        agrees(r, g_sequence(src.s(), p as int)),
        advances(r, p, src.s().len() as int),
    decreases src.s().len() - p, 0int,
{
    let s = src.chars.as_slice();
    let a = match_keyword(s, p, kw_sequence())?;
    let b = in_ws_char(s, a, '<')?;
    let (inner, c) = parse_type_ref(src, b)?;
    let d = ws0(s, c);
    let e = match_char(s, d, '>')?;
    Some((TypeRef::Sequence { inner: Box::new(inner) }, e))
}

} // verus!
