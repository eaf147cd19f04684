//! Bitset definition parser: `bitset name { bitfield<N> name;* }`.
use vstd::prelude::*;

use super::grammar::{g_bitfield_def, g_bitfields, g_bitset};
use super::struct_type::parse_header;
use super::util::{
    advances, agrees, identifier, in_ws_char, integer, kw_bitfield, kw_bitset, match_char,
    match_tag, multispace1, Source,
};
use crate::ast::{bitfields_view, BitSet, BitSetField, BitSetFieldModel};

verus! {

/// Parse a bitset definition.
pub fn parse_bitset(src: &Source, p: usize) -> (r: Option<(BitSet, usize)>)
    requires
        src.wf(),
        p <= src.s().len(),
    ensures
        agrees(r, g_bitset(src.s(), p as int)),
        advances(r, p, src.s().len() as int),
{
    proof {
        reveal(g_bitset);
    }
    let s = src.chars.as_slice();
    let (a, b, c) = parse_header(s, p, kw_bitset())?;
    let (fields, d) = parse_bitfield_defs(src, c);
    let e = in_ws_char(s, d, '}')?;
    Some((BitSet { name: src.slice(a, b), fields }, e))
}

/// Zero or more bitfield definitions.
fn parse_bitfield_defs(src: &Source, p: usize) -> (r: (Vec<BitSetField>, usize))
    requires
        src.wf(),
        p <= src.s().len(),
    ensures
        g_bitfields(src.s(), p as int, Seq::empty()) == Some((bitfields_view(r.0@), r.1 as int)),
        p <= r.1 <= src.s().len(),
{
    let mut fields: Vec<BitSetField> = Vec::new();
    let mut i = p;
    proof {
        assert(bitfields_view(fields@) =~= Seq::<BitSetFieldModel>::empty());
    }
    loop
        invariant
            src.wf(),
            p <= i <= src.s().len(),
            g_bitfields(src.s(), p as int, Seq::empty()) == g_bitfields(
                src.s(),
                i as int,
                bitfields_view(fields@),
            ),
        decreases src.s().len() - i,
    {
        match parse_bitfield_def(src, i) {
            Some((f, q)) => {
                let ghost old_fields = fields@;
                fields.push(f);
                proof {
                    assert(bitfields_view(fields@) =~= bitfields_view(old_fields).push(
                        fields@.last()@,
                    ));
                }
                i = q;
            },
            None => {
                return (fields, i);
            },
        }
    }
}

/// Parse a single bitfield definition: `bitfield<N> name;`.
fn parse_bitfield_def(src: &Source, p: usize) -> (r: Option<(BitSetField, usize)>)
    requires
        src.wf(),
        p <= src.s().len(),
    ensures
        agrees(r, g_bitfield_def(src.s(), p as int)),
        advances(r, p, src.s().len() as int),
{
    let s = src.chars.as_slice();
    let a = match_tag(s, p, kw_bitfield())?;
    let b0 = in_ws_char(s, a, '<')?;
    let (width, b1) = integer(s, b0)?;
    let b = match_char(s, b1, '>')?;
    let c = multispace1(s, b)?;
    let d = identifier(s, c)?;
    let e = in_ws_char(s, d, ';')?;
    Some((BitSetField { width: (width % 256) as u8, name: src.slice(c, d) }, e))
}

} // verus!
