//! Field parser: `[annotations] type_ref identifier ";"`.
use vstd::prelude::*;

use super::annotation::parse_annotation;
use super::grammar::{g_annotations, g_field, g_fields, g_type_gap, CharClass};
use super::type_ref::parse_type_ref;
use super::util::{
    advances, agrees, class_contains, identifier, in_ws_char, opt_pos, ws0, Source,
};
use crate::ast::{annotations_view, fields_view, Annotation, AnnotationModel, Field, FieldModel};

verus! {

/// Annotations, each followed by optional whitespace and comments.
fn parse_field_annotations(src: &Source, p: usize) -> (r: (Vec<Annotation>, usize))
    requires
        src.wf(),
        p <= src.s().len(),
    ensures
        g_annotations(src.s(), p as int, Seq::empty()) == Some(
            (annotations_view(r.0@), r.1 as int),
        ),
        p <= r.1 <= src.s().len(),
{
    let s = src.chars.as_slice();
    let mut anns: Vec<Annotation> = Vec::new();
    let mut i = p;
    proof {
        assert(annotations_view(anns@) =~= Seq::<AnnotationModel>::empty());
    }
    loop
        invariant
            src.wf(),
            s@ == src.s(),
            p <= i <= s@.len(),
            g_annotations(src.s(), p as int, Seq::empty()) == g_annotations(
                src.s(),
                i as int,
                annotations_view(anns@),
            ),
        decreases s@.len() - i,
    {
        match parse_annotation(src, i) {
            Some((a, q)) => {
                let r = ws0(s, q);
                let ghost old_anns = anns@;
                anns.push(a);
                proof {
                    assert(annotations_view(anns@) =~= annotations_view(old_anns).push(
                        anns@.last()@,
                    ));
                }
                i = r;
            },
            None => {
                return (anns, i);
            },
        }
    }
}

/// The position of a field's name after its type, from `a` to `b`: past
/// whitespace and comments, of which there must be some, here or just
/// behind `b`.
fn type_gap(s: &[char], a: usize, b: usize) -> (r: Option<usize>)
    requires
        b <= s@.len(),
    ensures
        opt_pos(r) == g_type_gap(s@, a as int, b as int),
        r matches Some(c) ==> b <= c <= s@.len(),
{
    let c = ws0(s, b);
    if b < c || (a < b && class_contains(s[b - 1], CharClass::Space)) {
        Some(c)
    } else {
        None
    }
}

/// Parse a single field definition.
pub fn parse_field(src: &Source, p: usize) -> (r: Option<(Field, usize)>)
    requires
        src.wf(),
        p <= src.s().len(),
    ensures
        agrees(r, g_field(src.s(), p as int)),
        advances(r, p, src.s().len() as int),
{
    let s = src.chars.as_slice();
    let (annotations, a) = parse_field_annotations(src, p);
    let (field_type, b) = parse_type_ref(src, a)?;
    let c = type_gap(s, a, b)?;
    let d = identifier(s, c)?;
    let e = in_ws_char(s, d, ';')?;
    let name = src.slice(c, d);
    Some((Field { annotations, field_type, name }, e))
}

/// Zero or more fields.
pub fn parse_fields(src: &Source, p: usize) -> (r: (Vec<Field>, usize))
    requires
        src.wf(),
        p <= src.s().len(),
    ensures
        g_fields(src.s(), p as int, Seq::empty()) == Some((fields_view(r.0@), r.1 as int)),
        p <= r.1 <= src.s().len(),
{
    let mut fields: Vec<Field> = Vec::new();
    let mut i = p;
    proof {
        assert(fields_view(fields@) =~= Seq::<FieldModel>::empty());
    }
    loop
        invariant
            src.wf(),
            p <= i <= src.s().len(),
            g_fields(src.s(), p as int, Seq::empty()) == g_fields(
                src.s(),
                i as int,
                fields_view(fields@),
            ),
        decreases src.s().len() - i,
    {
        match parse_field(src, i) {
            Some((f, q)) => {
                let ghost old_fields = fields@;
                fields.push(f);
                proof {
                    assert(fields_view(fields@) =~= fields_view(old_fields).push(fields@.last()@));
                }
                i = q;
            },
            None => {
                return (fields, i);
            },
        }
    }
}

} // verus!
