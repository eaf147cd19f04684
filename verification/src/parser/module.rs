//! Module parser: the top-level `module name { content* }` rule.
use vstd::prelude::*;

use super::bitset::parse_bitset;
use super::grammar::{g_content, g_contents, g_module};
use super::struct_type::{parse_header, parse_struct};
use super::util::{advances, agrees, in_ws_char, kw_module, Source};
use crate::ast::{contents_model, lemma_contents_push, ContentModel, Module, ModuleContent};

verus! {

/// Parse a module definition (including nested modules).
pub fn parse_module(src: &Source, p: usize) -> (r: Option<(Module, usize)>)
    requires
        src.wf(),
        p <= src.s().len(),
    ensures
        agrees(r, g_module(src.s(), p as int)),
        advances(r, p, src.s().len() as int),
    decreases src.s().len() - p, 0int,
{
    let s = src.chars.as_slice();
    let (a, b, c) = parse_header(s, p, kw_module())?;
    let (content, d) = parse_module_contents(src, c)?;
    let e = in_ws_char(s, d, '}')?;
    Some((Module { name: src.slice(a, b), content }, e))
}

/// Parse module content: sub-module, struct, or bitset, optionally
/// terminated by `;`.
fn parse_module_content(src: &Source, p: usize) -> (r: Option<(ModuleContent, usize)>)
    requires
        src.wf(),
        p <= src.s().len(),
    ensures
        agrees(r, g_content(src.s(), p as int)),
        advances(r, p, src.s().len() as int),
    decreases src.s().len() - p, 1int,
{
    let s = src.chars.as_slice();
    let (content, q) = if let Some((st, q)) = parse_struct(src, p) {
        (ModuleContent::Struct(st), q)
    } else if let Some((b, q)) = parse_bitset(src, p) {
        (ModuleContent::BitSet(b), q)
    } else if let Some((m, q)) = parse_module(src, p) {
        (ModuleContent::Module(Box::new(m)), q)
    } else {
        return None;
    };
    match in_ws_char(s, q, ';') {
        Some(r) => Some((content, r)),
        None => Some((content, q)),
    }
}

/// Zero or more module contents.
fn parse_module_contents(src: &Source, p: usize) -> (r: Option<(Vec<ModuleContent>, usize)>)
    requires
        src.wf(),
        p <= src.s().len(),
    ensures
        match r {
            Some((v, q)) => g_contents(src.s(), p as int, Seq::empty()) == Some(
                (contents_model(v@), q as int),
            ) && p <= q <= src.s().len(),
            None => g_contents(src.s(), p as int, Seq::empty()) is None,
        },
    decreases src.s().len() - p, 2int,
{
    let mut content: Vec<ModuleContent> = Vec::new();
    let mut i = p;
    proof {
        assert(contents_model(content@) =~= Seq::<ContentModel>::empty());
    }
    loop
        invariant
            src.wf(),
            p <= i <= src.s().len(),
            g_contents(src.s(), p as int, Seq::empty()) == g_contents(
                src.s(),
                i as int,
                contents_model(content@),
            ),
        decreases src.s().len() - i,
    {
        match parse_module_content(src, i) {
            Some((c, q)) => {
                let ghost old_content = content@;
                content.push(c);
                proof {
                    lemma_contents_push(old_content, content@.last());
                    assert(content@ == old_content.push(content@.last()));
                }
                i = q;
            },
            None => {
                return Some((content, i));
            },
        }
    }
}

} // verus!
