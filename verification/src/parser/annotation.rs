//! Annotation parser: `@name` or `@name(k=v, ...)`.
use vstd::prelude::*;

use super::grammar::{
    g_annotation, g_kv_pair, g_kv_pairs, g_kv_rest, g_value, g_value_chars, lemma_scan, pairs_map,
    scan, CharClass,
};
use super::util::{class_contains, identifier, in_ws_char, match_char, opt_pos, scan_class, ws0, Source};
use crate::ast::{Annotation, AnnotationValues};

verus! {

/// The models of a list of key/value pairs.
pub open spec fn pairs_view(v: Seq<(String, String)>) -> Seq<(Seq<char>, Seq<char>)> {
    v.map_values(|kv: (String, String)| (kv.0@, kv.1@))
}

/// One or more characters allowed in a value: letters, digits, `.`, `/`, `_`.
fn parse_valid_chars(s: &[char], p: usize) -> (r: Option<usize>)
    requires
        p <= s@.len(),
    ensures
        opt_pos(r) == g_value_chars(s@, p as int),
        r matches Some(q) ==> p < q <= s@.len(),
{
    if p < s.len() && class_contains(s[p], CharClass::Value) {
        proof {
            assert(scan(s@, p as int, CharClass::Value) == scan(s@, p + 1, CharClass::Value));
            lemma_scan(s@, p + 1, CharClass::Value);
        }
        Some(scan_class(s, p, CharClass::Value))
    } else {
        None
    }
}

/// A value: either a quoted string or an unquoted token.
fn parse_value(src: &Source, p: usize) -> (r: Option<(String, usize)>)
    requires
        src.wf(),
        p <= src.s().len(),
    ensures
        match r {
            Some((v, q)) => g_value(src.s(), p as int) == Some((v@, q as int)) && p < q
                <= src.s().len(),
            None => g_value(src.s(), p as int) is None,
        },
{
    let s = src.chars.as_slice();
    if let Some(a) = match_char(s, p, '"') {
        let b = scan_class(s, a, CharClass::Value);
        if let Some(c) = match_char(s, b, '"') {
            return Some((src.slice(a, b), c));
        }
    }
    match parse_valid_chars(s, p) {
        Some(b) => Some((src.slice(p, b), b)),
        None => None,
    }
}

/// A single `key = value` pair.
fn parse_kv_pair(src: &Source, p: usize) -> (r: Option<((String, String), usize)>)
    requires
        src.wf(),
        p <= src.s().len(),
    ensures
        match r {
            Some((kv, q)) => g_kv_pair(src.s(), p as int) == Some(((kv.0@, kv.1@), q as int)) && p
                < q <= src.s().len(),
            None => g_kv_pair(src.s(), p as int) is None,
        },
{
    let s = src.chars.as_slice();
    let a = ws0(s, p);
    let b = identifier(s, a)?;
    let c = ws0(s, b);
    let d = in_ws_char(s, c, '=')?;
    let (v, e) = parse_value(src, d)?;
    let k = src.slice(a, b);
    Some(((k, v), e))
}

/// Comma-separated `key = value` pairs, possibly none.
fn parse_kv_pairs(src: &Source, p: usize) -> (r: (Vec<(String, String)>, usize))
    requires
        src.wf(),
        p <= src.s().len(),
    ensures
        g_kv_pairs(src.s(), p as int) == (pairs_view(r.0@), r.1 as int),
        p <= r.1 <= src.s().len(),
{
    let s = src.chars.as_slice();
    let mut pairs: Vec<(String, String)> = Vec::new();
    let (first, mut i) = match parse_kv_pair(src, p) {
        Some(x) => x,
        None => {
            assert(pairs_view(pairs@) =~= Seq::<(Seq<char>, Seq<char>)>::empty());
            return (pairs, p);
        },
    };
    pairs.push(first);
    proof {
        assert(pairs_view(pairs@) =~= seq![(pairs@[0].0@, pairs@[0].1@)]);
    }
    loop
        invariant
            src.wf(),
            s@ == src.s(),
            p < i <= s@.len(),
            g_kv_pairs(src.s(), p as int) == g_kv_rest(src.s(), i as int, pairs_view(pairs@)),
        decreases s@.len() - i,
    {
        let a = ws0(s, i);
        let b = match match_char(s, a, ',') {
            Some(b) => b,
            None => {
                return (pairs, i);
            },
        };
        match parse_kv_pair(src, b) {
            Some((kv, c)) => {
                let ghost old_pairs = pairs@;
                pairs.push(kv);
                proof {
                    assert(pairs_view(pairs@) =~= pairs_view(old_pairs).push(
                        (pairs@.last().0@, pairs@.last().1@),
                    ));
                }
                i = c;
            },
            None => {
                return (pairs, i);
            },
        }
    }
}

/// Parse a single annotation: `@name` or `@name(k=v, ...)`.
pub fn parse_annotation(src: &Source, p: usize) -> (r: Option<(Annotation, usize)>)
    requires
        src.wf(),
        p <= src.s().len(),
    ensures
        match r {
            Some((a, q)) => g_annotation(src.s(), p as int) == Some((a@, q as int)) && p < q
                <= src.s().len(),
            None => g_annotation(src.s(), p as int) is None,
        },
{
    let s = src.chars.as_slice();
    let a = match_char(s, p, '@')?;
    let b = identifier(s, a)?;
    let name = src.slice(a, b);
    if let Some(c) = in_ws_char(s, b, '(') {
        let (pairs, d) = parse_kv_pairs(src, c);
        if let Some(e) = in_ws_char(s, d, ')') {
            let values = collect_values(pairs);
            return Some((Annotation { name, values }, e));
        }
    }
    Some((Annotation { name, values: AnnotationValues::new() }, b))
}

/// The map of `pairs`, a later pair replacing an earlier one with its key.
fn collect_values(pairs: Vec<(String, String)>) -> (r: AnnotationValues)
    ensures
        r@ == pairs_map(pairs_view(pairs@)),
{
    let ghost pv = pairs_view(pairs@);
    let mut values = AnnotationValues::new();
    let mut rest = pairs;
    let mut i: usize = 0;
    let ghost all = rest@;
    proof {
        assert(pv.take(0) =~= Seq::<(Seq<char>, Seq<char>)>::empty());
        assert(all.len() == rest.len());
    }
    while rest.len() > 0
        invariant
            all.len() <= usize::MAX,
            pv == pairs_view(all),
            i + rest@.len() == all.len(),
            rest@ =~= all.subrange(i as int, all.len() as int),
            values@ == pairs_map(pv.take(i as int)),
        decreases rest@.len(),
    {
        let (k, v) = rest.remove(0);
        proof {
            assert(all[i as int].0@ == k@);
            assert(all[i as int].1@ == v@);
            assert(pv.take(i + 1).drop_last() =~= pv.take(i as int));
        }
        values.insert(k, v);
        i = i + 1;
    }
    proof {
        assert(pv.take(i as int) =~= pv);
    }
    values
}

} // verus!
