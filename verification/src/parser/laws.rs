//! Properties of parsing that hold for all inputs.
use vstd::prelude::*;

use super::grammar::{
    find_newline, g_angle_integer, g_annotation, g_annotations, g_array_suffix, g_array_suffixes,
    g_base_token, g_base_type, g_keyword, g_type_gap, g_typed_name,
    g_bitfield_def, g_bitfield_type, g_bitfields, g_bitset, g_char, g_comment, g_content,
    g_contents, g_field, g_fields, g_header, g_identifier, g_idl, g_in_ws_char, g_integer,
    g_kv_pair, g_kv_pairs, g_kv_rest, g_module, g_multispace1, g_primitive, g_sequence,
    g_string_type, g_struct, g_tag, g_two_words, g_type_name, g_type_ref, g_value, g_ws0, g_ws1,
    in_class, kw_bitfield, kw_bitset, kw_boolean, kw_double, kw_float, kw_long, kw_module,
    kw_octet, kw_sequence, kw_short, kw_string, kw_struct, kw_unsigned, lemma_find_newline,
    lemma_header, lemma_identifier, lemma_in_ws_char, lemma_kv_pair, lemma_scan, lemma_ws0,
    pairs_map, scan, CharClass,
};
use crate::ast::{AnnotationModel, BitSetFieldModel, ContentModel, FieldModel, TypeModel};

verus! {

/// The keys of an annotation's values are the keys of its pairs, and each
/// key holds the value of the last pair with that key.
pub proof fn law_last_pair_wins(pairs: Seq<(Seq<char>, Seq<char>)>, k: Seq<char>)
    ensures
        pairs_map(pairs).contains_key(k) <==> exists|j: int| 0 <= j < pairs.len() && pairs[j].0 == k,
        forall|j: int|
            0 <= j < pairs.len() && pairs[j].0 == k && (forall|t: int|
                j < t < pairs.len() ==> pairs[t].0 != k) ==> #[trigger] pairs[j].1 == pairs_map(
                pairs,
            )[k],
    decreases pairs.len(),
{
    if pairs.len() > 0 {
        let init = pairs.drop_last();
        law_last_pair_wins(init, k);
        if pairs.last().0 != k {
            assert forall|j: int| 0 <= j < init.len() && init[j].0 == k implies pairs[j].0 == k by {}
            assert forall|j: int| 0 <= j < pairs.len() && pairs[j].0 == k implies init[j].0 == k
                && j < init.len() by {}
            assert forall|j: int|
                0 <= j < pairs.len() && pairs[j].0 == k && (forall|t: int|
                    j < t < pairs.len() ==> pairs[t].0 != k) implies #[trigger] pairs[j].1
                == pairs_map(pairs)[k] by {
                assert(init[j] == pairs[j]);
                assert forall|t: int| j < t < init.len() implies init[t].0 != k by {
                    assert(init[t] == pairs[t]);
                }
            }
        } else {
            assert(pairs[pairs.len() - 1].0 == k);
        }
    }
}


// ---------------------------------------------------------------------------
// Leading whitespace and comments
// ---------------------------------------------------------------------------

/// A position result moved by `n`.
pub open spec fn shifted(o: Option<int>, n: int) -> Option<int> {
    match o {
        Some(q) => Some(q + n),
        None => None,
    }
}

/// A value-and-position result with the position moved by `n`.
pub open spec fn shifted_at<A>(o: Option<(A, int)>, n: int) -> Option<(A, int)> {
    match o {
        Some((a, q)) => Some((a, q + n)),
        None => None,
    }
}

proof fn sh_scan(w: Seq<char>, s: Seq<char>, p: int, k: CharClass)
    requires
        0 <= p,
    ensures
        scan(w + s, p + w.len(), k) == scan(s, p, k) + w.len(),
    decreases s.len() - p,
{
    if p < s.len() && in_class(s[p], k) {
        sh_scan(w, s, p + 1, k);
    }
}

proof fn sh_char(w: Seq<char>, s: Seq<char>, p: int, c: char)
    requires
        0 <= p,
    ensures
        g_char(w + s, p + w.len(), c) == shifted(g_char(s, p, c), w.len() as int),
{
}

proof fn sh_tag(w: Seq<char>, s: Seq<char>, p: int, t: Seq<char>)
    requires
        0 <= p,
    ensures
        g_tag(w + s, p + w.len(), t) == shifted(g_tag(s, p, t), w.len() as int),
{
    if p + t.len() <= s.len() {
        assert((w + s).subrange(p + w.len(), p + w.len() + t.len()) =~= s.subrange(p, p + t.len()));
    }
}

proof fn sh_keyword(w: Seq<char>, s: Seq<char>, p: int, t: Seq<char>)
    requires
        0 <= p,
    ensures
        g_keyword(w + s, p + w.len(), t) == shifted(g_keyword(s, p, t), w.len() as int),
{
    sh_tag(w, s, p, t);
}

proof fn sh_find_newline(w: Seq<char>, s: Seq<char>, p: int)
    requires
        0 <= p,
    ensures
        find_newline(w + s, p + w.len()) == shifted(find_newline(s, p), w.len() as int),
    decreases s.len() - p,
{
    if p < s.len() && s[p] != '\n' {
        sh_find_newline(w, s, p + 1);
    }
}

proof fn sh_comment(w: Seq<char>, s: Seq<char>, p: int)
    requires
        0 <= p,
    ensures
        g_comment(w + s, p + w.len()) == shifted(g_comment(s, p), w.len() as int),
{
    sh_tag(w, s, p, seq!['/', '/']);
    if let Some(q) = g_tag(s, p, seq!['/', '/']) {
        sh_find_newline(w, s, q);
    }
}

proof fn sh_ws0(w: Seq<char>, s: Seq<char>, p: int)
    requires
        0 <= p,
    ensures
        g_ws0(w + s, p + w.len()) == g_ws0(s, p) + w.len(),
    decreases s.len() - p,
{
    if p < s.len() && in_class(s[p], CharClass::Space) {
        sh_ws0(w, s, p + 1);
    } else {
        sh_comment(w, s, p);
        lemma_find_newline(s, p + 2);
        if let Some(q) = g_comment(s, p) {
            sh_ws0(w, s, q);
        }
    }
}

proof fn sh_ws1(w: Seq<char>, s: Seq<char>, p: int)
    requires
        0 <= p,
    ensures
        g_ws1(w + s, p + w.len()) == shifted(g_ws1(s, p), w.len() as int),
{
    sh_ws0(w, s, p);
}

proof fn sh_multispace1(w: Seq<char>, s: Seq<char>, p: int)
    requires
        0 <= p,
    ensures
        g_multispace1(w + s, p + w.len()) == shifted(g_multispace1(s, p), w.len() as int),
{
    sh_scan(w, s, p, CharClass::Space);
}

proof fn sh_in_ws_char(w: Seq<char>, s: Seq<char>, p: int, c: char)
    requires
        0 <= p,
    ensures
        g_in_ws_char(w + s, p + w.len(), c) == shifted(g_in_ws_char(s, p, c), w.len() as int),
{
    sh_ws0(w, s, p);
    lemma_ws0(s, p);
    sh_char(w, s, g_ws0(s, p), c);
    if let Some(q) = g_char(s, g_ws0(s, p), c) {
        sh_ws0(w, s, q);
    }
}

proof fn sh_identifier(w: Seq<char>, s: Seq<char>, p: int)
    requires
        0 <= p,
    ensures
        g_identifier(w + s, p + w.len()) == shifted(g_identifier(s, p), w.len() as int),
{
    sh_scan(w, s, p, CharClass::AsciiAlpha);
    lemma_scan(s, p, CharClass::AsciiAlpha);
    sh_scan(w, s, scan(s, p, CharClass::AsciiAlpha), CharClass::Ident);
    sh_scan(w, s, p + 1, CharClass::Ident);
}

proof fn sh_integer(w: Seq<char>, s: Seq<char>, p: int)
    requires
        0 <= p,
    ensures
        g_integer(w + s, p + w.len()) == shifted_at(g_integer(s, p), w.len() as int),
{
    sh_scan(w, s, p, CharClass::Digit);
    lemma_scan(s, p, CharClass::Digit);
    let q = scan(s, p, CharClass::Digit);
    if p < s.len() {
        assert((w + s).subrange(p + w.len(), q + w.len()) =~= s.subrange(p, q));
    }
}

proof fn sh_value(w: Seq<char>, s: Seq<char>, p: int)
    requires
        0 <= p,
    ensures
        g_value(w + s, p + w.len()) == shifted_at(g_value(s, p), w.len() as int),
{
    let n = w.len() as int;
    sh_char(w, s, p, '"');
    sh_scan(w, s, p, CharClass::Value);
    sh_scan(w, s, p + 1, CharClass::Value);
    lemma_scan(s, p, CharClass::Value);
    lemma_scan(s, p + 1, CharClass::Value);
    let b1 = scan(s, p + 1, CharClass::Value);
    sh_char(w, s, b1, '"');
    if p + 1 <= s.len() {
        assert((w + s).subrange(p + 1 + n, b1 + n) =~= s.subrange(p + 1, b1));
    }
    let b0 = scan(s, p, CharClass::Value);
    if p <= s.len() {
        assert((w + s).subrange(p + n, b0 + n) =~= s.subrange(p, b0));
    }
}

proof fn sh_kv_pair(w: Seq<char>, s: Seq<char>, p: int)
    requires
        0 <= p,
    ensures
        g_kv_pair(w + s, p + w.len()) == shifted_at(g_kv_pair(s, p), w.len() as int),
{
    let n = w.len() as int;
    sh_ws0(w, s, p);
    lemma_ws0(s, p);
    let a = g_ws0(s, p);
    sh_identifier(w, s, a);
    lemma_identifier(s, a);
    if let Some(b) = g_identifier(s, a) {
        sh_ws0(w, s, b);
        lemma_ws0(s, b);
        let c = g_ws0(s, b);
        sh_in_ws_char(w, s, c, '=');
        lemma_in_ws_char(s, c, '=');
        if let Some(d) = g_in_ws_char(s, c, '=') {
            sh_value(w, s, d);
        }
        assert((w + s).subrange(a + n, b + n) =~= s.subrange(a, b));
    }
}

proof fn sh_kv_rest(
    w: Seq<char>,
    s: Seq<char>,
    p: int,
    acc: Seq<(Seq<char>, Seq<char>)>,
)
    requires
        0 <= p,
    ensures
        g_kv_rest(w + s, p + w.len(), acc) == (g_kv_rest(s, p, acc).0, g_kv_rest(s, p, acc).1
            + w.len()),
    decreases s.len() - p,
{
    sh_ws0(w, s, p);
    lemma_ws0(s, p);
    sh_char(w, s, g_ws0(s, p), ',');
    if let Some(b) = g_char(s, g_ws0(s, p), ',') {
        sh_kv_pair(w, s, b);
        lemma_kv_pair(s, b);
        if let Some((kv, c)) = g_kv_pair(s, b) {
            sh_kv_rest(w, s, c, acc.push(kv));
        }
    }
}

proof fn sh_kv_pairs(w: Seq<char>, s: Seq<char>, p: int)
    requires
        0 <= p,
    ensures
        g_kv_pairs(w + s, p + w.len()) == (g_kv_pairs(s, p).0, g_kv_pairs(s, p).1 + w.len()),
{
    sh_kv_pair(w, s, p);
    lemma_kv_pair(s, p);
    if let Some((kv, c)) = g_kv_pair(s, p) {
        sh_kv_rest(w, s, c, seq![kv]);
    }
}

proof fn sh_annotation(w: Seq<char>, s: Seq<char>, p: int)
    requires
        0 <= p,
    ensures
        g_annotation(w + s, p + w.len()) == shifted_at(g_annotation(s, p), w.len() as int),
{
    let n = w.len() as int;
    sh_char(w, s, p, '@');
    if let Some(a) = g_char(s, p, '@') {
        sh_identifier(w, s, a);
        lemma_identifier(s, a);
        if let Some(b) = g_identifier(s, a) {
            assert((w + s).subrange(a + n, b + n) =~= s.subrange(a, b));
            sh_in_ws_char(w, s, b, '(');
            lemma_in_ws_char(s, b, '(');
            if let Some(c) = g_in_ws_char(s, b, '(') {
                sh_kv_pairs(w, s, c);
                let d = g_kv_pairs(s, c).1;
                lemma_kv_pairs_pos(s, c);
                sh_in_ws_char(w, s, d, ')');
            }
        }
    }
}

proof fn lemma_kv_rest_pos(s: Seq<char>, p: int, acc: Seq<(Seq<char>, Seq<char>)>)
    requires
        0 <= p,
    ensures
        p <= g_kv_rest(s, p, acc).1,
    decreases s.len() - p,
{
    lemma_ws0(s, p);
    if let Some(b) = g_char(s, g_ws0(s, p), ',') {
        lemma_kv_pair(s, b);
        if let Some((kv, c)) = g_kv_pair(s, b) {
            lemma_kv_rest_pos(s, c, acc.push(kv));
        }
    }
}

proof fn lemma_kv_pairs_pos(s: Seq<char>, p: int)
    requires
        0 <= p,
    ensures
        p <= g_kv_pairs(s, p).1,
{
    lemma_kv_pair(s, p);
    if let Some((kv, c)) = g_kv_pair(s, p) {
        lemma_kv_rest_pos(s, c, seq![kv]);
    }
}

proof fn sh_annotations(w: Seq<char>, s: Seq<char>, p: int, acc: Seq<AnnotationModel>)
    requires
        0 <= p,
    ensures
        g_annotations(w + s, p + w.len(), acc) == shifted_at(
            g_annotations(s, p, acc),
            w.len() as int,
        ),
    decreases s.len() - p,
{
    sh_annotation(w, s, p);
    if let Some((a, q)) = g_annotation(s, p) {
        lemma_annotation_pos(s, p);
        sh_ws0(w, s, q);
        let r = g_ws0(s, q);
        if p < r && r <= s.len() {
            sh_annotations(w, s, r, acc.push(a));
        }
    }
}

proof fn lemma_annotation_pos(s: Seq<char>, p: int)
    requires
        0 <= p,
    ensures
        g_annotation(s, p) matches Some((_, q)) ==> p <= q,
{
    if let Some(a) = g_char(s, p, '@') {
        lemma_identifier(s, a);
        if let Some(b) = g_identifier(s, a) {
            lemma_in_ws_char(s, b, '(');
            if let Some(c) = g_in_ws_char(s, b, '(') {
                lemma_kv_pairs_pos(s, c);
                lemma_in_ws_char(s, g_kv_pairs(s, c).1, ')');
            }
        }
    }
}

proof fn sh_two_words(w: Seq<char>, s: Seq<char>, p: int, first: Seq<char>, second: Seq<char>)
    requires
        0 <= p,
    ensures
        g_two_words(w + s, p + w.len(), first, second) == shifted(
            g_two_words(s, p, first, second),
            w.len() as int,
        ),
{
    sh_keyword(w, s, p, first);
    if let Some(a) = g_keyword(s, p, first) {
        sh_ws1(w, s, a);
        lemma_ws0(s, a);
        if let Some(b) = g_ws1(s, a) {
            sh_keyword(w, s, b, second);
        }
    }
}

proof fn sh_primitive(w: Seq<char>, s: Seq<char>, p: int)
    requires
        0 <= p,
    ensures
        g_primitive(w + s, p + w.len()) == shifted_at(g_primitive(s, p), w.len() as int),
{
    sh_two_words(w, s, p, kw_unsigned(), kw_long());
    if let Some(a) = g_two_words(s, p, kw_unsigned(), kw_long()) {
        lemma_two_words_pos(s, p, kw_unsigned(), kw_long());
        sh_ws1(w, s, a);
        lemma_ws0(s, a);
        if let Some(b) = g_ws1(s, a) {
            sh_keyword(w, s, b, kw_long());
        }
    }
    sh_two_words(w, s, p, kw_long(), kw_long());
    sh_two_words(w, s, p, kw_unsigned(), kw_short());
    sh_keyword(w, s, p, kw_long());
    sh_keyword(w, s, p, kw_octet());
    sh_keyword(w, s, p, kw_short());
    sh_keyword(w, s, p, kw_double());
    sh_keyword(w, s, p, kw_float());
    sh_keyword(w, s, p, kw_boolean());
}

proof fn lemma_two_words_pos(s: Seq<char>, p: int, first: Seq<char>, second: Seq<char>)
    requires
        0 <= p,
    ensures
        g_two_words(s, p, first, second) matches Some(q) ==> p <= q,
{
    if let Some(a) = g_keyword(s, p, first) {
        lemma_ws0(s, a);
    }
}

proof fn sh_angle_integer(w: Seq<char>, s: Seq<char>, p: int)
    requires
        0 <= p,
    ensures
        g_angle_integer(w + s, p + w.len()) == shifted_at(g_angle_integer(s, p), w.len() as int),
{
    sh_in_ws_char(w, s, p, '<');
    lemma_in_ws_char(s, p, '<');
    if let Some(a) = g_in_ws_char(s, p, '<') {
        sh_integer(w, s, a);
        lemma_scan(s, a, CharClass::Digit);
        if let Some((_, b)) = g_integer(s, a) {
            sh_char(w, s, b, '>');
        }
    }
}

proof fn sh_string_type(w: Seq<char>, s: Seq<char>, p: int)
    requires
        0 <= p,
    ensures
        g_string_type(w + s, p + w.len()) == shifted_at(g_string_type(s, p), w.len() as int),
{
    sh_keyword(w, s, p, kw_string());
    if let Some(a) = g_keyword(s, p, kw_string()) {
        sh_angle_integer(w, s, a);
    }
}

proof fn sh_bitfield_type(w: Seq<char>, s: Seq<char>, p: int)
    requires
        0 <= p,
    ensures
        g_bitfield_type(w + s, p + w.len()) == shifted_at(g_bitfield_type(s, p), w.len() as int),
{
    sh_keyword(w, s, p, kw_bitfield());
    if let Some(a) = g_keyword(s, p, kw_bitfield()) {
        sh_angle_integer(w, s, a);
    }
}

proof fn sh_type_name(w: Seq<char>, s: Seq<char>, p: int)
    requires
        0 <= p,
    ensures
        g_type_name(w + s, p + w.len()) == shifted_at(g_type_name(s, p), w.len() as int),
{
    sh_identifier(w, s, p);
    lemma_identifier(s, p);
    if let Some(q) = g_identifier(s, p) {
        assert((w + s).subrange(p + w.len(), q + w.len()) =~= s.subrange(p, q));
    }
}

proof fn sh_array_suffix(w: Seq<char>, s: Seq<char>, p: int)
    requires
        0 <= p,
    ensures
        g_array_suffix(w + s, p + w.len()) == shifted_at(g_array_suffix(s, p), w.len() as int),
{
    sh_char(w, s, p, '[');
    if let Some(a) = g_char(s, p, '[') {
        sh_integer(w, s, a);
        lemma_scan(s, a, CharClass::Digit);
        if let Some((_, b)) = g_integer(s, a) {
            sh_char(w, s, b, ']');
        }
    }
}

proof fn sh_array_suffixes(w: Seq<char>, s: Seq<char>, p: int, t: TypeModel)
    requires
        0 <= p,
    ensures
        g_array_suffixes(w + s, p + w.len(), t) == (g_array_suffixes(s, p, t).0,
            g_array_suffixes(s, p, t).1 + w.len()),
        p <= g_array_suffixes(s, p, t).1,
    decreases s.len() - p,
{
    sh_array_suffix(w, s, p);
    if let Some(a) = g_char(s, p, '[') {
        lemma_scan(s, a, CharClass::Digit);
    }
    if let Some((n, r)) = g_array_suffix(s, p) {
        if p < r && r <= s.len() {
            sh_array_suffixes(w, s, r, TypeModel::Array(Box::new(t), n));
        }
    }
}

proof fn sh_type_ref(w: Seq<char>, s: Seq<char>, p: int)
    requires
        0 <= p,
    ensures
        g_type_ref(w + s, p + w.len()) == shifted_at(g_type_ref(s, p), w.len() as int),
        g_type_ref(s, p) matches Some((_, q)) ==> p <= q,
    decreases s.len() - p, 3int,
{
    sh_base_type(w, s, p);
    if let Some((b, q)) = g_base_type(s, p) {
        sh_array_suffixes(w, s, q, b);
    }
}

proof fn sh_base_type(w: Seq<char>, s: Seq<char>, p: int)
    requires
        0 <= p,
    ensures
        g_base_type(w + s, p + w.len()) == shifted_at(g_base_type(s, p), w.len() as int),
        g_base_type(s, p) matches Some((_, q)) ==> p <= q,
    decreases s.len() - p, 2int,
{
    sh_base_token(w, s, p);
    if let Some((_, q)) = g_base_token(s, p) {
        sh_ws0(w, s, q);
        lemma_ws0(s, q);
    }
}

proof fn sh_base_token(w: Seq<char>, s: Seq<char>, p: int)
    requires
        0 <= p,
    ensures
        g_base_token(w + s, p + w.len()) == shifted_at(g_base_token(s, p), w.len() as int),
        g_base_token(s, p) matches Some((_, q)) ==> p <= q,
    decreases s.len() - p, 1int,
{
    sh_sequence(w, s, p);
    sh_primitive(w, s, p);
    sh_string_type(w, s, p);
    sh_bitfield_type(w, s, p);
    sh_type_name(w, s, p);
    lemma_primitive_pos(s, p);
    lemma_identifier(s, p);
}

proof fn lemma_primitive_pos(s: Seq<char>, p: int)
    requires
        0 <= p,
    ensures
        g_primitive(s, p) matches Some((_, q)) ==> p <= q,
        g_string_type(s, p) matches Some((_, q)) ==> p <= q,
        g_bitfield_type(s, p) matches Some((_, q)) ==> p <= q,
{
    lemma_two_words_pos(s, p, kw_unsigned(), kw_long());
    lemma_two_words_pos(s, p, kw_long(), kw_long());
    lemma_two_words_pos(s, p, kw_unsigned(), kw_short());
    if let Some(a) = g_two_words(s, p, kw_unsigned(), kw_long()) {
        lemma_ws0(s, a);
    }
    if let Some(a) = g_keyword(s, p, kw_string()) {
        lemma_in_ws_char(s, a, '<');
        if let Some(b) = g_in_ws_char(s, a, '<') {
            lemma_scan(s, b, CharClass::Digit);
        }
    }
    if let Some(a) = g_keyword(s, p, kw_bitfield()) {
        lemma_in_ws_char(s, a, '<');
        if let Some(b) = g_in_ws_char(s, a, '<') {
            lemma_scan(s, b, CharClass::Digit);
        }
    }
}

proof fn sh_sequence(w: Seq<char>, s: Seq<char>, p: int)
    requires
        0 <= p,
    ensures
        g_sequence(w + s, p + w.len()) == shifted_at(g_sequence(s, p), w.len() as int),
        g_sequence(s, p) matches Some((_, q)) ==> p <= q,
    decreases s.len() - p, 0int,
{
    sh_keyword(w, s, p, kw_sequence());
    if let Some(a) = g_keyword(s, p, kw_sequence()) {
        sh_in_ws_char(w, s, a, '<');
        lemma_in_ws_char(s, a, '<');
        if let Some(b) = g_in_ws_char(s, a, '<') {
            sh_type_ref(w, s, b);
            if let Some((_, c)) = g_type_ref(s, b) {
                sh_ws0(w, s, c);
                lemma_ws0(s, c);
                sh_char(w, s, g_ws0(s, c), '>');
            }
        }
    }
}

proof fn sh_type_gap(w: Seq<char>, s: Seq<char>, a: int, b: int)
    requires
        0 <= a,
        0 <= b,
    ensures
        g_type_gap(w + s, a + w.len(), b + w.len()) == shifted(g_type_gap(s, a, b), w.len() as int),
{
    sh_ws0(w, s, b);
    lemma_ws0(s, b);
    if a < b && b <= s.len() {
        assert((w + s)[b + w.len() - 1] == s[b - 1]);
    }
}

#[verifier::rlimit(100)]
#[verifier::spinoff_prover]
proof fn sh_typed_name(w: Seq<char>, s: Seq<char>, a: int)
    requires
        0 <= a,
    ensures
        g_typed_name(w + s, a + w.len()) == match g_typed_name(s, a) {
            Some((t, name, e)) => Some((t, name, e + w.len())),
            None => None,
        },
{
    let n = w.len() as int;
    sh_type_ref(w, s, a);
    if let Some((_, b)) = g_type_ref(s, a) {
        sh_type_gap(w, s, a, b);
        lemma_ws0(s, b);
        if let Some(c) = g_type_gap(s, a, b) {
            sh_identifier(w, s, c);
            lemma_identifier(s, c);
            if let Some(d) = g_identifier(s, c) {
                sh_in_ws_char(w, s, d, ';');
                assert((w + s).subrange(c + n, d + n) =~= s.subrange(c, d));
            }
        }
    }
}

proof fn sh_field(w: Seq<char>, s: Seq<char>, p: int)
    requires
        0 <= p,
    ensures
        g_field(w + s, p + w.len()) == shifted_at(g_field(s, p), w.len() as int),
{
    sh_annotations(w, s, p, Seq::empty());
    lemma_annotations_pos(s, p, Seq::empty());
    if let Some((_, a)) = g_annotations(s, p, Seq::empty()) {
        sh_typed_name(w, s, a);
    }
}

proof fn lemma_annotations_pos(s: Seq<char>, p: int, acc: Seq<AnnotationModel>)
    requires
        0 <= p,
    ensures
        g_annotations(s, p, acc) matches Some((_, q)) ==> p <= q,
    decreases s.len() - p,
{
    if let Some((a, q)) = g_annotation(s, p) {
        let r = g_ws0(s, q);
        if p < r && r <= s.len() {
            lemma_annotations_pos(s, r, acc.push(a));
        }
    }
}

proof fn sh_fields(w: Seq<char>, s: Seq<char>, p: int, acc: Seq<FieldModel>)
    requires
        0 <= p,
    ensures
        g_fields(w + s, p + w.len(), acc) == shifted_at(g_fields(s, p, acc), w.len() as int),
    decreases s.len() - p,
{
    sh_field(w, s, p);
    if let Some((f, q)) = g_field(s, p) {
        if p < q && q <= s.len() {
            sh_fields(w, s, q, acc.push(f));
        }
    }
}

proof fn sh_header(w: Seq<char>, s: Seq<char>, p: int, keyword: Seq<char>)
    requires
        0 <= p,
    ensures
        g_header(w + s, p + w.len(), keyword) == match g_header(s, p, keyword) {
            Some((a, b, c)) => Some((a + w.len(), b + w.len(), c + w.len())),
            None => None,
        },
{
    sh_ws0(w, s, p);
    lemma_ws0(s, p);
    sh_tag(w, s, g_ws0(s, p), keyword);
    if let Some(a) = g_tag(s, g_ws0(s, p), keyword) {
        sh_ws1(w, s, a);
        lemma_ws0(s, a);
        if let Some(b) = g_ws1(s, a) {
            sh_identifier(w, s, b);
            lemma_identifier(s, b);
            if let Some(c) = g_identifier(s, b) {
                sh_in_ws_char(w, s, c, '{');
            }
        }
    }
}

#[verifier::rlimit(100)]
proof fn sh_struct(w: Seq<char>, s: Seq<char>, p: int)
    requires
        0 <= p,
    ensures
        g_struct(w + s, p + w.len()) == shifted_at(g_struct(s, p), w.len() as int),
{
    reveal(g_struct);
    let n = w.len() as int;
    sh_header(w, s, p, kw_struct());
    lemma_header(s, p, kw_struct());
    if let Some((a, b, c)) = g_header(s, p, kw_struct()) {
        assert((w + s).subrange(a + n, b + n) =~= s.subrange(a, b));
        sh_fields(w, s, c, Seq::empty());
        lemma_fields_pos(s, c, Seq::empty());
        if let Some((_, d)) = g_fields(s, c, Seq::empty()) {
            sh_in_ws_char(w, s, d, '}');
        }
    }
}

proof fn lemma_fields_pos(s: Seq<char>, p: int, acc: Seq<FieldModel>)
    requires
        0 <= p,
    ensures
        g_fields(s, p, acc) matches Some((_, q)) ==> p <= q,
    decreases s.len() - p,
{
    if let Some((f, q)) = g_field(s, p) {
        if p < q && q <= s.len() {
            lemma_fields_pos(s, q, acc.push(f));
        }
    }
}

proof fn sh_bitfield_def(w: Seq<char>, s: Seq<char>, p: int)
    requires
        0 <= p,
    ensures
        g_bitfield_def(w + s, p + w.len()) == shifted_at(g_bitfield_def(s, p), w.len() as int),
{
    let n = w.len() as int;
    sh_tag(w, s, p, kw_bitfield());
    if let Some(a) = g_tag(s, p, kw_bitfield()) {
        sh_angle_integer(w, s, a);
        lemma_in_ws_char(s, a, '<');
        if let Some(x) = g_in_ws_char(s, a, '<') {
            lemma_scan(s, x, CharClass::Digit);
        }
        if let Some((_, b)) = g_angle_integer(s, a) {
            sh_multispace1(w, s, b);
            lemma_scan(s, b, CharClass::Space);
            if let Some(c) = g_multispace1(s, b) {
                sh_identifier(w, s, c);
                lemma_identifier(s, c);
                if let Some(d) = g_identifier(s, c) {
                    sh_in_ws_char(w, s, d, ';');
                    assert((w + s).subrange(c + n, d + n) =~= s.subrange(c, d));
                }
            }
        }
    }
}

proof fn sh_bitfields(w: Seq<char>, s: Seq<char>, p: int, acc: Seq<BitSetFieldModel>)
    requires
        0 <= p,
    ensures
        g_bitfields(w + s, p + w.len(), acc) == shifted_at(g_bitfields(s, p, acc), w.len() as int),
    decreases s.len() - p,
{
    sh_bitfield_def(w, s, p);
    if let Some((f, q)) = g_bitfield_def(s, p) {
        if p < q && q <= s.len() {
            sh_bitfields(w, s, q, acc.push(f));
        }
    }
}

proof fn lemma_bitfields_pos(s: Seq<char>, p: int, acc: Seq<BitSetFieldModel>)
    requires
        0 <= p,
    ensures
        g_bitfields(s, p, acc) matches Some((_, q)) ==> p <= q,
    decreases s.len() - p,
{
    if let Some((f, q)) = g_bitfield_def(s, p) {
        if p < q && q <= s.len() {
            lemma_bitfields_pos(s, q, acc.push(f));
        }
    }
}

proof fn sh_bitset(w: Seq<char>, s: Seq<char>, p: int)
    requires
        0 <= p,
    ensures
        g_bitset(w + s, p + w.len()) == shifted_at(g_bitset(s, p), w.len() as int),
{
    reveal(g_bitset);
    let n = w.len() as int;
    sh_header(w, s, p, kw_bitset());
    lemma_header(s, p, kw_bitset());
    if let Some((a, b, c)) = g_header(s, p, kw_bitset()) {
        assert((w + s).subrange(a + n, b + n) =~= s.subrange(a, b));
        sh_bitfields(w, s, c, Seq::empty());
        lemma_bitfields_pos(s, c, Seq::empty());
        if let Some((_, d)) = g_bitfields(s, c, Seq::empty()) {
            sh_in_ws_char(w, s, d, '}');
        }
    }
}

proof fn sh_module(w: Seq<char>, s: Seq<char>, p: int)
    requires
        0 <= p,
    ensures
        g_module(w + s, p + w.len()) == shifted_at(g_module(s, p), w.len() as int),
    decreases s.len() - p, 0int,
{
    let n = w.len() as int;
    let t = w + s;
    sh_header(w, s, p, kw_module());
    lemma_header(s, p, kw_module());
    if let Some((a, b, c)) = g_header(s, p, kw_module()) {
        assert(g_header(t, p + n, kw_module()) == Some((a + n, b + n, c + n)));
        assert(t.subrange(a + n, b + n) =~= s.subrange(a, b));
        sh_contents(w, s, c, Seq::empty());
        lemma_contents_pos(s, c, Seq::empty());
        if let Some((content, d)) = g_contents(s, c, Seq::empty()) {
            assert(g_contents(t, c + n, Seq::empty()) == Some((content, d + n)));
            sh_in_ws_char(w, s, d, '}');
        } else {
            assert(g_contents(t, c + n, Seq::empty()) is None);
        }
    } else {
        assert(g_header(t, p + n, kw_module()) is None);
    }
}

proof fn sh_content(w: Seq<char>, s: Seq<char>, p: int)
    requires
        0 <= p,
    ensures
        g_content(w + s, p + w.len()) == shifted_at(g_content(s, p), w.len() as int),
    decreases s.len() - p, 1int,
{
    sh_struct(w, s, p);
    sh_bitset(w, s, p);
    sh_module(w, s, p);
    lemma_struct_pos(s, p);
    lemma_module_pos(s, p);
    let item = if let Some((st, q)) = g_struct(s, p) {
        Some((ContentModel::Struct(st), q))
    } else if let Some((b, q)) = g_bitset(s, p) {
        Some((ContentModel::BitSet(b), q))
    } else if let Some((m, q)) = g_module(s, p) {
        Some((ContentModel::Module(Box::new(m)), q))
    } else {
        None
    };
    if let Some((_, q)) = item {
        sh_in_ws_char(w, s, q, ';');
    }
}

proof fn lemma_struct_pos(s: Seq<char>, p: int)
    requires
        0 <= p,
    ensures
        g_struct(s, p) matches Some((_, q)) ==> p <= q,
        g_bitset(s, p) matches Some((_, q)) ==> p <= q,
{
    reveal(g_struct);
    reveal(g_bitset);
    lemma_header(s, p, kw_struct());
    if let Some((a, b, c)) = g_header(s, p, kw_struct()) {
        lemma_fields_pos(s, c, Seq::empty());
        if let Some((_, d)) = g_fields(s, c, Seq::empty()) {
            lemma_in_ws_char(s, d, '}');
        }
    }
    lemma_header(s, p, kw_bitset());
    if let Some((a, b, c)) = g_header(s, p, kw_bitset()) {
        lemma_bitfields_pos(s, c, Seq::empty());
        if let Some((_, d)) = g_bitfields(s, c, Seq::empty()) {
            lemma_in_ws_char(s, d, '}');
        }
    }
}

proof fn sh_contents(w: Seq<char>, s: Seq<char>, p: int, acc: Seq<ContentModel>)
    requires
        0 <= p,
    ensures
        g_contents(w + s, p + w.len(), acc) == shifted_at(g_contents(s, p, acc), w.len() as int),
    decreases s.len() - p, 2int,
{
    sh_content(w, s, p);
    if let Some((c, q)) = g_content(s, p) {
        if p < q && q <= s.len() {
            sh_contents(w, s, q, acc.push(c));
        }
    }
}

proof fn lemma_contents_pos(s: Seq<char>, p: int, acc: Seq<ContentModel>)
    requires
        0 <= p,
    ensures
        g_contents(s, p, acc) matches Some((_, q)) ==> p <= q,
    decreases s.len() - p,
{
    if let Some((c, q)) = g_content(s, p) {
        if p < q && q <= s.len() {
            lemma_contents_pos(s, q, acc.push(c));
        }
    }
}

proof fn lemma_module_pos(s: Seq<char>, p: int)
    requires
        0 <= p,
    ensures
        g_module(s, p) matches Some((_, q)) ==> p <= q,
{
    lemma_header(s, p, kw_module());
    if let Some((a, b, c)) = g_header(s, p, kw_module()) {
        lemma_contents_pos(s, c, Seq::empty());
        if let Some((_, d)) = g_contents(s, c, Seq::empty()) {
            lemma_in_ws_char(s, d, '}');
        }
    }
}

/// Whitespace and comments that run to the end of `w` are skipped the same
/// way whatever follows them.
proof fn lemma_ws0_prefix(w: Seq<char>, s: Seq<char>, i: int)
    requires
        0 <= i <= w.len(),
        g_ws0(w, i) == w.len(),
    ensures
        g_ws0(w + s, i) == g_ws0(w + s, w.len() as int),
    decreases w.len() - i,
{
    if i < w.len() {
        if in_class(w[i], CharClass::Space) {
            lemma_ws0_prefix(w, s, i + 1);
        } else {
            lemma_find_newline(w, i + 2);
            match g_comment(w, i) {
                Some(q) => {
                    assert((w + s).subrange(i, i + 2) =~= w.subrange(i, i + 2));
                    lemma_find_newline_prefix(w, s, i + 2);
                    lemma_ws0(w, q);
                    lemma_ws0_prefix(w, s, q);
                },
                None => {},
            }
        }
    }
}

proof fn lemma_find_newline_prefix(w: Seq<char>, s: Seq<char>, p: int)
    requires
        0 <= p,
        find_newline(w, p) is Some,
    ensures
        find_newline(w + s, p) == find_newline(w, p),
    decreases w.len() - p,
{
    lemma_find_newline(w, p);
    if p < w.len() && w[p] != '\n' {
        lemma_find_newline_prefix(w, s, p + 1);
    }
}

/// Whitespace and comments before the module are ignored: putting any run
/// of them in front of a text does not change what the text parses to.
pub proof fn law_leading_whitespace_is_ignored(w: Seq<char>, s: Seq<char>)
    requires
        g_ws0(w, 0) == w.len(),
    ensures
        g_idl(w + s) == g_idl(s),
{
    let n = w.len() as int;
    lemma_ws0_prefix(w, s, 0);
    sh_ws0(w, s, 0);
    sh_module(w, s, 0);
    sh_header(w, s, 0, kw_module());
    // the module's header starts by skipping whitespace from where it begins
    assert(g_module(w + s, 0) == g_module(w + s, n));
    lemma_module_pos(s, 0);
    if let Some((_, p)) = g_module(s, 0) {
        sh_ws0(w, s, p);
    }
}


// ---------------------------------------------------------------------------
// Annotation values
// ---------------------------------------------------------------------------

/// Whether `c` may stand in an annotation value: an ASCII letter or digit,
/// `.`, `/` or `_`.
pub open spec fn value_char(c: char) -> bool {
    ('a' <= c && c <= 'z') || ('A' <= c && c <= 'Z') || ('0' <= c && c <= '9') || c == '.' || c
        == '/' || c == '_'
}

pub open spec fn name_format() -> Seq<char> {
    seq!['f', 'o', 'r', 'm', 'a', 't']
}

pub open spec fn key_dbc() -> Seq<char> {
    seq!['d', 'b', 'c']
}

/// `@format(dbc="v")`.
pub open spec fn quoted_dbc(v: Seq<char>) -> Seq<char> {
    seq!['@', 'f', 'o', 'r', 'm', 'a', 't', '(', 'd', 'b', 'c', '=', '"'] + v + seq!['"', ')']
}

/// `@format(dbc=v)`.
pub open spec fn bare_dbc(v: Seq<char>) -> Seq<char> {
    seq!['@', 'f', 'o', 'r', 'm', 'a', 't', '(', 'd', 'b', 'c', '='] + v + seq![')']
}

proof fn lemma_scan_run(s: Seq<char>, p: int, q: int, k: CharClass)
    requires
        0 <= p <= q <= s.len(),
        forall|i: int| p <= i < q ==> in_class(s[i], k),
        q == s.len() || !in_class(s[q], k),
    ensures
        scan(s, p, k) == q,
    decreases q - p,
{
    if p < q {
        lemma_scan_run(s, p + 1, q, k);
    }
}

proof fn lemma_ws0_stops(s: Seq<char>, p: int)
    requires
        0 <= p <= s.len(),
        p == s.len() || !in_class(s[p], CharClass::Space),
        p == s.len() || s[p] != '/' || forall|i: int| p <= i < s.len() ==> s[i] != '\n',
    ensures
        g_ws0(s, p) == p,
{
    if p + 2 <= s.len() && s.subrange(p, p + 2) == seq!['/', '/'] {
        assert(s[p] == s.subrange(p, p + 2)[0]);
        lemma_find_newline(s, p + 2);
        assert(find_newline(s, p + 2) is None);
    }
}

/// Reads `@format(dbc=` at the start of `s`: the annotation's name is
/// `format`, and the value starts at 12 with the key `dbc`.
proof fn lemma_format_dbc_prefix(s: Seq<char>)
    requires
        s.len() >= 13,
        s.subrange(0, 12) == seq!['@', 'f', 'o', 'r', 'm', 'a', 't', '(', 'd', 'b', 'c', '='],
        !in_class(s[12], CharClass::Space),
        s[12] != '/' || forall|i: int| 12 <= i < s.len() ==> s[i] != '\n',
    ensures
        g_char(s, 0, '@') == Some(1int),
        g_identifier(s, 1) == Some(7int),
        s.subrange(1, 7) == name_format(),
        g_in_ws_char(s, 7, '(') == Some(8int),
        g_ws0(s, 8) == 8,
        g_identifier(s, 8) == Some(11int),
        s.subrange(8, 11) == key_dbc(),
        g_ws0(s, 11) == 11,
        g_in_ws_char(s, 11, '=') == Some(12int),
{
    let pre = s.subrange(0, 12);
    assert forall|i: int| 0 <= i < 12 implies s[i] == pre[i] by {}
    lemma_scan_run(s, 1, 7, CharClass::AsciiAlpha);
    lemma_scan_run(s, 7, 7, CharClass::Ident);
    lemma_scan_run(s, 8, 11, CharClass::AsciiAlpha);
    lemma_scan_run(s, 11, 11, CharClass::Ident);
    lemma_ws0_stops(s, 7);
    lemma_ws0_stops(s, 8);
    lemma_ws0_stops(s, 11);
    lemma_ws0_stops(s, 12);
    assert(s.subrange(1, 7) =~= name_format());
    assert(s.subrange(8, 11) =~= key_dbc());
}

proof fn lemma_pairs_map_one(k: Seq<char>, v: Seq<char>)
    ensures
        pairs_map(seq![(k, v)]) == Map::<Seq<char>, Seq<char>>::empty().insert(k, v),
{
    let one = seq![(k, v)];
    assert(one.drop_last() =~= Seq::<(Seq<char>, Seq<char>)>::empty());
    assert(pairs_map(Seq::<(Seq<char>, Seq<char>)>::empty()) == Map::<Seq<char>, Seq<char>>::empty());
    assert(one.last() == (k, v));
    assert(pairs_map(one) == pairs_map(one.drop_last()).insert(k, v));
}

/// Any run of value characters between quotes is kept as the value:
/// `@format(dbc="v")` is the annotation `format` with `dbc` bound to `v`.
pub proof fn law_quoted_annotation_value_is_kept(v: Seq<char>)
    requires
        forall|i: int| 0 <= i < v.len() ==> value_char(#[trigger] v[i]),
    ensures
        g_annotation(quoted_dbc(v), 0) == Some(
            (
                AnnotationModel {
                    name: name_format(),
                    values: Map::<Seq<char>, Seq<char>>::empty().insert(key_dbc(), v),
                },
                quoted_dbc(v).len() as int,
            ),
        ),
{
    let s = quoted_dbc(v);
    let n = v.len() as int;
    let b = 13 + n;
    assert(s.subrange(0, 12) =~= seq!['@', 'f', 'o', 'r', 'm', 'a', 't', '(', 'd', 'b', 'c', '=']);
    assert(s[12] == '"');
    lemma_format_dbc_prefix(s);
    assert(forall|i: int| 0 <= i < n ==> s[13 + i] == v[i]);
    assert(s[b] == '"' && s[b + 1] == ')' && s.len() == b + 2);
    assert forall|i: int| 13 <= i < b implies in_class(s[i], CharClass::Value) by {
        assert(s[i] == v[i - 13]);
        assert(value_char(v[i - 13]));
    }
    lemma_scan_run(s, 13, b, CharClass::Value);
    assert(s.subrange(13, b) =~= v);
    lemma_ws0_stops(s, 12);
    lemma_ws0_stops(s, b + 1);
    lemma_ws0_stops(s, b + 2);
    assert(g_value(s, 12) == Some((v, b + 1)));
    assert(g_kv_pair(s, 8) == Some(((key_dbc(), v), b + 1)));
    assert(g_kv_rest(s, b + 1, seq![(key_dbc(), v)]) == (seq![(key_dbc(), v)], b + 1));
    assert(g_kv_pairs(s, 8) == (seq![(key_dbc(), v)], b + 1));
    assert(g_in_ws_char(s, b + 1, ')') == Some(b + 2));
    lemma_pairs_map_one(key_dbc(), v);
}

/// Any non-empty run of value characters is kept as a bare value:
/// `@format(dbc=v)` is the annotation `format` with `dbc` bound to `v`.
pub proof fn law_bare_annotation_value_is_kept(v: Seq<char>)
    requires
        v.len() > 0,
        forall|i: int| 0 <= i < v.len() ==> value_char(#[trigger] v[i]),
    ensures
        g_annotation(bare_dbc(v), 0) == Some(
            (
                AnnotationModel {
                    name: name_format(),
                    values: Map::<Seq<char>, Seq<char>>::empty().insert(key_dbc(), v),
                },
                bare_dbc(v).len() as int,
            ),
        ),
{
    let s = bare_dbc(v);
    let n = v.len() as int;
    let b = 12 + n;
    assert(s.subrange(0, 12) =~= seq!['@', 'f', 'o', 'r', 'm', 'a', 't', '(', 'd', 'b', 'c', '=']);
    assert(forall|i: int| 0 <= i < n ==> s[12 + i] == v[i]);
    assert(s[b] == ')' && s.len() == b + 1);
    assert forall|i: int| 0 <= i < s.len() implies s[i] != '\n' by {
        if 12 <= i < b {
            assert(s[i] == v[i - 12]);
            assert(value_char(v[i - 12]));
        }
    }
    assert(s[12] == v[0] && value_char(v[0]));
    lemma_format_dbc_prefix(s);
    assert forall|i: int| 12 <= i < b implies in_class(s[i], CharClass::Value) by {
        assert(s[i] == v[i - 12]);
        assert(value_char(v[i - 12]));
    }
    lemma_scan_run(s, 12, b, CharClass::Value);
    assert(s.subrange(12, b) =~= v);
    lemma_ws0_stops(s, b);
    lemma_ws0_stops(s, b + 1);
    assert(g_char(s, 12, '"') is None);
    assert(g_value(s, 12) == Some((v, b)));
    assert(g_kv_pair(s, 8) == Some(((key_dbc(), v), b)));
    assert(g_kv_rest(s, b, seq![(key_dbc(), v)]) == (seq![(key_dbc(), v)], b));
    assert(g_kv_pairs(s, 8) == (seq![(key_dbc(), v)], b));
    assert(g_in_ws_char(s, b, ')') == Some(b + 1));
    lemma_pairs_map_one(key_dbc(), v);
}

} // verus!
