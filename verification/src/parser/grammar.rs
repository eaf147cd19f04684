//! The IDL grammar as spec functions over the input characters.
//!
//! Each rule takes the input `s` and a position `p` and returns what it
//! recognizes there together with the position just after it, or `None`
//! when the rule does not match. Alternatives are ordered: the first one
//! that matches is taken and never revisited (a PEG), and repetitions are
//! greedy.
use vstd::prelude::*;

use crate::ast::{
    AnnotationModel, BitSetFieldModel, BitSetModel, ContentModel, FieldModel, ModuleModel,
    StructModel, TypeModel,
};

verus! {

/// Classes of characters that the lexer scans runs of.
#[derive(Clone, Copy, PartialEq, Eq, Debug)]
pub enum CharClass {
    /// Space, tab, carriage return, line feed.
    Space,
    /// ASCII decimal digit.
    Digit,
    /// ASCII letter.
    AsciiAlpha,
    /// Character allowed after the first character of an identifier:
    /// an ASCII letter or digit, or `_`.
    Ident,
    /// Character allowed in an annotation value: an ASCII letter or digit,
    /// `.`, `/` or `_`.
    Value,
}

/// An ASCII letter or digit.
pub open spec fn ascii_alphanumeric(c: char) -> bool {
    ('a' <= c && c <= 'z') || ('A' <= c && c <= 'Z') || ('0' <= c && c <= '9')
}

pub open spec fn in_class(c: char, k: CharClass) -> bool {
    match k {
        CharClass::Space => c == ' ' || c == '\t' || c == '\r' || c == '\n',
        CharClass::Digit => '0' <= c && c <= '9',
        CharClass::AsciiAlpha => ('a' <= c && c <= 'z') || ('A' <= c && c <= 'Z'),
        CharClass::Ident => ascii_alphanumeric(c) || c == '_',
        CharClass::Value => ascii_alphanumeric(c) || c == '.' || c == '/' || c == '_',
    }
}

/// End of the longest run of `k` characters starting at `p`.
pub open spec fn scan(s: Seq<char>, p: int, k: CharClass) -> int
    decreases s.len() - p,
{
    if 0 <= p < s.len() && in_class(s[p], k) {
        scan(s, p + 1, k)
    } else {
        p
    }
}

/// The single character `c`.
pub open spec fn g_char(s: Seq<char>, p: int, c: char) -> Option<int> {
    if 0 <= p < s.len() && s[p] == c {
        Some(p + 1)
    } else {
        None
    }
}

/// The exact text `t`.
pub open spec fn g_tag(s: Seq<char>, p: int, t: Seq<char>) -> Option<int> {
    if 0 <= p && p + t.len() <= s.len() && s.subrange(p, p + t.len()) == t {
        Some(p + t.len())
    } else {
        None
    }
}

/// The keyword `t`, not followed by a character that could continue an
/// identifier: `short` does not match the start of `shortName`.
pub open spec fn g_keyword(s: Seq<char>, p: int, t: Seq<char>) -> Option<int> {
    match g_tag(s, p, t) {
        Some(q) => if 0 <= q < s.len() && in_class(s[q], CharClass::Ident) {
            None
        } else {
            Some(q)
        },
        None => None,
    }
}

/// Position of the first line feed at or after `p`.
pub open spec fn find_newline(s: Seq<char>, p: int) -> Option<int>
    decreases s.len() - p,
{
    if p < 0 || p >= s.len() {
        None
    } else if s[p] == '\n' {
        Some(p)
    } else {
        find_newline(s, p + 1)
    }
}

/// A line comment: `//`, then everything up to and including the next line
/// feed. A comment with no line feed after it is not a comment.
pub open spec fn g_comment(s: Seq<char>, p: int) -> Option<int> {
    match g_tag(s, p, seq!['/', '/']) {
        Some(q) => match find_newline(s, q) {
            Some(n) => Some(n + 1),
            None => None,
        },
        None => None,
    }
}

/// Zero or more whitespace characters and comments.
pub open spec fn g_ws0(s: Seq<char>, p: int) -> int
    decreases s.len() - p,
{
    if 0 <= p < s.len() && in_class(s[p], CharClass::Space) {
        g_ws0(s, p + 1)
    } else {
        match g_comment(s, p) {
            Some(q) => {
                proof {
                    lemma_find_newline(s, p + 2);
                }
                g_ws0(s, q)
            },
            None => p,
        }
    }
}

/// One or more whitespace characters and comments.
pub open spec fn g_ws1(s: Seq<char>, p: int) -> Option<int> {
    let q = g_ws0(s, p);
    if q == p {
        None
    } else {
        Some(q)
    }
}

/// One or more whitespace characters (comments not included).
pub open spec fn g_multispace1(s: Seq<char>, p: int) -> Option<int> {
    if 0 <= p < s.len() && in_class(s[p], CharClass::Space) {
        Some(scan(s, p, CharClass::Space))
    } else {
        None
    }
}

/// The character `c` with optional whitespace and comments on both sides.
pub open spec fn g_in_ws_char(s: Seq<char>, p: int, c: char) -> Option<int> {
    match g_char(s, g_ws0(s, p), c) {
        Some(q) => Some(g_ws0(s, q)),
        None => None,
    }
}

/// An identifier: an ASCII letter or `_`, then ASCII letters, digits and `_`.
pub open spec fn g_identifier(s: Seq<char>, p: int) -> Option<int> {
    if 0 <= p < s.len() && in_class(s[p], CharClass::AsciiAlpha) {
        Some(scan(s, scan(s, p, CharClass::AsciiAlpha), CharClass::Ident))
    } else if 0 <= p < s.len() && s[p] == '_' {
        Some(scan(s, p + 1, CharClass::Ident))
    } else {
        None
    }
}

/// Numeric value of a string of decimal digits.
pub open spec fn digits_value(d: Seq<char>) -> nat
    decreases d.len(),
{
    if d.len() == 0 {
        0
    } else {
        digits_value(d.drop_last()) * 10 + ((d.last() as int) - ('0' as int)) as nat
    }
}

/// A decimal integer. A value that does not fit in `u32` reads as `0`.
pub open spec fn g_integer(s: Seq<char>, p: int) -> Option<(u32, int)> {
    if 0 <= p < s.len() && in_class(s[p], CharClass::Digit) {
        let q = scan(s, p, CharClass::Digit);
        let v = digits_value(s.subrange(p, q));
        Some((if v <= u32::MAX { v as u32 } else { 0u32 }, q))
    } else {
        None
    }
}

// ---------------------------------------------------------------------------
// Keywords
// ---------------------------------------------------------------------------

pub open spec fn kw_module() -> Seq<char> {
    seq!['m', 'o', 'd', 'u', 'l', 'e']
}

pub open spec fn kw_struct() -> Seq<char> {
    seq!['s', 't', 'r', 'u', 'c', 't']
}

pub open spec fn kw_bitset() -> Seq<char> {
    seq!['b', 'i', 't', 's', 'e', 't']
}

pub open spec fn kw_bitfield() -> Seq<char> {
    seq!['b', 'i', 't', 'f', 'i', 'e', 'l', 'd']
}

pub open spec fn kw_sequence() -> Seq<char> {
    seq!['s', 'e', 'q', 'u', 'e', 'n', 'c', 'e']
}

pub open spec fn kw_string() -> Seq<char> {
    seq!['s', 't', 'r', 'i', 'n', 'g']
}

pub open spec fn kw_unsigned() -> Seq<char> {
    seq!['u', 'n', 's', 'i', 'g', 'n', 'e', 'd']
}

pub open spec fn kw_long() -> Seq<char> {
    seq!['l', 'o', 'n', 'g']
}

pub open spec fn kw_short() -> Seq<char> {
    seq!['s', 'h', 'o', 'r', 't']
}

pub open spec fn kw_octet() -> Seq<char> {
    seq!['o', 'c', 't', 'e', 't']
}

pub open spec fn kw_double() -> Seq<char> {
    seq!['d', 'o', 'u', 'b', 'l', 'e']
}

pub open spec fn kw_float() -> Seq<char> {
    seq!['f', 'l', 'o', 'a', 't']
}

pub open spec fn kw_boolean() -> Seq<char> {
    seq!['b', 'o', 'o', 'l', 'e', 'a', 'n']
}

// ---------------------------------------------------------------------------
// Annotations
// ---------------------------------------------------------------------------

/// One or more characters allowed in an annotation value.
pub open spec fn g_value_chars(s: Seq<char>, p: int) -> Option<int> {
    if 0 <= p < s.len() && in_class(s[p], CharClass::Value) {
        Some(scan(s, p, CharClass::Value))
    } else {
        None
    }
}

/// An annotation value: value characters between quotes (possibly none),
/// or one or more bare value characters.
pub open spec fn g_value(s: Seq<char>, p: int) -> Option<(Seq<char>, int)> {
    let quoted = match g_char(s, p, '"') {
        Some(a) => {
            let b = scan(s, a, CharClass::Value);
            match g_char(s, b, '"') {
                Some(c) => Some((s.subrange(a, b), c)),
                None => None,
            }
        },
        None => None,
    };
    if quoted is Some {
        quoted
    } else {
        match g_value_chars(s, p) {
            Some(b) => Some((s.subrange(p, b), b)),
            None => None,
        }
    }
}

/// `key = value`.
pub open spec fn g_kv_pair(s: Seq<char>, p: int) -> Option<((Seq<char>, Seq<char>), int)> {
    let a = g_ws0(s, p);
    match g_identifier(s, a) {
        Some(b) => {
            let c = g_ws0(s, b);
            match g_in_ws_char(s, c, '=') {
                Some(d) => match g_value(s, d) {
                    Some((v, e)) => Some(((s.subrange(a, b), v), e)),
                    None => None,
                },
                None => None,
            }
        },
        None => None,
    }
}

/// Further `, key = value` pairs after the first; stops before a comma
/// that is not followed by a pair.
pub open spec fn g_kv_rest(s: Seq<char>, p: int, acc: Seq<(Seq<char>, Seq<char>)>) -> (
    Seq<(Seq<char>, Seq<char>)>,
    int,
)
    decreases s.len() - p,
{
    match g_char(s, g_ws0(s, p), ',') {
        Some(b) => match g_kv_pair(s, b) {
            Some((kv, c)) => {
                proof {
                    lemma_ws0(s, p);
                    lemma_kv_pair(s, b);
                }
                g_kv_rest(s, c, acc.push(kv))
            },
            None => (acc, p),
        },
        None => (acc, p),
    }
}

/// Zero or more comma-separated pairs.
pub open spec fn g_kv_pairs(s: Seq<char>, p: int) -> (Seq<(Seq<char>, Seq<char>)>, int) {
    match g_kv_pair(s, p) {
        Some((kv, c)) => g_kv_rest(s, c, seq![kv]),
        None => (Seq::empty(), p),
    }
}

/// The map of a list of pairs; a later pair replaces an earlier one with
/// the same key.
pub open spec fn pairs_map(pairs: Seq<(Seq<char>, Seq<char>)>) -> Map<Seq<char>, Seq<char>>
    decreases pairs.len(),
{
    if pairs.len() == 0 {
        Map::empty()
    } else {
        pairs_map(pairs.drop_last()).insert(pairs.last().0, pairs.last().1)
    }
}

/// `@name` or `@name(k=v, ...)`.
pub open spec fn g_annotation(s: Seq<char>, p: int) -> Option<(AnnotationModel, int)> {
    match g_char(s, p, '@') {
        Some(a) => match g_identifier(s, a) {
            Some(b) => {
                let name = s.subrange(a, b);
                let with_params = match g_in_ws_char(s, b, '(') {
                    Some(c) => {
                        let (pairs, d) = g_kv_pairs(s, c);
                        match g_in_ws_char(s, d, ')') {
                            Some(e) => Some((AnnotationModel { name, values: pairs_map(pairs) }, e)),
                            None => None,
                        }
                    },
                    None => None,
                };
                if with_params is Some {
                    with_params
                } else {
                    Some((AnnotationModel { name, values: Map::empty() }, b))
                }
            },
            None => None,
        },
        None => None,
    }
}

/// Annotations, each followed by optional whitespace and comments.
pub open spec fn g_annotations(s: Seq<char>, p: int, acc: Seq<AnnotationModel>) -> Option<
    (Seq<AnnotationModel>, int),
>
    decreases s.len() - p,
{
    match g_annotation(s, p) {
        Some((a, q)) => {
            let r = g_ws0(s, q);
            if p < r && r <= s.len() {
                g_annotations(s, r, acc.push(a))
            } else {
                None
            }
        },
        None => Some((acc, p)),
    }
}

// ---------------------------------------------------------------------------
// Types
// ---------------------------------------------------------------------------

/// `first ws1 second`, both as keywords.
pub open spec fn g_two_words(s: Seq<char>, p: int, first: Seq<char>, second: Seq<char>) -> Option<
    int,
> {
    match g_keyword(s, p, first) {
        Some(a) => match g_ws1(s, a) {
            Some(b) => g_keyword(s, b, second),
            None => None,
        },
        None => None,
    }
}

/// The primitive type keywords, longest alternatives first.
pub open spec fn g_primitive(s: Seq<char>, p: int) -> Option<(TypeModel, int)> {
    let ull = match g_two_words(s, p, kw_unsigned(), kw_long()) {
        Some(a) => match g_ws1(s, a) {
            Some(b) => g_keyword(s, b, kw_long()),
            None => None,
        },
        None => None,
    };
    if let Some(q) = ull {
        Some((TypeModel::UnsignedLongLong, q))
    } else if let Some(q) = g_two_words(s, p, kw_unsigned(), kw_long()) {
        Some((TypeModel::UnsignedLong, q))
    } else if let Some(q) = g_two_words(s, p, kw_long(), kw_long()) {
        Some((TypeModel::LongLong, q))
    } else if let Some(q) = g_two_words(s, p, kw_unsigned(), kw_short()) {
        Some((TypeModel::UnsignedShort, q))
    } else if let Some(q) = g_keyword(s, p, kw_long()) {
        Some((TypeModel::Long, q))
    } else if let Some(q) = g_keyword(s, p, kw_octet()) {
        Some((TypeModel::Octet, q))
    } else if let Some(q) = g_keyword(s, p, kw_short()) {
        Some((TypeModel::Short, q))
    } else if let Some(q) = g_keyword(s, p, kw_double()) {
        Some((TypeModel::Double, q))
    } else if let Some(q) = g_keyword(s, p, kw_float()) {
        Some((TypeModel::Float, q))
    } else if let Some(q) = g_keyword(s, p, kw_boolean()) {
        Some((TypeModel::Boolean, q))
    } else {
        None
    }
}

/// `<` integer `>`, with whitespace and comments allowed around `<` only.
pub open spec fn g_angle_integer(s: Seq<char>, p: int) -> Option<(u32, int)> {
    match g_in_ws_char(s, p, '<') {
        Some(a) => match g_integer(s, a) {
            Some((n, b)) => match g_char(s, b, '>') {
                Some(c) => Some((n, c)),
                None => None,
            },
            None => None,
        },
        None => None,
    }
}

/// `string` or `string<N>`.
pub open spec fn g_string_type(s: Seq<char>, p: int) -> Option<(TypeModel, int)> {
    match g_keyword(s, p, kw_string()) {
        Some(a) => match g_angle_integer(s, a) {
            Some((n, b)) => Some((TypeModel::Str(Some(n)), b)),
            None => Some((TypeModel::Str(None), a)),
        },
        None => None,
    }
}

/// `bitfield<N>`; the width keeps the low eight bits of `N`.
pub open spec fn g_bitfield_type(s: Seq<char>, p: int) -> Option<(TypeModel, int)> {
    match g_keyword(s, p, kw_bitfield()) {
        Some(a) => match g_angle_integer(s, a) {
            Some((n, b)) => Some((TypeModel::BitField((n % 256) as u8), b)),
            None => None,
        },
        None => None,
    }
}

/// A user-defined type name.
pub open spec fn g_type_name(s: Seq<char>, p: int) -> Option<(TypeModel, int)> {
    match g_identifier(s, p) {
        Some(q) => Some((TypeModel::TypeName(s.subrange(p, q)), q)),
        None => None,
    }
}

/// `[N]` directly after a base type.
pub open spec fn g_array_suffix(s: Seq<char>, p: int) -> Option<(u32, int)> {
    match g_char(s, p, '[') {
        Some(a) => match g_integer(s, a) {
            Some((n, b)) => match g_char(s, b, ']') {
                Some(c) => Some((n, c)),
                None => None,
            },
            None => None,
        },
        None => None,
    }
}

/// Array suffixes `[N]` after a type `t`, each one wrapping the type so
/// far: `octet[10][5]` is an array of 5 arrays of 10 octets.
pub open spec fn g_array_suffixes(s: Seq<char>, p: int, t: TypeModel) -> (TypeModel, int)
    decreases s.len() - p,
{
    match g_array_suffix(s, p) {
        Some((n, r)) => if p < r && r <= s.len() {
            g_array_suffixes(s, r, TypeModel::Array(Box::new(t), n))
        } else {
            (t, p)
        },
        None => (t, p),
    }
}

/// A base type with the whitespace after it, then any number of array
/// suffixes.
pub open spec fn g_type_ref(s: Seq<char>, p: int) -> Option<(TypeModel, int)>
    decreases s.len() - p, 3int,
{
    match g_base_type(s, p) {
        Some((b, q)) => Some(g_array_suffixes(s, q, b)),
        None => None,
    }
}

/// A base type, then the whitespace and comments after it: in `long long
/// name` the rest starts at `name`.
pub open spec fn g_base_type(s: Seq<char>, p: int) -> Option<(TypeModel, int)>
    decreases s.len() - p, 2int,
{
    match g_base_token(s, p) {
        Some((t, q)) => Some((t, g_ws0(s, q))),
        None => None,
    }
}

/// The text of a base type: sequence, primitive, string, bitfield, or type
/// name, in that order.
pub open spec fn g_base_token(s: Seq<char>, p: int) -> Option<(TypeModel, int)>
    decreases s.len() - p, 1int,
{
    let seq = g_sequence(s, p);
    if seq is Some {
        seq
    } else if g_primitive(s, p) is Some {
        g_primitive(s, p)
    } else if g_string_type(s, p) is Some {
        g_string_type(s, p)
    } else if g_bitfield_type(s, p) is Some {
        g_bitfield_type(s, p)
    } else {
        g_type_name(s, p)
    }
}

/// `sequence<T>`.
pub open spec fn g_sequence(s: Seq<char>, p: int) -> Option<(TypeModel, int)>
    decreases s.len() - p, 0int,
{
    match g_keyword(s, p, kw_sequence()) {
        Some(a) => match g_in_ws_char(s, a, '<') {
            Some(b) => {
                proof {
                    lemma_in_ws_char(s, a, '<');
                }
                match g_type_ref(s, b) {
                    Some((t, c)) => match g_char(s, g_ws0(s, c), '>') {
                        Some(d) => Some((TypeModel::Sequence(Box::new(t)), d)),
                        None => None,
                    },
                    None => None,
                }
            },
            None => None,
        },
        None => None,
    }
}

// ---------------------------------------------------------------------------
// Fields, structs, bitsets, modules
// ---------------------------------------------------------------------------

/// The whitespace and comments between a field's type, from `a` to `b`,
/// and its name: at least one character of them, which may already lie
/// behind `b` (a base type takes the whitespace after it). The name's
/// position.
pub open spec fn g_type_gap(s: Seq<char>, a: int, b: int) -> Option<int> {
    let c = g_ws0(s, b);
    if b < c || (0 <= a < b <= s.len() && in_class(s[b - 1], CharClass::Space)) {
        Some(c)
    } else {
        None
    }
}

/// `annotation* type_ref name ;`
pub open spec fn g_field(s: Seq<char>, p: int) -> Option<(FieldModel, int)> {
    match g_annotations(s, p, Seq::empty()) {
        Some((anns, a)) => match g_typed_name(s, a) {
            Some((t, name, e)) => Some((FieldModel { annotations: anns, field_type: t, name }, e)),
            None => None,
        },
        None => None,
    }
}

/// `type_ref name ;` from `a`: the type, the name, and the position after `;`.
pub open spec fn g_typed_name(s: Seq<char>, a: int) -> Option<(TypeModel, Seq<char>, int)> {
    match g_type_ref(s, a) {
        Some((t, b)) => match g_type_gap(s, a, b) {
            Some(c) => match g_identifier(s, c) {
                Some(d) => match g_in_ws_char(s, d, ';') {
                    Some(e) => Some((t, s.subrange(c, d), e)),
                    None => None,
                },
                None => None,
            },
            None => None,
        },
        None => None,
    }
}

/// Zero or more fields.
pub open spec fn g_fields(s: Seq<char>, p: int, acc: Seq<FieldModel>) -> Option<
    (Seq<FieldModel>, int),
>
    decreases s.len() - p,
{
    match g_field(s, p) {
        Some((f, q)) => if p < q && q <= s.len() {
            g_fields(s, q, acc.push(f))
        } else {
            None
        },
        None => Some((acc, p)),
    }
}

/// `keyword name {`, with whitespace and comments before the keyword,
/// at least one after it, and any around `{`; returns the name's bounds
/// and the position after `{`.
pub open spec fn g_header(s: Seq<char>, p: int, keyword: Seq<char>) -> Option<(int, int, int)> {
    match g_tag(s, g_ws0(s, p), keyword) {
        Some(a) => match g_ws1(s, a) {
            Some(b) => match g_identifier(s, b) {
                Some(c) => match g_in_ws_char(s, c, '{') {
                    Some(d) => Some((b, c, d)),
                    None => None,
                },
                None => None,
            },
            None => None,
        },
        None => None,
    }
}

/// `struct name { field* }`.
#[verifier::opaque]
pub open spec fn g_struct(s: Seq<char>, p: int) -> Option<(StructModel, int)> {
    match g_header(s, p, kw_struct()) {
        Some((a, b, c)) => match g_fields(s, c, Seq::empty()) {
            Some((fields, d)) => match g_in_ws_char(s, d, '}') {
                Some(e) => Some((StructModel { name: s.subrange(a, b), fields }, e)),
                None => None,
            },
            None => None,
        },
        None => None,
    }
}

/// `bitfield<N> name ;`; the width keeps the low eight bits of `N`.
pub open spec fn g_bitfield_def(s: Seq<char>, p: int) -> Option<(BitSetFieldModel, int)> {
    match g_tag(s, p, kw_bitfield()) {
        Some(a) => match g_angle_integer(s, a) {
            Some((w, b)) => match g_multispace1(s, b) {
                Some(c) => match g_identifier(s, c) {
                    Some(d) => match g_in_ws_char(s, d, ';') {
                        Some(e) => Some(
                            (BitSetFieldModel { width: (w % 256) as u8, name: s.subrange(c, d) }, e),
                        ),
                        None => None,
                    },
                    None => None,
                },
                None => None,
            },
            None => None,
        },
        None => None,
    }
}

/// Zero or more bitfield definitions.
pub open spec fn g_bitfields(s: Seq<char>, p: int, acc: Seq<BitSetFieldModel>) -> Option<
    (Seq<BitSetFieldModel>, int),
>
    decreases s.len() - p,
{
    match g_bitfield_def(s, p) {
        Some((f, q)) => if p < q && q <= s.len() {
            g_bitfields(s, q, acc.push(f))
        } else {
            None
        },
        None => Some((acc, p)),
    }
}

/// `bitset name { bitfield_def* }`.
#[verifier::opaque]
pub open spec fn g_bitset(s: Seq<char>, p: int) -> Option<(BitSetModel, int)> {
    match g_header(s, p, kw_bitset()) {
        Some((a, b, c)) => match g_bitfields(s, c, Seq::empty()) {
            Some((fields, d)) => match g_in_ws_char(s, d, '}') {
                Some(e) => Some((BitSetModel { name: s.subrange(a, b), fields }, e)),
                None => None,
            },
            None => None,
        },
        None => None,
    }
}

/// `module name { content* }`.
pub open spec fn g_module(s: Seq<char>, p: int) -> Option<(ModuleModel, int)>
    decreases s.len() - p, 0int,
{
    match g_header(s, p, kw_module()) {
        Some((a, b, c)) => {
            proof {
                lemma_header(s, p, kw_module());
            }
            match g_contents(s, c, Seq::empty()) {
                Some((content, d)) => match g_in_ws_char(s, d, '}') {
                    Some(e) => Some((ModuleModel { name: s.subrange(a, b), content }, e)),
                    None => None,
                },
                None => None,
            }
        },
        None => None,
    }
}

/// A struct, bitset or module, then an optional `;`.
pub open spec fn g_content(s: Seq<char>, p: int) -> Option<(ContentModel, int)>
    decreases s.len() - p, 1int,
{
    let item = if let Some((st, q)) = g_struct(s, p) {
        Some((ContentModel::Struct(st), q))
    } else if let Some((b, q)) = g_bitset(s, p) {
        Some((ContentModel::BitSet(b), q))
    } else if let Some((m, q)) = g_module(s, p) {
        Some((ContentModel::Module(Box::new(m)), q))
    } else {
        None
    };
    match item {
        Some((c, q)) => match g_in_ws_char(s, q, ';') {
            Some(r) => Some((c, r)),
            None => Some((c, q)),
        },
        None => None,
    }
}

/// Zero or more module contents.
pub open spec fn g_contents(s: Seq<char>, p: int, acc: Seq<ContentModel>) -> Option<
    (Seq<ContentModel>, int),
>
    decreases s.len() - p, 2int,
{
    match g_content(s, p) {
        Some((c, q)) => if p < q && q <= s.len() {
            g_contents(s, q, acc.push(c))
        } else {
            None
        },
        None => Some((acc, p)),
    }
}

/// Where the input after the top-level module starts, once whitespace and
/// comments are skipped.
pub open spec fn trailing_start(s: Seq<char>) -> Option<int> {
    match g_module(s, 0) {
        Some((_, p)) => Some(g_ws0(s, p)),
        None => None,
    }
}

/// A whole IDL text: one module, then only whitespace and comments.
pub open spec fn g_idl(s: Seq<char>) -> Option<ModuleModel> {
    match g_module(s, 0) {
        Some((m, p)) => if g_ws0(s, p) == s.len() {
            Some(m)
        } else {
            None
        },
        None => None,
    }
}

// ---------------------------------------------------------------------------
// Bounds
// ---------------------------------------------------------------------------

pub proof fn lemma_find_newline(s: Seq<char>, p: int)
    ensures
        find_newline(s, p) matches Some(n) ==> p <= n < s.len() && s[n] == '\n',
    decreases s.len() - p,
{
    if 0 <= p < s.len() && s[p] != '\n' {
        lemma_find_newline(s, p + 1);
    }
}

pub proof fn lemma_scan(s: Seq<char>, p: int, k: CharClass)
    ensures
        p <= scan(s, p, k),
        p <= s.len() ==> scan(s, p, k) <= s.len(),
    decreases s.len() - p,
{
    if 0 <= p < s.len() && in_class(s[p], k) {
        lemma_scan(s, p + 1, k);
    }
}

pub proof fn lemma_ws0(s: Seq<char>, p: int)
    ensures
        p <= g_ws0(s, p),
        p <= s.len() ==> g_ws0(s, p) <= s.len(),
    decreases s.len() - p,
{
    if 0 <= p < s.len() && in_class(s[p], CharClass::Space) {
        lemma_ws0(s, p + 1);
    } else {
        lemma_find_newline(s, p + 2);
        if let Some(q) = g_comment(s, p) {
            lemma_ws0(s, q);
        }
    }
}

pub proof fn lemma_in_ws_char(s: Seq<char>, p: int, c: char)
    ensures
        g_in_ws_char(s, p, c) matches Some(q) ==> p < q <= s.len(),
{
    lemma_ws0(s, p);
    if let Some(q) = g_char(s, g_ws0(s, p), c) {
        lemma_ws0(s, q);
    }
}

pub proof fn lemma_identifier(s: Seq<char>, p: int)
    ensures
        g_identifier(s, p) matches Some(q) ==> p < q <= s.len(),
{
    if 0 <= p < s.len() && in_class(s[p], CharClass::AsciiAlpha) {
        assert(scan(s, p, CharClass::AsciiAlpha) == scan(s, p + 1, CharClass::AsciiAlpha));
        lemma_scan(s, p + 1, CharClass::AsciiAlpha);
        lemma_scan(s, scan(s, p, CharClass::AsciiAlpha), CharClass::Ident);
    } else if 0 <= p < s.len() && s[p] == '_' {
        lemma_scan(s, p + 1, CharClass::Ident);
    }
}

pub proof fn lemma_value(s: Seq<char>, p: int)
    ensures
        g_value(s, p) matches Some((_, q)) ==> p < q <= s.len(),
{
    lemma_scan(s, p, CharClass::Value);
    lemma_scan(s, p + 1, CharClass::Value);
    if 0 <= p < s.len() && in_class(s[p], CharClass::Value) {
        assert(scan(s, p, CharClass::Value) == scan(s, p + 1, CharClass::Value));
    }
}

pub proof fn lemma_kv_pair(s: Seq<char>, p: int)
    ensures
        g_kv_pair(s, p) matches Some((_, q)) ==> p < q <= s.len(),
{
    lemma_ws0(s, p);
    let a = g_ws0(s, p);
    lemma_identifier(s, a);
    if let Some(b) = g_identifier(s, a) {
        lemma_ws0(s, b);
        let c = g_ws0(s, b);
        lemma_in_ws_char(s, c, '=');
        if let Some(d) = g_in_ws_char(s, c, '=') {
            lemma_value(s, d);
        }
    }
}

pub proof fn lemma_header(s: Seq<char>, p: int, keyword: Seq<char>)
    requires
        keyword.len() > 0,
    ensures
        g_header(s, p, keyword) matches Some((a, b, c)) ==> p < a < b < c <= s.len(),
{
    lemma_ws0(s, p);
    if let Some(a) = g_tag(s, g_ws0(s, p), keyword) {
        lemma_ws0(s, a);
        if let Some(b) = g_ws1(s, a) {
            lemma_identifier(s, b);
            if let Some(c) = g_identifier(s, b) {
                lemma_in_ws_char(s, c, '{');
            }
        }
    }
}

} // verus!
