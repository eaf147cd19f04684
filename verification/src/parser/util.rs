//! Lexical helpers: character classes, keywords, whitespace and comments,
//! identifiers and integers.
use vstd::prelude::*;

use super::grammar::{
    digits_value, find_newline, g_char, g_comment, g_identifier, g_in_ws_char, g_integer,
    g_keyword, g_multispace1, g_tag, g_ws0, g_ws1, in_class, lemma_find_newline, lemma_scan, scan, CharClass,
};
use crate::text::{chars_of, substring};

verus! {

/// The text being parsed, with its characters laid out for indexing.
pub struct Source<'a> {
    pub text: &'a str,
    pub chars: Vec<char>,
}

impl<'a> Source<'a> {
    pub open spec fn wf(&self) -> bool {
        self.chars@ == self.text@
    }

    pub open spec fn s(&self) -> Seq<char> {
        self.chars@
    }

    pub fn new(text: &'a str) -> (r: Self)
        ensures
            r.wf(),
            r.s() == text@,
            r.text == text,
    {
        Source { text, chars: chars_of(text) }
    }

    /// The characters `from..to` as a `String`.
    pub fn slice(&self, from: usize, to: usize) -> (r: String)
        requires
            self.wf(),
            from <= to <= self.s().len(),
        ensures
            r@ == self.s().subrange(from as int, to as int),
    {
        substring(self.text, from, to)
    }
}

/// A position result, widened to `int`.
pub open spec fn opt_pos(r: Option<usize>) -> Option<int> {
    match r {
        Some(q) => Some(q as int),
        None => None,
    }
}

/// Whether an exec parse result agrees with its grammar rule.
pub open spec fn agrees<T: View>(r: Option<(T, usize)>, g: Option<(T::V, int)>) -> bool {
    match r {
        Some((v, q)) => g == Some((v@, q as int)),
        None => g is None,
    }
}

/// Whether a parse result from `p` ends within `(p, len]`.
pub open spec fn advances<T>(r: Option<(T, usize)>, p: usize, len: int) -> bool {
    r matches Some((_, q)) ==> p < q && q <= len
}

pub fn class_contains(c: char, k: CharClass) -> (r: bool)
    ensures
        r == in_class(c, k),
{
    match k {
        CharClass::Space => c == ' ' || c == '\t' || c == '\r' || c == '\n',
        CharClass::Digit => '0' <= c && c <= '9',
        CharClass::AsciiAlpha => ('a' <= c && c <= 'z') || ('A' <= c && c <= 'Z'),
        CharClass::Ident => c == '_' || ('a' <= c && c <= 'z') || ('A' <= c && c <= 'Z') || (
        '0' <= c && c <= '9'),
        CharClass::Value => c == '.' || c == '/' || c == '_' || ('a' <= c && c <= 'z') || ('A'
            <= c && c <= 'Z') || ('0' <= c && c <= '9'),
    }
}

/// End of the run of `k` characters starting at `p`.
pub fn scan_class(s: &[char], p: usize, k: CharClass) -> (r: usize)
    requires
        p <= s@.len(),
    ensures
        r == scan(s@, p as int, k),
        p <= r <= s@.len(),
{
    let mut i = p;
    while i < s.len() && class_contains(s[i], k)
        invariant
            p <= i <= s@.len(),
            scan(s@, p as int, k) == scan(s@, i as int, k),
        decreases s@.len() - i,
    {
        i = i + 1;
    }
    i
}

/// The character `c` at `p`.
pub fn match_char(s: &[char], p: usize, c: char) -> (r: Option<usize>)
    ensures
        opt_pos(r) == g_char(s@, p as int, c),
        r matches Some(q) ==> q == p + 1 && q <= s@.len(),
{
    if p < s.len() && s[p] == c {
        Some(p + 1)
    } else {
        None
    }
}

/// The text `t` at `p`.
pub fn match_tag(s: &[char], p: usize, t: &[char]) -> (r: Option<usize>)
    ensures
        opt_pos(r) == g_tag(s@, p as int, t@),
        r matches Some(q) ==> q == p + t@.len() && q <= s@.len(),
{
    if p > s.len() || t.len() > s.len() - p {
        return None;
    }
    let mut i: usize = 0;
    while i < t.len()
        invariant
            p + t@.len() <= s@.len(),
            s@.len() == s.len(),
            i <= t@.len(),
            forall|j: int| 0 <= j < i ==> s@[p + j] == t@[j],
        decreases t@.len() - i,
    {
        if s[p + i] != t[i] {
            assert(s@.subrange(p as int, p + t@.len())[i as int] != t@[i as int]);
            return None;
        }
        i = i + 1;
    }
    assert(s@.subrange(p as int, p + t@.len()) =~= t@);
    Some(p + t.len())
}

/// The keyword `t` at `p`, not followed by an identifier character.
pub fn match_keyword(s: &[char], p: usize, t: &[char]) -> (r: Option<usize>)
    ensures
        opt_pos(r) == g_keyword(s@, p as int, t@),
        r matches Some(q) ==> q == p + t@.len() && q <= s@.len(),
{
    let q = match_tag(s, p, t)?;
    if q < s.len() && class_contains(s[q], CharClass::Ident) {
        None
    } else {
        Some(q)
    }
}

/// Position of the first line feed at or after `p`.
fn find_newline_exec(s: &[char], p: usize) -> (r: Option<usize>)
    requires
        p <= s@.len(),
    ensures
        opt_pos(r) == find_newline(s@, p as int),
{
    let mut i = p;
    while i < s.len()
        invariant
            p <= i <= s@.len(),
            find_newline(s@, p as int) == find_newline(s@, i as int),
        decreases s@.len() - i,
    {
        if s[i] == '\n' {
            return Some(i);
        }
        i = i + 1;
    }
    None
}

/// A line comment at `p`.
pub fn comment(s: &[char], p: usize) -> (r: Option<usize>)
    ensures
        opt_pos(r) == g_comment(s@, p as int),
        r matches Some(q) ==> p < q <= s@.len(),
{
    let slashes: &[char] = &['/', '/'];
    match match_tag(s, p, slashes) {
        Some(q) => {
            proof {
                lemma_find_newline(s@, q as int);
                assert(s@.len() == s.len());
            }
            match find_newline_exec(s, q) {
                Some(n) => Some(n + 1),
                None => None,
            }
        },
        None => None,
    }
}

/// Zero or more whitespace characters and comments.
pub fn ws0(s: &[char], p: usize) -> (r: usize)
    requires
        p <= s@.len(),
    ensures
        r == g_ws0(s@, p as int),
        p <= r <= s@.len(),
{
    let mut i = p;
    loop
        invariant
            p <= i <= s@.len(),
            g_ws0(s@, p as int) == g_ws0(s@, i as int),
        decreases s@.len() - i,
    {
        if i < s.len() && class_contains(s[i], CharClass::Space) {
            i = i + 1;
        } else {
            match comment(s, i) {
                Some(q) => {
                    i = q;
                },
                None => {
                    return i;
                },
            }
        }
    }
}

/// One or more whitespace characters and comments.
pub fn ws1(s: &[char], p: usize) -> (r: Option<usize>)
    requires
        p <= s@.len(),
    ensures
        opt_pos(r) == g_ws1(s@, p as int),
        r matches Some(q) ==> p < q <= s@.len(),
{
    let q = ws0(s, p);
    if q == p {
        None
    } else {
        Some(q)
    }
}

/// One or more whitespace characters.
pub fn multispace1(s: &[char], p: usize) -> (r: Option<usize>)
    requires
        p <= s@.len(),
    ensures
        opt_pos(r) == g_multispace1(s@, p as int),
        r matches Some(q) ==> p < q <= s@.len(),
{
    if p < s.len() && class_contains(s[p], CharClass::Space) {
        let q = scan_class(s, p, CharClass::Space);
        proof {
            assert(scan(s@, p as int, CharClass::Space) == scan(s@, p + 1, CharClass::Space));
            lemma_scan(s@, p + 1, CharClass::Space);
        }
        Some(q)
    } else {
        None
    }
}

/// The character `c` with optional whitespace and comments around it.
pub fn in_ws_char(s: &[char], p: usize, c: char) -> (r: Option<usize>)
    requires
        p <= s@.len(),
    ensures
        opt_pos(r) == g_in_ws_char(s@, p as int, c),
        r matches Some(q) ==> p < q <= s@.len(),
{
    let a = ws0(s, p);
    match match_char(s, a, c) {
        Some(b) => Some(ws0(s, b)),
        None => None,
    }
}

/// An identifier at `p`.
pub fn identifier(s: &[char], p: usize) -> (r: Option<usize>)
    requires
        p <= s@.len(),
    ensures
        opt_pos(r) == g_identifier(s@, p as int),
        r matches Some(q) ==> p < q <= s@.len(),
{
    if p < s.len() && class_contains(s[p], CharClass::AsciiAlpha) {
        let a = scan_class(s, p, CharClass::AsciiAlpha);
        proof {
            assert(scan(s@, p as int, CharClass::AsciiAlpha) == scan(
                s@,
                p + 1,
                CharClass::AsciiAlpha,
            ));
            lemma_scan(s@, p + 1, CharClass::AsciiAlpha);
        }
        Some(scan_class(s, a, CharClass::Ident))
    } else if p < s.len() && s[p] == '_' {
        Some(scan_class(s, p + 1, CharClass::Ident))
    } else {
        None
    }
}

/// A decimal integer at `p`; one too large for `u32` reads as `0`.
pub fn integer(s: &[char], p: usize) -> (r: Option<(u32, usize)>)
    requires
        p <= s@.len(),
    ensures
        match r {
            Some((v, q)) => g_integer(s@, p as int) == Some((v, q as int)) && p < q <= s@.len(),
            None => g_integer(s@, p as int) is None,
        },
{
    if !(p < s.len() && class_contains(s[p], CharClass::Digit)) {
        return None;
    }
    let mut i = p;
    let mut v: u64 = 0;
    let mut over = false;
    while i < s.len() && class_contains(s[i], CharClass::Digit)
        invariant
            p <= i <= s@.len(),
            scan(s@, p as int, CharClass::Digit) == scan(s@, i as int, CharClass::Digit),
            forall|j: int| p <= j < i ==> in_class(#[trigger] s@[j], CharClass::Digit),
            !over ==> v == digits_value(s@.subrange(p as int, i as int)) && v <= u32::MAX,
            over ==> digits_value(s@.subrange(p as int, i as int)) > u32::MAX,
        decreases s@.len() - i,
    {
        let d = (s[i] as u32) - ('0' as u32);
        let ghost prev = s@.subrange(p as int, i as int);
        let ghost next = s@.subrange(p as int, i + 1);
        proof {
            assert(next.drop_last() =~= prev);
            assert(next.last() == s@[i as int]);
        }
        if !over {
            let w = v * 10 + d as u64;
            if w > u32::MAX as u64 {
                over = true;
            } else {
                v = w;
            }
        }
        i = i + 1;
    }
    proof {
        lemma_scan(s@, p + 1, CharClass::Digit);
        assert(scan(s@, p as int, CharClass::Digit) == scan(s@, p + 1, CharClass::Digit));
    }
    if over {
        Some((0, i))
    } else {
        Some((v as u32, i))
    }
}

pub fn kw_module() -> (r: &'static [char])
    ensures
        r@ == super::grammar::kw_module(),
{
    let r: &'static [char] = &['m', 'o', 'd', 'u', 'l', 'e'];
    r
}

pub fn kw_struct() -> (r: &'static [char])
    ensures
        r@ == super::grammar::kw_struct(),
{
    let r: &'static [char] = &['s', 't', 'r', 'u', 'c', 't'];
    r
}

pub fn kw_bitset() -> (r: &'static [char])
    ensures
        r@ == super::grammar::kw_bitset(),
{
    let r: &'static [char] = &['b', 'i', 't', 's', 'e', 't'];
    r
}

pub fn kw_bitfield() -> (r: &'static [char])
    ensures
        r@ == super::grammar::kw_bitfield(),
{
    let r: &'static [char] = &['b', 'i', 't', 'f', 'i', 'e', 'l', 'd'];
    r
}

pub fn kw_sequence() -> (r: &'static [char])
    ensures
        r@ == super::grammar::kw_sequence(),
{
    let r: &'static [char] = &['s', 'e', 'q', 'u', 'e', 'n', 'c', 'e'];
    r
}

pub fn kw_string() -> (r: &'static [char])
    ensures
        r@ == super::grammar::kw_string(),
{
    let r: &'static [char] = &['s', 't', 'r', 'i', 'n', 'g'];
    r
}

pub fn kw_unsigned() -> (r: &'static [char])
    ensures
        r@ == super::grammar::kw_unsigned(),
{
    let r: &'static [char] = &['u', 'n', 's', 'i', 'g', 'n', 'e', 'd'];
    r
}

pub fn kw_long() -> (r: &'static [char])
    ensures
        r@ == super::grammar::kw_long(),
{
    let r: &'static [char] = &['l', 'o', 'n', 'g'];
    r
}

pub fn kw_short() -> (r: &'static [char])
    ensures
        r@ == super::grammar::kw_short(),
{
    let r: &'static [char] = &['s', 'h', 'o', 'r', 't'];
    r
}

pub fn kw_octet() -> (r: &'static [char])
    ensures
        r@ == super::grammar::kw_octet(),
{
    let r: &'static [char] = &['o', 'c', 't', 'e', 't'];
    r
}

pub fn kw_double() -> (r: &'static [char])
    ensures
        r@ == super::grammar::kw_double(),
{
    let r: &'static [char] = &['d', 'o', 'u', 'b', 'l', 'e'];
    r
}

pub fn kw_float() -> (r: &'static [char])
    ensures
        r@ == super::grammar::kw_float(),
{
    let r: &'static [char] = &['f', 'l', 'o', 'a', 't'];
    r
}

pub fn kw_boolean() -> (r: &'static [char])
    ensures
        r@ == super::grammar::kw_boolean(),
{
    let r: &'static [char] = &['b', 'o', 'o', 'l', 'e', 'a', 'n'];
    r
}

} // verus!
