//! What decoding means: spec functions from a configuration, a module
//! model and input bytes to decoded value models or an error kind.
use vstd::prelude::*;
use vstd::utf8::{decode_utf8, valid_utf8};

use super::value::{lookup, map_insert, ValueModel};
use super::DecoderConfig;
use crate::text::{decimal, utf16_decode, utf8_error_text};
use crate::ast::{AnnotationModel, ContentModel, FieldModel, ModuleModel, StructModel, TypeModel};

verus! {

/// The error a decode ends with: its kind and message, or for a short
/// input how many bytes were needed and how many there were.
pub ghost enum ErrorModel {
    InvalidConfig(Seq<char>),
    SchemaNotFound(Seq<char>),
    UnexpectedEndOfInput { expected: int, got: int },
    InvalidData(Seq<char>),
    UnsupportedType(Seq<char>),
}

/// The text of an error: its kind, then its message or the byte counts.
pub open spec fn display(e: ErrorModel) -> Seq<char> {
    match e {
        ErrorModel::InvalidConfig(m) => "invalid config: "@ + m,
        ErrorModel::SchemaNotFound(m) => "schema not found: "@ + m,
        ErrorModel::UnexpectedEndOfInput { expected, got } => "unexpected end of input: expected "@
            + decimal(expected as nat) + " bytes, got "@ + decimal(got as nat),
        ErrorModel::InvalidData(m) => "invalid data: "@ + m,
        ErrorModel::UnsupportedType(m) => "unsupported type: "@ + m,
    }
}

/// The message for element `i` of an array or a sequence that failed with `e`.
pub open spec fn element_message(what: Seq<char>, i: int, e: ErrorModel) -> Seq<char> {
    what + " "@ + decimal(i as nat) + ": "@ + display(e)
}

/// Why a configuration is refused: the first bad setting and its value.
pub open spec fn config_error(c: DecoderConfig) -> ErrorModel {
    if !valid_length_field_length(c.length_field_length) {
        ErrorModel::InvalidConfig(
            "length_field_length must be 1, 2, or 4, got "@ + decimal(c.length_field_length as nat),
        )
    } else {
        ErrorModel::InvalidConfig(
            "padding_length must be 1,2,4,8,16,32,64, got "@ + decimal(c.padding_length as nat),
        )
    }
}

/// Encoding of a string, as announced by its byte order mark.
#[derive(Debug, Clone, Copy, PartialEq, Eq)]
pub enum StringEncoding {
    Utf8,
    Utf16Be,
    Utf16Le,
}

/// A decoded frame.
pub ghost struct FrameModel {
    pub can_id: u32,
    pub payload: Seq<u8>,
    pub len: u32,
    pub format_annotation: Option<Seq<char>>,
}

/// A decoded packet.
pub ghost struct PacketModel {
    pub ts: u64,
    pub frames: Seq<FrameModel>,
}

// ---------------------------------------------------------------------------
// Configuration
// ---------------------------------------------------------------------------

pub open spec fn valid_length_field_length(l: u8) -> bool {
    l == 1 || l == 2 || l == 4
}

pub open spec fn valid_padding_length(p: usize) -> bool {
    p == 1 || p == 2 || p == 4 || p == 8 || p == 16 || p == 32 || p == 64
}

pub open spec fn config_valid(c: DecoderConfig) -> bool {
    valid_length_field_length(c.length_field_length) && valid_padding_length(c.padding_length)
}

// ---------------------------------------------------------------------------
// Integers
// ---------------------------------------------------------------------------

pub open spec fn pow256(n: nat) -> nat
    decreases n,
{
    if n == 0 {
        1
    } else {
        256 * pow256((n - 1) as nat)
    }
}

/// Unsigned value of `b`, most significant byte first.
pub open spec fn be_value(b: Seq<u8>) -> nat
    decreases b.len(),
{
    if b.len() == 0 {
        0
    } else {
        be_value(b.drop_last()) * 256 + b.last() as nat
    }
}

/// Unsigned value of `b`, least significant byte first.
pub open spec fn le_value(b: Seq<u8>) -> nat
    decreases b.len(),
{
    if b.len() == 0 {
        0
    } else {
        le_value(b.drop_first()) * 256 + b[0] as nat
    }
}

/// Unsigned value of `b` in the configured byte order.
pub open spec fn uint_value(little: bool, b: Seq<u8>) -> nat {
    if little {
        le_value(b)
    } else {
        be_value(b)
    }
}

pub proof fn lemma_pow256_mono(a: nat, b: nat)
    requires
        a <= b,
    ensures
        pow256(a) <= pow256(b),
        pow256(a) >= 1,
    decreases b,
{
    if b > 0 && a < b {
        lemma_pow256_mono(a, (b - 1) as nat);
    } else if b > 0 {
        lemma_pow256_mono((b - 1) as nat, (b - 1) as nat);
    }
}

pub proof fn lemma_pow256_8()
    ensures
        pow256(8) == 0x1_0000_0000_0000_0000,
        pow256(7) == 0x100_0000_0000_0000,
        pow256(4) == 0x1_0000_0000,
        pow256(2) == 0x1_0000,
        pow256(1) == 0x100,
{
    reveal_with_fuel(pow256, 9);
}

pub proof fn lemma_be_bound(b: Seq<u8>)
    ensures
        be_value(b) < pow256(b.len()),
    decreases b.len(),
{
    if b.len() > 0 {
        lemma_be_bound(b.drop_last());
        let x = be_value(b.drop_last());
        let p = pow256((b.len() - 1) as nat);
        let y = b.last() as nat;
        assert(x * 256 + y < p * 256) by (nonlinear_arith)
            requires
                x < p,
                y < 256,
        ;
    }
}

pub proof fn lemma_le_bound(b: Seq<u8>)
    ensures
        le_value(b) < pow256(b.len()),
    decreases b.len(),
{
    if b.len() > 0 {
        lemma_le_bound(b.drop_first());
        let x = le_value(b.drop_first());
        let p = pow256((b.len() - 1) as nat);
        let y = b[0] as nat;
        assert(x * 256 + y < p * 256) by (nonlinear_arith)
            requires
                x < p,
                y < 256,
        ;
    }
}

/// The first `n` bytes and the rest.
pub open spec fn read_bytes(data: Seq<u8>, n: nat) -> Result<(Seq<u8>, Seq<u8>), ErrorModel> {
    if data.len() < n {
        Err(ErrorModel::UnexpectedEndOfInput { expected: n as int, got: data.len() as int })
    } else {
        Ok((data.take(n as int), data.skip(n as int)))
    }
}

/// A length prefix of the configured width.
pub open spec fn length_field(c: DecoderConfig, data: Seq<u8>) -> Result<(nat, Seq<u8>), ErrorModel> {
    if valid_length_field_length(c.length_field_length) {
        match read_bytes(data, c.length_field_length as nat) {
            Ok((chunk, rest)) => Ok((uint_value(c.is_little_endian, chunk), rest)),
            Err(e) => Err(e),
        }
    } else {
        Err(
            ErrorModel::InvalidConfig(
                "invalid length_field_length "@ + decimal(c.length_field_length as nat),
            ),
        )
    }
}

/// A fixed-width primitive read as `width` bytes and turned into a value.
pub open spec fn prim_width(t: TypeModel) -> nat {
    match t {
        TypeModel::Octet | TypeModel::Boolean => 1,
        TypeModel::Short | TypeModel::UnsignedShort => 2,
        TypeModel::Long | TypeModel::UnsignedLong | TypeModel::Float => 4,
        _ => 8,
    }
}

/// The value of a primitive type read from `chunk`.
pub open spec fn prim_value(little: bool, t: TypeModel, chunk: Seq<u8>) -> ValueModel {
    let u = uint_value(little, chunk);
    match t {
        TypeModel::Octet => ValueModel::U8(chunk[0]),
        TypeModel::Boolean => ValueModel::Bool(chunk[0] != 0),
        TypeModel::Short => ValueModel::I16((u as u16) as i16),
        TypeModel::UnsignedShort => ValueModel::U16(u as u16),
        TypeModel::Long => ValueModel::I32((u as u32) as i32),
        TypeModel::UnsignedLong => ValueModel::U32(u as u32),
        TypeModel::LongLong => ValueModel::I64((u as u64) as i64),
        TypeModel::UnsignedLongLong => ValueModel::U64(u as u64),
        TypeModel::Float => ValueModel::F32(u as u32),
        _ => ValueModel::F64(u as u64),
    }
}

pub open spec fn dec_prim(c: DecoderConfig, data: Seq<u8>, t: TypeModel) -> Result<
    (ValueModel, Seq<u8>),
    ErrorModel,
> {
    match read_bytes(data, prim_width(t)) {
        Ok((chunk, rest)) => Ok((prim_value(c.is_little_endian, t, chunk), rest)),
        Err(e) => Err(e),
    }
}

/// A decode result as the spec functions give it: the value's model and
/// the bytes from the returned position to `end`.
pub open spec fn value_outcome(
    r: Result<(crate::decoder::Value, usize), crate::decoder::DecoderError>,
    buf: Seq<u8>,
    end: int,
) -> Result<(ValueModel, Seq<u8>), ErrorModel> {
    match r {
        Ok((v, p)) => Ok((v@, buf.subrange(p as int, end))),
        Err(e) => Err(e@),
    }
}

/// A length prefix as the spec functions give it.
pub open spec fn len_outcome(
    r: Result<(usize, usize), crate::decoder::DecoderError>,
    buf: Seq<u8>,
    end: int,
) -> Result<(nat, Seq<u8>), ErrorModel> {
    match r {
        Ok((n, p)) => Ok((n as nat, buf.subrange(p as int, end))),
        Err(e) => Err(e@),
    }
}

/// The rest of a window after a step that returns a position.
pub open spec fn pos_outcome(
    r: Result<usize, crate::decoder::DecoderError>,
    buf: Seq<u8>,
    end: int,
) -> Result<Seq<u8>, ErrorModel> {
    match r {
        Ok(p) => Ok(buf.subrange(p as int, end)),
        Err(e) => Err(e@),
    }
}

// ---------------------------------------------------------------------------
// Strings
// ---------------------------------------------------------------------------

pub open spec fn detect_bom(d: Seq<u8>) -> Result<(StringEncoding, nat), ErrorModel> {
    if d.len() >= 3 && d[0] == 0xEF && d[1] == 0xBB && d[2] == 0xBF {
        Ok((StringEncoding::Utf8, 3))
    } else if d.len() >= 2 && d[0] == 0xFE && d[1] == 0xFF {
        Ok((StringEncoding::Utf16Be, 2))
    } else if d.len() >= 2 && d[0] == 0xFF && d[1] == 0xFE {
        Ok((StringEncoding::Utf16Le, 2))
    } else {
        Err(ErrorModel::InvalidData("unknown encoding: no valid BOM found"@))
    }
}

/// Position of the first zero byte at or after `i`.
pub open spec fn first_zero(d: Seq<u8>, i: int) -> Option<int>
    decreases d.len() - i,
{
    if i < 0 || i >= d.len() {
        None
    } else if d[i] == 0 {
        Some(i)
    } else {
        first_zero(d, i + 1)
    }
}

/// Index of the first whole two-byte unit, at or after unit `k`, whose
/// bytes are both zero.
pub open spec fn first_zero_unit(d: Seq<u8>, k: int) -> Option<int>
    decreases d.len() - 2 * k,
{
    if k < 0 || 2 * k + 2 > d.len() {
        None
    } else if d[2 * k] == 0 && d[2 * k + 1] == 0 {
        Some(k)
    } else {
        first_zero_unit(d, k + 1)
    }
}

/// The bytes before the string terminator.
pub open spec fn extract_content(d: Seq<u8>, enc: StringEncoding) -> Result<Seq<u8>, ErrorModel> {
    match enc {
        StringEncoding::Utf8 => match first_zero(d, 0) {
            Some(p) => Ok(d.take(p)),
            None => Err(ErrorModel::InvalidData("string terminator not found"@)),
        },
        _ => match first_zero_unit(d, 0) {
            Some(k) => Ok(d.take(2 * k)),
            None => Err(ErrorModel::InvalidData("string terminator not found"@)),
        },
    }
}

/// The UTF-16 code units of `d`, two bytes each.
pub open spec fn utf16_units(d: Seq<u8>, big_endian: bool) -> Seq<u16> {
    Seq::new(
        d.len() / 2,
        |i: int|
            if big_endian {
                (d[2 * i] as int * 256 + d[2 * i + 1] as int) as u16
            } else {
                (d[2 * i + 1] as int * 256 + d[2 * i] as int) as u16
            },
    )
}

/// The two bytes of each UTF-16 code unit in `u`, in the given byte order.
pub open spec fn utf16_bytes(u: Seq<u16>, big_endian: bool) -> Seq<u8> {
    Seq::new(
        2 * u.len(),
        |i: int|
            if (i % 2 == 0) == big_endian {
                (u[i / 2] as int / 256) as u8
            } else {
                (u[i / 2] as int % 256) as u8
            },
    )
}

pub open spec fn decode_content(d: Seq<u8>, enc: StringEncoding) -> Result<Seq<char>, ErrorModel> {
    match enc {
        StringEncoding::Utf8 => if valid_utf8(d) {
            Ok(decode_utf8(d))
        } else {
            Err(ErrorModel::InvalidData("invalid UTF-8: "@ + utf8_error_text(d)))
        },
        _ => if d.len() % 2 != 0 {
            Err(ErrorModel::InvalidData("UTF-16 data length must be even"@))
        } else {
            match utf16_decode(utf16_units(d, enc == StringEncoding::Utf16Be)) {
                Some(s) => Ok(s),
                None => Err(ErrorModel::InvalidData("invalid UTF-16: FromUtf16Error(())"@)),
            }
        },
    }
}

/// `s` without its trailing NUL characters.
pub open spec fn trim_nuls(s: Seq<char>) -> Seq<char>
    decreases s.len(),
{
    if s.len() > 0 && s.last() == '\0' {
        trim_nuls(s.drop_last())
    } else {
        s
    }
}

/// BOM, content, terminator: the text of a string buffer.
pub open spec fn string_text(d: Seq<u8>) -> Result<Seq<char>, ErrorModel> {
    match detect_bom(d) {
        Ok((enc, n)) => match extract_content(d.skip(n as int), enc) {
            Ok(content) => decode_content(content, enc),
            Err(e) => Err(e),
        },
        Err(e) => Err(e),
    }
}

pub open spec fn dec_fixed_string(data: Seq<u8>, n: nat) -> Result<(ValueModel, Seq<u8>), ErrorModel> {
    if data.len() < n {
        Err(ErrorModel::UnexpectedEndOfInput { expected: n as int, got: data.len() as int })
    } else {
        match string_text(data.take(n as int)) {
            Ok(s) => Ok((ValueModel::Str(trim_nuls(s)), data.skip(n as int))),
            Err(e) => Err(e),
        }
    }
}

pub open spec fn dec_dynamic_string(c: DecoderConfig, data: Seq<u8>) -> Result<
    (ValueModel, Seq<u8>),
    ErrorModel,
> {
    match length_field(c, data) {
        Ok((n, rem)) => if rem.len() < n {
            Err(ErrorModel::UnexpectedEndOfInput { expected: n as int, got: rem.len() as int })
        } else {
            match string_text(rem.take(n as int)) {
                Ok(s) => Ok((ValueModel::Str(s), rem.skip(n as int))),
                Err(e) => Err(e),
            }
        },
        Err(e) => Err(e),
    }
}

pub open spec fn dec_string(c: DecoderConfig, data: Seq<u8>, length: Option<u32>) -> Result<
    (ValueModel, Seq<u8>),
    ErrorModel,
> {
    match length {
        Some(n) => dec_fixed_string(data, n as nat),
        None => dec_dynamic_string(c, data),
    }
}

// ---------------------------------------------------------------------------
// Schema lookup
// ---------------------------------------------------------------------------

/// Number of struct definitions in the module tree.
pub open spec fn struct_count(m: ModuleModel) -> nat
    decreases m, 0int,
{
    count_in(m.content, 0)
}

pub open spec fn count_in(cs: Seq<ContentModel>, i: int) -> nat
    decreases cs, cs.len() - i,
{
    if i < 0 || i >= cs.len() {
        0
    } else {
        let here: nat = match cs[i] {
            ContentModel::Struct(_) => 1,
            ContentModel::Module(b) => struct_count(*b),
            ContentModel::BitSet(_) => 0,
        };
        here + count_in(cs, i + 1)
    }
}

/// How many struct lookups may nest at one input position.
///
/// Each lookup finds one of the module's struct definitions, so a chain of
/// more lookups than that at one position finds some definition twice at
/// the same position, and decoding it would start over without end.
pub open spec fn full_budget(m: ModuleModel) -> nat {
    if struct_count(m) <= usize::MAX {
        struct_count(m)
    } else {
        usize::MAX as nat
    }
}

/// First struct named `name`, searching the module tree depth-first in
/// declaration order.
pub open spec fn find_struct(m: ModuleModel, name: Seq<char>) -> Option<StructModel>
    decreases m, 0int,
{
    find_in(m.content, 0, name)
}

pub open spec fn find_in(cs: Seq<ContentModel>, i: int, name: Seq<char>) -> Option<StructModel>
    decreases cs, cs.len() - i,
{
    if i < 0 || i >= cs.len() {
        None
    } else {
        match cs[i] {
            ContentModel::Struct(s) => if s.name == name {
                Some(s)
            } else {
                find_in(cs, i + 1, name)
            },
            ContentModel::Module(b) => match find_struct(*b, name) {
                Some(s) => Some(s),
                None => find_in(cs, i + 1, name),
            },
            ContentModel::BitSet(_) => find_in(cs, i + 1, name),
        }
    }
}

/// First struct directly in `cs`, from `i` on, named `name`.
pub open spec fn direct_struct(cs: Seq<ContentModel>, name: Seq<char>, i: int) -> Option<StructModel>
    decreases cs.len() - i,
{
    if i < 0 || i >= cs.len() {
        None
    } else {
        match cs[i] {
            ContentModel::Struct(s) => if s.name == name {
                Some(s)
            } else {
                direct_struct(cs, name, i + 1)
            },
            _ => direct_struct(cs, name, i + 1),
        }
    }
}

/// First module directly in `cs`, from `i` on, named `name`.
pub open spec fn sub_module(cs: Seq<ContentModel>, name: Seq<char>, i: int) -> Option<ModuleModel>
    decreases cs.len() - i,
{
    if i < 0 || i >= cs.len() {
        None
    } else {
        match cs[i] {
            ContentModel::Module(b) => if b.name == name {
                Some(*b)
            } else {
                sub_module(cs, name, i + 1)
            },
            _ => sub_module(cs, name, i + 1),
        }
    }
}

/// The pieces of `s` between dots, as `str::split('.')` gives them.
pub open spec fn split_dot(s: Seq<char>) -> Seq<Seq<char>>
    decreases s.len(),
{
    if s.len() == 0 {
        seq![Seq::empty()]
    } else {
        let prev = split_dot(s.drop_last());
        if s.last() == '.' {
            prev.push(Seq::empty())
        } else {
            prev.update(prev.len() - 1, prev.last().push(s.last()))
        }
    }
}

pub proof fn lemma_split_dot_len(s: Seq<char>)
    ensures
        split_dot(s).len() >= 1,
    decreases s.len(),
{
    if s.len() > 0 {
        lemma_split_dot_len(s.drop_last());
    }
}

/// The struct named `name` directly in `m`, or the message that it is not there.
pub open spec fn struct_in(m: ModuleModel, name: Seq<char>) -> Result<StructModel, Seq<char>> {
    match direct_struct(m.content, name, 0) {
        Some(s) => Ok(s),
        None => Err("struct '"@ + name + "' not found in module '"@ + m.name + "'"@),
    }
}

/// Follow `parts[idx..]` down the module tree: modules, then a struct; or
/// the message for the first piece that is not there.
pub open spec fn travel(parts: Seq<Seq<char>>, idx: int, m: ModuleModel) -> Result<
    StructModel,
    Seq<char>,
>
    decreases parts.len() - idx,
{
    if idx < 0 || idx >= parts.len() {
        Err(Seq::empty())
    } else if idx == parts.len() - 1 {
        struct_in(m, parts[idx])
    } else {
        match sub_module(m.content, parts[idx], 0) {
            Some(sub) => travel(parts, idx + 1, sub),
            None => Err("module '"@ + parts[idx] + "' not found in '"@ + m.name + "'"@),
        }
    }
}

/// The struct that a dot-separated schema id names, or why there is none.
/// A single name is looked up directly in the root module; a path may
/// start with the root module's name.
pub open spec fn travel_module(m: ModuleModel, id: Seq<char>) -> Result<StructModel, Seq<char>> {
    let parts = split_dot(id);
    if parts.len() == 1 {
        struct_in(m, parts[0])
    } else {
        let start = if m.name == parts[0] {
            1int
        } else {
            0int
        };
        if start >= parts.len() {
            Err("invalid schema_id '"@ + id + "'"@)
        } else {
            travel(parts, start, m)
        }
    }
}

// ---------------------------------------------------------------------------
// Structured decoding
// ---------------------------------------------------------------------------

/// Dynamic strings and sequences are followed by alignment padding.
pub open spec fn needs_padding(t: TypeModel) -> bool {
    t == TypeModel::Str(None) || t is Sequence
}

/// Skip padding so that the bytes consumed so far, counted from the start
/// of the whole input (`total` long), are a multiple of the padding length.
pub open spec fn consume_padding(c: DecoderConfig, total: int, data: Seq<u8>) -> Result<
    Seq<u8>,
    ErrorModel,
> {
    let consumed = total - data.len();
    let rem = consumed % (c.padding_length as int);
    if rem == 0 {
        Ok(data)
    } else {
        let need = c.padding_length - rem;
        if need > data.len() {
            Err(ErrorModel::UnexpectedEndOfInput { expected: need, got: data.len() as int })
        } else {
            Ok(data.skip(need))
        }
    }
}

/// Padding after a field of type `t`, when there is input left.
pub open spec fn after_field(c: DecoderConfig, total: int, t: TypeModel, rest: Seq<u8>) -> Result<
    Seq<u8>,
    ErrorModel,
> {
    if needs_padding(t) && rest.len() > 0 {
        consume_padding(c, total, rest)
    } else {
        Ok(rest)
    }
}

/// The budget for the next decode: back to full once input was consumed.
pub open spec fn next_budget(m: ModuleModel, data: Seq<u8>, rest: Seq<u8>, b: nat) -> nat {
    if rest.len() < data.len() {
        full_budget(m)
    } else {
        b
    }
}

/// The bytes of the `U8` values among `vs`.
pub open spec fn u8s_of(vs: Seq<ValueModel>) -> Seq<u8>
    decreases vs.len(),
{
    if vs.len() == 0 {
        Seq::empty()
    } else {
        u8s_of(vs.drop_last()) + match vs.last() {
            ValueModel::U8(b) => seq![b],
            _ => Seq::empty(),
        }
    }
}

/// `octet` elements become bytes; others a list.
pub open spec fn collect_elements(inner: TypeModel, vs: Seq<ValueModel>) -> ValueModel {
    if inner == TypeModel::Octet {
        ValueModel::Bytes(u8s_of(vs))
    } else {
        ValueModel::List(vs)
    }
}

/// Decode one value of type `t` from the front of `data`.
///
/// `total` is the length of the whole input (for padding); `b` is how many
/// more struct lookups may nest at this input position before decoding is
/// abandoned as one that could never finish.
pub open spec fn dec_type(
    c: DecoderConfig,
    m: ModuleModel,
    total: int,
    data: Seq<u8>,
    t: TypeModel,
    b: nat,
) -> Result<(ValueModel, Seq<u8>), ErrorModel>
    decreases data.len(), b, 1int, t, 0int,
{
    match t {
        TypeModel::Str(length) => dec_string(c, data, length),
        TypeModel::Array(inner, size) => dec_array(c, m, total, data, *inner, size, b),
        TypeModel::Sequence(inner) => dec_seq(c, m, total, data, *inner),
        TypeModel::BitField(_) => Err(
            ErrorModel::UnsupportedType("bitfield decoding not supported in struct fields"@),
        ),
        TypeModel::TypeName(name) => dec_type_name(c, m, total, data, name, b),
        _ => dec_prim(c, data, t),
    }
}

/// A value of the struct type `name`: the first struct of that name in the
/// module tree, decoded field by field.
pub open spec fn dec_type_name(
    c: DecoderConfig,
    m: ModuleModel,
    total: int,
    data: Seq<u8>,
    name: Seq<char>,
    b: nat,
) -> Result<(ValueModel, Seq<u8>), ErrorModel>
    decreases data.len(), b, 0int, TypeModel::Octet, 0int,
{
    match find_struct(m, name) {
        Some(st) => if b == 0 {
            Err(ErrorModel::InvalidData(nesting_message(name)))
        } else {
            match dec_fields(c, m, total, data, st.fields, 0, (b - 1) as nat, Seq::empty()) {
                Ok((entries, rest)) => Ok((ValueModel::Struct(entries), rest)),
                Err(e) => Err(e),
            }
        },
        None => Err(ErrorModel::SchemaNotFound("struct '"@ + name + "' not found"@)),
    }
}

/// The message for a struct whose decoding would start over at the same
/// input position without end.
pub open spec fn nesting_message(name: Seq<char>) -> Seq<char> {
    "struct '"@ + name + "' nests within itself without consuming input"@
}

/// The fields `fields[i..]` of a struct, added to `acc`.
pub open spec fn dec_fields(
    c: DecoderConfig,
    m: ModuleModel,
    total: int,
    data: Seq<u8>,
    fields: Seq<FieldModel>,
    i: int,
    b: nat,
    acc: Seq<(Seq<char>, ValueModel)>,
) -> Result<(Seq<(Seq<char>, ValueModel)>, Seq<u8>), ErrorModel>
    decreases data.len(), b, 2int, TypeModel::Octet, fields.len() - i,
{
    if i < 0 || i >= fields.len() {
        Ok((acc, data))
    } else {
        let f = fields[i];
        match dec_type(c, m, total, data, f.field_type, b) {
            Ok((v, rest)) => match after_field(c, total, f.field_type, rest) {
                Ok(rest2) => if rest2.len() <= data.len() {
                    dec_fields(
                        c,
                        m,
                        total,
                        rest2,
                        fields,
                        i + 1,
                        next_budget(m, data, rest2, b),
                        map_insert(acc, f.name, v),
                    )
                } else {
                    Err(ErrorModel::InvalidData(Seq::empty()))
                },
                Err(e) => Err(e),
            },
            Err(e) => Err(e),
        }
    }
}

/// A fixed-size array: an optional length header that must match `size`,
/// then `size` elements.
pub open spec fn dec_array(
    c: DecoderConfig,
    m: ModuleModel,
    total: int,
    data: Seq<u8>,
    inner: TypeModel,
    size: u32,
    b: nat,
) -> Result<(ValueModel, Seq<u8>), ErrorModel>
    decreases data.len(), b, 1int, inner, size + 1,
{
    let start = if c.enable_array_length_header {
        match length_field(c, data) {
            Ok((n, rest)) => if n != size as nat {
                Err(
                    ErrorModel::InvalidData(
                        "array length header "@ + decimal(n) + " does not match declared size "@
                            + decimal(size as nat),
                    ),
                )
            } else {
                Ok(rest)
            },
            Err(e) => Err(e),
        }
    } else {
        Ok(data)
    };
    match start {
        Ok(d) => if d.len() <= data.len() {
            match dec_array_elems(
                c,
                m,
                total,
                d,
                inner,
                size as nat,
                next_budget(m, data, d, b),
                Seq::empty(),
            ) {
                Ok((vs, rest)) => Ok((collect_elements(inner, vs), rest)),
                Err(e) => Err(e),
            }
        } else {
            Err(ErrorModel::InvalidData(Seq::empty()))
        },
        Err(e) => Err(e),
    }
}

/// `k` more array elements of type `inner`, added to `acc`; an element's
/// error is reported as invalid data.
pub open spec fn dec_array_elems(
    c: DecoderConfig,
    m: ModuleModel,
    total: int,
    data: Seq<u8>,
    inner: TypeModel,
    k: nat,
    b: nat,
    acc: Seq<ValueModel>,
) -> Result<(Seq<ValueModel>, Seq<u8>), ErrorModel>
    decreases data.len(), b, 1int, inner, k,
{
    if k == 0 {
        Ok((acc, data))
    } else {
        match dec_type(c, m, total, data, inner, b) {
            Ok((v, rest)) => if rest.len() <= data.len() {
                dec_array_elems(
                    c,
                    m,
                    total,
                    rest,
                    inner,
                    (k - 1) as nat,
                    next_budget(m, data, rest, b),
                    acc.push(v),
                )
            } else {
                Err(ErrorModel::InvalidData(Seq::empty()))
            },
            Err(e) => Err(ErrorModel::InvalidData(element_message("array element"@, acc.len() as int, e))),
        }
    }
}

/// A sequence: a length prefix giving its size in bytes, then elements
/// until those bytes are used up.
pub open spec fn dec_seq(
    c: DecoderConfig,
    m: ModuleModel,
    total: int,
    data: Seq<u8>,
    inner: TypeModel,
) -> Result<(ValueModel, Seq<u8>), ErrorModel>
    decreases data.len(), 0nat, 1int, inner, 1int,
{
    match length_field(c, data) {
        Ok((n, rem)) => if rem.len() < n {
            Err(ErrorModel::UnexpectedEndOfInput { expected: n as int, got: rem.len() as int })
        } else if rem.len() < data.len() {
            match dec_seq_elems(c, m, total, rem.take(n as int), inner, Seq::empty()) {
                Ok(vs) => Ok((collect_elements(inner, vs), rem.skip(n as int))),
                Err(e) => Err(e),
            }
        } else {
            Err(ErrorModel::InvalidData(Seq::empty()))
        },
        Err(e) => Err(e),
    }
}

/// Elements of type `inner` until `data` is used up, added to `acc`; an
/// element's error, or an element that consumes nothing (the loop would
/// never end), is reported as invalid data.
pub open spec fn dec_seq_elems(
    c: DecoderConfig,
    m: ModuleModel,
    total: int,
    data: Seq<u8>,
    inner: TypeModel,
    acc: Seq<ValueModel>,
) -> Result<Seq<ValueModel>, ErrorModel>
    decreases data.len(), full_budget(m), 1int, inner, 1int,
{
    if data.len() == 0 {
        Ok(acc)
    } else {
        match dec_type(c, m, total, data, inner, full_budget(m)) {
            Ok((v, rest)) => if rest.len() < data.len() {
                dec_seq_elems(c, m, total, rest, inner, acc.push(v))
            } else {
                Err(ErrorModel::InvalidData(
                    "sequence element "@ + decimal(acc.len()) + ": element consumes no bytes"@,
                ))
            },
            Err(e) => Err(ErrorModel::InvalidData(element_message("sequence element"@, acc.len() as int, e))),
        }
    }
}

/// Skip `header_length` bytes.
pub open spec fn prepare(c: DecoderConfig, data: Seq<u8>) -> Result<Seq<u8>, ErrorModel> {
    if c.header_length > 0 && data.len() < c.header_length {
        Err(ErrorModel::UnexpectedEndOfInput { expected: c.header_length as int, got: data.len() as int })
    } else {
        Ok(data.skip(c.header_length as int))
    }
}

/// Decoding the struct that `id` names from `data`: its fields in order.
pub open spec fn spec_decode(c: DecoderConfig, m: ModuleModel, id: Seq<char>, data: Seq<u8>) -> Result<
    Seq<(Seq<char>, ValueModel)>,
    ErrorModel,
> {
    match prepare(c, data) {
        Ok(d) => match travel_module(m, id) {
            Ok(st) => match dec_fields(c, m, data.len() as int, d, st.fields, 0, full_budget(m), Seq::empty()) {
                Ok((entries, _)) => Ok(entries),
                Err(e) => Err(e),
            },
            Err(msg) => Err(ErrorModel::SchemaNotFound(msg)),
        },
        Err(e) => Err(e),
    }
}

// ---------------------------------------------------------------------------
// Packets
// ---------------------------------------------------------------------------

pub open spec fn name_format() -> Seq<char> {
    seq!['f', 'o', 'r', 'm', 'a', 't']
}

pub open spec fn key_dbc() -> Seq<char> {
    seq!['d', 'b', 'c']
}

pub open spec fn key_id() -> Seq<char> {
    seq!['i', 'd']
}

pub open spec fn key_len() -> Seq<char> {
    seq!['l', 'e', 'n']
}

pub open spec fn key_payload() -> Seq<char> {
    seq!['p', 'a', 'y', 'l', 'o', 'a', 'd']
}

/// The `dbc` value of the first `format` annotation in `anns[j..]`, if
/// there is such an annotation.
pub open spec fn format_in(anns: Seq<AnnotationModel>, j: int) -> Option<Option<Seq<char>>>
    decreases anns.len() - j,
{
    if j < 0 || j >= anns.len() {
        None
    } else if anns[j].name == name_format() {
        Some(
            if anns[j].values.contains_key(key_dbc()) {
                Some(anns[j].values[key_dbc()])
            } else {
                None
            },
        )
    } else {
        format_in(anns, j + 1)
    }
}

/// The `dbc` value of the `format` annotation on the first sequence field
/// among `fields[i..]`; `None` when that field has no such annotation.
pub open spec fn format_annotation(fields: Seq<FieldModel>, i: int) -> Option<Seq<char>>
    decreases fields.len() - i,
{
    if i < 0 || i >= fields.len() {
        None
    } else if fields[i].field_type is Sequence {
        match format_in(fields[i].annotations, 0) {
            Some(x) => x,
            None => None,
        }
    } else {
        format_annotation(fields, i + 1)
    }
}

/// A frame from a decoded struct: its `id`, `len` and `payload` fields.
pub open spec fn frame_of(v: ValueModel, fmt: Option<Seq<char>>) -> Result<FrameModel, ErrorModel> {
    match v {
        ValueModel::Struct(e) => match lookup(e, key_id()) {
            Some(ValueModel::U32(id)) => match lookup(e, key_len()) {
                Some(ValueModel::U32(len)) => match lookup(e, key_payload()) {
                    Some(ValueModel::Bytes(payload)) => Ok(
                        FrameModel { can_id: id, payload, len, format_annotation: fmt },
                    ),
                    _ => Err(ErrorModel::InvalidData("frame missing 'payload' field"@)),
                },
                _ => Err(ErrorModel::InvalidData("frame missing 'len' field"@)),
            },
            _ => Err(ErrorModel::InvalidData("frame missing 'id' field"@)),
        },
        _ => Err(ErrorModel::InvalidData("expected struct for frame"@)),
    }
}

/// Frames from `items[i..]`, added to `acc`; the first bad item ends it.
pub open spec fn frames_of(
    items: Seq<ValueModel>,
    i: int,
    fmt: Option<Seq<char>>,
    acc: Seq<FrameModel>,
) -> Result<Seq<FrameModel>, ErrorModel>
    decreases items.len() - i,
{
    if i < 0 || i >= items.len() {
        Ok(acc)
    } else {
        match frame_of(items[i], fmt) {
            Ok(f) => frames_of(items, i + 1, fmt, acc.push(f)),
            Err(e) => Err(e),
        }
    }
}

/// Frames from a decoded sequence, which must be a list.
pub open spec fn extract_frames(v: ValueModel, fmt: Option<Seq<char>>) -> Result<
    Seq<FrameModel>,
    ErrorModel,
> {
    match v {
        ValueModel::List(items) => frames_of(items, 0, fmt, Seq::empty()),
        _ => Err(ErrorModel::InvalidData("expected List for frames sequence"@)),
    }
}

/// One packet field of type `t`: an `unsigned long long` sets the
/// timestamp, an `unsigned short` is skipped, a sequence gives the frames,
/// and any other field is decoded and dropped.
pub open spec fn packet_step(
    c: DecoderConfig,
    m: ModuleModel,
    total: int,
    data: Seq<u8>,
    t: TypeModel,
    ts: Option<u64>,
    frames: Option<Seq<FrameModel>>,
    fmt: Option<Seq<char>>,
) -> Result<(Option<u64>, Option<Seq<FrameModel>>, Seq<u8>), ErrorModel> {
    match t {
        TypeModel::UnsignedLongLong => match read_bytes(data, 8) {
            Ok((chunk, rest)) => Ok(
                (Some(uint_value(c.is_little_endian, chunk) as u64), frames, rest),
            ),
            Err(e) => Err(e),
        },
        TypeModel::UnsignedShort => match read_bytes(data, 2) {
            Ok((_, rest)) => Ok((ts, frames, rest)),
            Err(e) => Err(e),
        },
        TypeModel::Sequence(inner) => match dec_seq(c, m, total, data, *inner) {
            Ok((v, rest)) => match extract_frames(v, fmt) {
                Ok(fs) => match after_field(c, total, t, rest) {
                    Ok(rest2) => Ok((ts, Some(fs), rest2)),
                    Err(e) => Err(e),
                },
                Err(e) => Err(e),
            },
            Err(e) => Err(e),
        },
        _ => match dec_type(c, m, total, data, t, full_budget(m)) {
            Ok((_, rest)) => match after_field(c, total, t, rest) {
                Ok(rest2) => Ok((ts, frames, rest2)),
                Err(e) => Err(e),
            },
            Err(e) => Err(e),
        },
    }
}

/// The packet fields `fields[i..]`, one `packet_step` each.
pub open spec fn packet_fields(
    c: DecoderConfig,
    m: ModuleModel,
    total: int,
    data: Seq<u8>,
    fields: Seq<FieldModel>,
    i: int,
    ts: Option<u64>,
    frames: Option<Seq<FrameModel>>,
    fmt: Option<Seq<char>>,
) -> Result<(Option<u64>, Option<Seq<FrameModel>>), ErrorModel>
    decreases fields.len() - i,
{
    if i < 0 || i >= fields.len() {
        Ok((ts, frames))
    } else {
        match packet_step(c, m, total, data, fields[i].field_type, ts, frames, fmt) {
            Ok((ts2, frames2, rest)) => packet_fields(
                c,
                m,
                total,
                rest,
                fields,
                i + 1,
                ts2,
                frames2,
                fmt,
            ),
            Err(e) => Err(e),
        }
    }
}

/// Decoding a packet: the timestamp and the frames of the struct that `id`
/// names.
pub open spec fn spec_decode_packet(c: DecoderConfig, m: ModuleModel, id: Seq<char>, data: Seq<u8>) -> Result<
    PacketModel,
    ErrorModel,
> {
    match prepare(c, data) {
        Ok(d) => match travel_module(m, id) {
            Ok(st) => {
                let fmt = format_annotation(st.fields, 0);
                match packet_fields(c, m, data.len() as int, d, st.fields, 0, None, None, fmt) {
                    Ok((Some(ts), Some(frames))) => Ok(PacketModel { ts, frames }),
                    Ok((None, _)) => Err(ErrorModel::InvalidData(missing_ts())),
                    Ok((Some(_), None)) => Err(ErrorModel::InvalidData(missing_frames())),
                    Err(e) => Err(e),
                }
            },
            Err(msg) => Err(ErrorModel::SchemaNotFound(msg)),
        },
        Err(e) => Err(e),
    }
}

pub open spec fn missing_ts() -> Seq<char> {
    "packet missing 'ts' (unsigned long long) field"@
}

pub open spec fn missing_frames() -> Seq<char> {
    "packet missing 'frames' (sequence) field"@
}

} // verus!
