//! Core decode dispatch and primitive type decoders.
//!
//! Every decoder reads the window `buf[pos..end]` and returns the decoded
//! value with the position after it.
use vstd::prelude::*;
use vstd::string::*;

use super::model;
use super::model::{
    be_value, collect_elements, config_valid, count_in, dec_array, dec_array_elems, dec_fields,
    dec_prim, dec_seq, dec_seq_elems, dec_type, dec_type_name, find_in, find_struct, full_budget,
    le_value, len_outcome, length_field, pow256, struct_count, u8s_of, uint_value, value_outcome,
    element_message, ErrorModel,
};
use super::value::{values_model, FieldMap, ValueModel};
use super::{Decoder, DecoderError, Value};
use crate::text::decimal_string;
use crate::ast::{Module, ModuleContent, Struct, TypeModel, TypeRef};

verus! {

broadcast use vstd::string::group_string_axioms;

/// What a primitive decoder promises: the result of `dec_prim` on the window.
pub open spec fn prim_post(
    c: super::DecoderConfig,
    buf: Seq<u8>,
    pos: usize,
    end: usize,
    t: TypeModel,
    r: Result<(Value, usize), DecoderError>,
) -> bool {
    &&& value_outcome(r, buf, end as int) == dec_prim(c, buf.subrange(pos as int, end as int), t)
    &&& r matches Ok((_, p)) ==> pos <= p <= end
}

/// Read `n` bytes or fail: the position after them.
fn read_bytes(buf: &[u8], pos: usize, end: usize, n: usize) -> (r: Result<usize, DecoderError>)
    requires
        pos <= end <= buf@.len(),
    ensures
        match r {
            Ok(p) => p == pos + n && p <= end && model::read_bytes(
                buf@.subrange(pos as int, end as int),
                n as nat,
            ) == Ok::<(Seq<u8>, Seq<u8>), ErrorModel>(
                (buf@.subrange(pos as int, p as int), buf@.subrange(p as int, end as int)),
            ),
            Err(e) => model::read_bytes(buf@.subrange(pos as int, end as int), n as nat) == Err::<
                (Seq<u8>, Seq<u8>),
                ErrorModel,
            >(e@),
        },
{
    if end - pos < n {
        Err(DecoderError::UnexpectedEndOfInput { expected: n, got: end - pos })
    } else {
        let p = pos + n;
        proof {
            let w = buf@.subrange(pos as int, end as int);
            assert(w.take(n as int) =~= buf@.subrange(pos as int, p as int));
            assert(w.skip(n as int) =~= buf@.subrange(p as int, end as int));
        }
        Ok(p)
    }
}

/// The unsigned value of `buf[pos..pos + n]` in the given byte order.
fn read_uint(buf: &[u8], pos: usize, n: usize, little: bool) -> (r: u64)
    requires
        pos + n <= buf@.len(),
        1 <= n <= 8,
    ensures
        r as nat == uint_value(little, buf@.subrange(pos as int, pos + n)),
        (r as nat) < pow256(n as nat),
{
    let ghost b = buf@.subrange(pos as int, pos + n);
    proof {
        model::lemma_pow256_8();
    }
    let mut acc: u64 = 0;
    if little {
        let mut i: usize = n;
        while i > 0
            invariant
                i <= n,
                1 <= n <= 8,
                pos + n <= buf.len(),
                b == buf@.subrange(pos as int, pos + n),
                acc as nat == le_value(b.subrange(i as int, n as int)),
                (acc as nat) < pow256((n - i) as nat),
                pow256(7) == 0x100_0000_0000_0000,
            decreases i,
        {
            i = i - 1;
            proof {
                model::lemma_pow256_mono((n - i - 1) as nat, 7);
                assert(b.subrange(i as int, n as int).drop_first() =~= b.subrange(
                    i + 1,
                    n as int,
                ));
                model::lemma_le_bound(b.subrange(i as int, n as int));
                assert((acc as nat) < pow256((n - i - 1) as nat));
                assert(acc < 0x100_0000_0000_0000);
            }
            let byte = buf[pos + i] as u64;
            acc = acc * 256 + byte;
        }
        assert(b.subrange(0, n as int) =~= b);
    } else {
        let mut i: usize = 0;
        while i < n
            invariant
                i <= n,
                1 <= n <= 8,
                pos + n <= buf.len(),
                b == buf@.subrange(pos as int, pos + n),
                acc as nat == be_value(b.subrange(0, i as int)),
                (acc as nat) < pow256(i as nat),
                pow256(7) == 0x100_0000_0000_0000,
            decreases n - i,
        {
            proof {
                model::lemma_pow256_mono(i as nat, 7);
                assert(b.subrange(0, i + 1).drop_last() =~= b.subrange(0, i as int));
                model::lemma_be_bound(b.subrange(0, i + 1));
                assert(acc < 0x100_0000_0000_0000);
            }
            let byte = buf[pos + i] as u64;
            acc = acc * 256 + byte;
            i = i + 1;
        }
        assert(b.subrange(0, n as int) =~= b);
    }
    acc
}

impl Decoder {
    /// Read a length prefix of the configured width.
    pub(super) fn decode_length_field(&self, buf: &[u8], pos: usize, end: usize) -> (r: Result<
        (usize, usize),
        DecoderError,
    >)
        requires
            pos <= end <= buf@.len(),
        ensures
            len_outcome(r, buf@, end as int) == length_field(
                self.config,
                buf@.subrange(pos as int, end as int),
            ),
            r matches Ok((_, p)) ==> pos < p <= end,
    {
        let l = self.config.length_field_length;
        if l == 1 || l == 2 || l == 4 {
            let n: usize = if l == 1 {
                1
            } else if l == 2 {
                2
            } else {
                4
            };
            match read_bytes(buf, pos, end, n) {
                Ok(p) => {
                    let v = read_uint(buf, pos, n, self.config.is_little_endian);
                    proof {
                        model::lemma_pow256_8();
                        model::lemma_pow256_mono(n as nat, 4);
                    }
                    Ok((v as usize, p))
                },
                Err(e) => Err(e),
            }
        } else {
            let mut msg = "invalid length_field_length ".to_owned();
            let s = decimal_string(l as u64);
            msg.append(s.as_str());
            Err(DecoderError::InvalidConfig(msg))
        }
    }

    /// An `octet`.
    pub(super) fn decode_u8(&self, buf: &[u8], pos: usize, end: usize) -> (r: Result<
        (Value, usize),
        DecoderError,
    >)
        requires
            pos <= end <= buf@.len(),
        ensures
            prim_post(self.config, buf@, pos, end, TypeModel::Octet, r),
    {
        match read_bytes(buf, pos, end, 1) {
            Ok(p) => Ok((Value::U8(buf[pos]), p)),
            Err(e) => Err(e),
        }
    }

    /// A `short`.
    pub(super) fn decode_i16(&self, buf: &[u8], pos: usize, end: usize) -> (r: Result<
        (Value, usize),
        DecoderError,
    >)
        requires
            pos <= end <= buf@.len(),
        ensures
            prim_post(self.config, buf@, pos, end, TypeModel::Short, r),
    {
        match read_bytes(buf, pos, end, 2) {
            Ok(p) => {
                let v = read_uint(buf, pos, 2, self.config.is_little_endian);
                proof {
                    model::lemma_pow256_8();
                }
                Ok((Value::I16((v as u16) as i16), p))
            },
            Err(e) => Err(e),
        }
    }

    /// An `unsigned short`.
    pub(super) fn decode_u16(&self, buf: &[u8], pos: usize, end: usize) -> (r: Result<
        (Value, usize),
        DecoderError,
    >)
        requires
            pos <= end <= buf@.len(),
        ensures
            prim_post(self.config, buf@, pos, end, TypeModel::UnsignedShort, r),
    {
        match read_bytes(buf, pos, end, 2) {
            Ok(p) => {
                let v = read_uint(buf, pos, 2, self.config.is_little_endian);
                proof {
                    model::lemma_pow256_8();
                }
                Ok((Value::U16(v as u16), p))
            },
            Err(e) => Err(e),
        }
    }

    /// A `long`.
    pub(super) fn decode_i32(&self, buf: &[u8], pos: usize, end: usize) -> (r: Result<
        (Value, usize),
        DecoderError,
    >)
        requires
            pos <= end <= buf@.len(),
        ensures
            prim_post(self.config, buf@, pos, end, TypeModel::Long, r),
    {
        match read_bytes(buf, pos, end, 4) {
            Ok(p) => {
                let v = read_uint(buf, pos, 4, self.config.is_little_endian);
                proof {
                    model::lemma_pow256_8();
                }
                Ok((Value::I32((v as u32) as i32), p))
            },
            Err(e) => Err(e),
        }
    }

    /// An `unsigned long`.
    pub(super) fn decode_u32(&self, buf: &[u8], pos: usize, end: usize) -> (r: Result<
        (Value, usize),
        DecoderError,
    >)
        requires
            pos <= end <= buf@.len(),
        ensures
            prim_post(self.config, buf@, pos, end, TypeModel::UnsignedLong, r),
    {
        match read_bytes(buf, pos, end, 4) {
            Ok(p) => {
                let v = read_uint(buf, pos, 4, self.config.is_little_endian);
                proof {
                    model::lemma_pow256_8();
                }
                Ok((Value::U32(v as u32), p))
            },
            Err(e) => Err(e),
        }
    }

    /// A `long long`.
    pub(super) fn decode_i64(&self, buf: &[u8], pos: usize, end: usize) -> (r: Result<
        (Value, usize),
        DecoderError,
    >)
        requires
            pos <= end <= buf@.len(),
        ensures
            prim_post(self.config, buf@, pos, end, TypeModel::LongLong, r),
    {
        match read_bytes(buf, pos, end, 8) {
            Ok(p) => {
                let v = read_uint(buf, pos, 8, self.config.is_little_endian);
                Ok((Value::I64(v as i64), p))
            },
            Err(e) => Err(e),
        }
    }

    /// An `unsigned long long`.
    pub(super) fn decode_u64(&self, buf: &[u8], pos: usize, end: usize) -> (r: Result<
        (Value, usize),
        DecoderError,
    >)
        requires
            pos <= end <= buf@.len(),
        ensures
            prim_post(self.config, buf@, pos, end, TypeModel::UnsignedLongLong, r),
    {
        match read_bytes(buf, pos, end, 8) {
            Ok(p) => {
                let v = read_uint(buf, pos, 8, self.config.is_little_endian);
                Ok((Value::U64(v), p))
            },
            Err(e) => Err(e),
        }
    }

    /// A `float`, as its bit pattern.
    pub(super) fn decode_f32(&self, buf: &[u8], pos: usize, end: usize) -> (r: Result<
        (Value, usize),
        DecoderError,
    >)
        requires
            pos <= end <= buf@.len(),
        ensures
            prim_post(self.config, buf@, pos, end, TypeModel::Float, r),
    {
        match read_bytes(buf, pos, end, 4) {
            Ok(p) => {
                let v = read_uint(buf, pos, 4, self.config.is_little_endian);
                proof {
                    model::lemma_pow256_8();
                }
                Ok((Value::F32(v as u32), p))
            },
            Err(e) => Err(e),
        }
    }

    /// A `double`, as its bit pattern.
    pub(super) fn decode_f64(&self, buf: &[u8], pos: usize, end: usize) -> (r: Result<
        (Value, usize),
        DecoderError,
    >)
        requires
            pos <= end <= buf@.len(),
        ensures
            prim_post(self.config, buf@, pos, end, TypeModel::Double, r),
    {
        match read_bytes(buf, pos, end, 8) {
            Ok(p) => {
                let v = read_uint(buf, pos, 8, self.config.is_little_endian);
                Ok((Value::F64(v), p))
            },
            Err(e) => Err(e),
        }
    }

    /// A `boolean`: any non-zero byte is true.
    pub(super) fn decode_bool(&self, buf: &[u8], pos: usize, end: usize) -> (r: Result<
        (Value, usize),
        DecoderError,
    >)
        requires
            pos <= end <= buf@.len(),
        ensures
            prim_post(self.config, buf@, pos, end, TypeModel::Boolean, r),
    {
        match read_bytes(buf, pos, end, 1) {
            Ok(p) => Ok((Value::Bool(buf[pos] != 0), p)),
            Err(e) => Err(e),
        }
    }
}

// ========================================================================
// Dispatch and composite decoders
// ========================================================================

/// What the composite decoders may rely on: a valid configuration, the
/// nesting limit of the module, and a buffer that is the whole input.
pub(super) open spec fn ready(d: &Decoder, buf: Seq<u8>, pos: usize, end: usize) -> bool {
    &&& pos <= end <= buf.len()
    &&& buf.len() == d.total_bytes
    &&& config_valid(d.config)
    &&& d.nesting_limit == full_budget(d.module@)
}

/// Decoding the window `buf[pos..end]` gave `r`, as `dec_type` says.
pub(super) open spec fn type_post(
    d: &Decoder,
    buf: Seq<u8>,
    pos: usize,
    end: usize,
    t: TypeModel,
    b: nat,
    r: Result<(Value, usize), DecoderError>,
) -> bool {
    &&& value_outcome(r, buf, end as int) == dec_type(
        d.config,
        d.module@,
        d.total_bytes as int,
        buf.subrange(pos as int, end as int),
        t,
        b,
    )
    &&& r matches Ok((_, p)) ==> pos <= p <= end
}

/// The error for a failed element of an array or a sequence.
fn element_error(what: &str, index: usize, e: &DecoderError) -> (r: DecoderError)
    ensures
        r@ == ErrorModel::InvalidData(element_message(what@, index as int, e@)),
{
    let mut msg = what.to_owned();
    msg.append(" ");
    let n = decimal_string(index as u64);
    msg.append(n.as_str());
    msg.append(": ");
    let inner = e.to_display_string();
    msg.append(inner.as_str());
    DecoderError::InvalidData(msg)
}

/// `octet` elements as bytes, other elements as a list.
fn collect_values(elements: Vec<Value>, inner: &TypeRef) -> (r: Value)
    ensures
        r@ == collect_elements(inner@, values_model(elements@)),
{
    match inner {
        TypeRef::Octet => {
            let ghost vs = values_model(elements@);
            let mut bytes: Vec<u8> = Vec::new();
            let mut j: usize = 0;
            while j < elements.len()
                invariant
                    j <= elements@.len(),
                    vs == values_model(elements@),
                    bytes@ == u8s_of(vs.take(j as int)),
                decreases elements@.len() - j,
            {
                assert(vs.take(j + 1).drop_last() =~= vs.take(j as int));
                match &elements[j] {
                    Value::U8(b) => {
                        bytes.push(*b);
                    },
                    _ => {},
                }
                assert(bytes@ =~= u8s_of(vs.take(j + 1)));
                j = j + 1;
            }
            assert(vs.take(elements@.len() as int) =~= vs);
            Value::Bytes(bytes)
        },
        _ => Value::List(elements),
    }
}

/// How many struct lookups may nest at one position: the number of struct
/// definitions in the module tree, or `usize::MAX` if there are more.
pub(super) fn count_structs(m: &Module) -> (r: usize)
    ensures
        r == full_budget(m@),
    decreases m,
{
    let ghost cs = m@.content;
    let mut acc: usize = 0;
    let ghost mut sum: nat = 0;
    let mut i: usize = 0;
    while i < m.content.len()
        invariant
            i <= m.content@.len(),
            cs == m@.content,
            cs.len() == m.content@.len(),
            count_in(cs, 0) == sum + count_in(cs, i as int),
            acc == (if sum <= usize::MAX {
                sum
            } else {
                usize::MAX as nat
            }),
        decreases m.content@.len() - i,
    {
        proof {
            assert(decreases_to!(m => m.content[i as int]));
        }
        let here: usize = match &m.content[i] {
            ModuleContent::Struct(_) => 1,
            ModuleContent::Module(sub) => count_structs(&**sub),
            ModuleContent::BitSet(_) => 0,
        };
        let ghost h: nat = match cs[i as int] {
            crate::ast::ContentModel::Struct(_) => 1,
            crate::ast::ContentModel::Module(bx) => struct_count(*bx),
            crate::ast::ContentModel::BitSet(_) => 0,
        };
        assert(here == (if h <= usize::MAX {
            h
        } else {
            usize::MAX as nat
        }));
        acc = acc.saturating_add(here);
        proof {
            sum = sum + h;
        }
        i = i + 1;
    }
    acc
}

/// The first struct named `name` in the module tree, depth first.
fn find_struct_in_module<'a>(module: &'a Module, name: &str) -> (r: Result<&'a Struct, DecoderError>)
    ensures
        match find_struct(module@, name@) {
            Some(s) => r matches Ok(x) && x@ == s,
            None => r matches Err(e) && e@ == ErrorModel::SchemaNotFound(
                "struct '"@ + name@ + "' not found"@,
            ),
        },
    decreases module,
{
    let ghost cs = module@.content;
    let target = name.to_owned();
    let mut i: usize = 0;
    while i < module.content.len()
        invariant
            i <= module.content@.len(),
            cs == module@.content,
            cs.len() == module.content@.len(),
            target@ == name@,
            find_in(cs, 0, name@) == find_in(cs, i as int, name@),
        decreases module.content@.len() - i,
    {
        proof {
            assert(decreases_to!(module => module.content[i as int]));
        }
        match &module.content[i] {
            ModuleContent::Struct(s) => {
                if s.name.eq(&target) {
                    return Ok(s);
                }
            },
            ModuleContent::Module(m) => {
                match find_struct_in_module(&**m, name) {
                    Ok(s) => {
                        return Ok(s);
                    },
                    Err(_) => {},
                }
            },
            _ => {},
        }
        i = i + 1;
    }
    let mut msg = "struct '".to_owned();
    msg.append(name);
    msg.append("' not found");
    Err(DecoderError::SchemaNotFound(msg))
}

impl Decoder {
    /// Decode data according to the given type reference. Returns the
    /// decoded value and the position after it.
    pub(super) fn decode_by_type(
        &self,
        buf: &[u8],
        pos: usize,
        end: usize,
        type_ref: &TypeRef,
        b: usize,
    ) -> (r: Result<(Value, usize), DecoderError>)
        requires
            ready(self, buf@, pos, end),
        ensures
            type_post(self, buf@, pos, end, type_ref@, b as nat, r),
        decreases end - pos, b, 1int, type_ref@, 0int,
    {
        match type_ref {
            TypeRef::Octet => self.decode_u8(buf, pos, end),
            TypeRef::Short => self.decode_i16(buf, pos, end),
            TypeRef::UnsignedShort => self.decode_u16(buf, pos, end),
            TypeRef::Long => self.decode_i32(buf, pos, end),
            TypeRef::UnsignedLong => self.decode_u32(buf, pos, end),
            TypeRef::LongLong => self.decode_i64(buf, pos, end),
            TypeRef::UnsignedLongLong => self.decode_u64(buf, pos, end),
            TypeRef::Float => self.decode_f32(buf, pos, end),
            TypeRef::Double => self.decode_f64(buf, pos, end),
            TypeRef::Boolean => self.decode_bool(buf, pos, end),
            TypeRef::String { length } => self.decode_string(buf, pos, end, *length),
            TypeRef::Array { inner, size } => {
                proof {
                    assert(type_ref@ == TypeModel::Array(Box::new((**inner)@), *size));
                    let tm = type_ref@;
                    assert(decreases_to!(tm => *(tm->Array_0)));
                }
                self.decode_array(buf, pos, end, &**inner, *size, b)
            },
            TypeRef::Sequence { inner } => {
                proof {
                    assert(type_ref@ == TypeModel::Sequence(Box::new((**inner)@)));
                    let tm = type_ref@;
                    assert(decreases_to!(tm => *(tm->Sequence_0)));
                }
                self.decode_sequence(buf, pos, end, &**inner)
            },
            TypeRef::BitField { .. } => Err(
                DecoderError::UnsupportedType(
                    "bitfield decoding not supported in struct fields".to_owned(),
                ),
            ),
            TypeRef::TypeName { name } => self.decode_type_name(buf, pos, end, name, b),
        }
    }

    /// Decode a struct's fields sequentially; a later field with the same
    /// name replaces the value of an earlier one.
    pub(super) fn decode_struct(&self, buf: &[u8], pos: usize, end: usize, st: &Struct, b: usize) -> (r:
        Result<(FieldMap, usize), DecoderError>)
        requires
            ready(self, buf@, pos, end),
        ensures
            match dec_fields(
                self.config,
                self.module@,
                self.total_bytes as int,
                buf@.subrange(pos as int, end as int),
                st@.fields,
                0,
                b as nat,
                Seq::empty(),
            ) {
                Ok((entries, rest)) => r matches Ok((fm, p)) && fm@ == entries && pos <= p <= end
                    && rest == buf@.subrange(p as int, end as int),
                Err(e) => r matches Err(x) && x@ == e,
            },
        decreases end - pos, b, 2int, TypeModel::Octet, 0int,
    {
        let ghost fs = st@.fields;
        let ghost whole = dec_fields(
            self.config,
            self.module@,
            self.total_bytes as int,
            buf@.subrange(pos as int, end as int),
            fs,
            0,
            b as nat,
            Seq::empty(),
        );
        let mut fields = FieldMap::new();
        let mut cur = pos;
        let mut cb = b;
        let mut i: usize = 0;
        while i < st.fields.len()
            invariant
                ready(self, buf@, cur, end),
                pos <= cur,
                i <= st.fields@.len(),
                fs == st@.fields,
                fs.len() == st.fields@.len(),
                cur == pos ==> cb == b,
                whole == dec_fields(
                    self.config,
                    self.module@,
                    self.total_bytes as int,
                    buf@.subrange(pos as int, end as int),
                    fs,
                    0,
                    b as nat,
                    Seq::empty(),
                ),
                whole == dec_fields(
                    self.config,
                    self.module@,
                    self.total_bytes as int,
                    buf@.subrange(cur as int, end as int),
                    fs,
                    i as int,
                    cb as nat,
                    fields@,
                ),
            decreases st.fields@.len() - i,
        {
            let field = &st.fields[i];
            assert(fs[i as int] == field@);
            let (value, rest) = match self.decode_by_type(buf, cur, end, &field.field_type, cb) {
                Ok(x) => x,
                Err(e) => {
                    return Err(e);
                },
            };
            let mut next = rest;
            if self.needs_padding(&field.field_type) && rest < end {
                next = match self.consume_padding(buf, rest, end) {
                    Ok(p) => p,
                    Err(e) => {
                        return Err(e);
                    },
                };
            }
            fields.insert(field.name.clone(), value);
            if next > cur {
                cb = self.nesting_limit;
            }
            cur = next;
            i = i + 1;
        }
        Ok((fields, cur))
    }

    /// Decode a fixed-size array.
    fn decode_array(
        &self,
        buf: &[u8],
        pos: usize,
        end: usize,
        inner_type: &TypeRef,
        size: u32,
        b: usize,
    ) -> (r: Result<(Value, usize), DecoderError>)
        requires
            ready(self, buf@, pos, end),
        ensures
            value_outcome(r, buf@, end as int) == dec_array(
                self.config,
                self.module@,
                self.total_bytes as int,
                buf@.subrange(pos as int, end as int),
                inner_type@,
                size,
                b as nat,
            ),
            r matches Ok((_, p)) ==> pos <= p <= end,
        decreases end - pos, b, 1int, inner_type@, size + 1,
    {
        let ghost it = inner_type@;
        let mut cur = pos;
        if self.config.enable_array_length_header {
            let (length, rest) = match self.decode_length_field(buf, pos, end) {
                Ok(x) => x,
                Err(e) => {
                    return Err(e);
                },
            };
            if length != size as usize {
                let mut msg = "array length header ".to_owned();
                let a = decimal_string(length as u64);
                msg.append(a.as_str());
                msg.append(" does not match declared size ");
                let z = decimal_string(size as u64);
                msg.append(z.as_str());
                return Err(DecoderError::InvalidData(msg));
            }
            cur = rest;
        }
        let mut cb = if cur > pos {
            self.nesting_limit
        } else {
            b
        };
        let ghost whole = match dec_array_elems(
            self.config,
            self.module@,
            self.total_bytes as int,
            buf@.subrange(cur as int, end as int),
            it,
            size as nat,
            cb as nat,
            Seq::empty(),
        ) {
            Ok((vs, rest)) => Ok((collect_elements(it, vs), rest)),
            Err(e) => Err(e),
        };
        let ghost target = dec_array(
            self.config,
            self.module@,
            self.total_bytes as int,
            buf@.subrange(pos as int, end as int),
            it,
            size,
            b as nat,
        );
        assert(target == whole);
        let mut elements: Vec<Value> = Vec::new();
        assert(values_model(elements@) =~= Seq::<ValueModel>::empty());
        let mut i: u32 = 0;
        while i < size
            invariant
                ready(self, buf@, cur, end),
                pos <= cur,
                i <= size,
                i == elements@.len(),
                it == inner_type@,
                cur == pos ==> cb == b,
                target == whole,
                target == dec_array(
                    self.config,
                    self.module@,
                    self.total_bytes as int,
                    buf@.subrange(pos as int, end as int),
                    it,
                    size,
                    b as nat,
                ),
                whole == match dec_array_elems(
                    self.config,
                    self.module@,
                    self.total_bytes as int,
                    buf@.subrange(cur as int, end as int),
                    it,
                    (size - i) as nat,
                    cb as nat,
                    values_model(elements@),
                ) {
                    Ok((vs, rest)) => Ok((collect_elements(it, vs), rest)),
                    Err(e) => Err(e),
                },
            decreases size - i,
        {
            let (value, rest) = match self.decode_by_type(buf, cur, end, inner_type, cb) {
                Ok(x) => x,
                Err(e) => {
                    return Err(element_error("array element", i as usize, &e));
                },
            };
            proof {
                super::value::lemma_values_push(elements@, value);
            }
            elements.push(value);
            if rest > cur {
                cb = self.nesting_limit;
            }
            cur = rest;
            i = i + 1;
        }
        Ok((collect_values(elements, inner_type), cur))
    }

    /// Decode a length-prefixed sequence: elements until the announced
    /// number of bytes is used up.
    pub(super) fn decode_sequence(&self, buf: &[u8], pos: usize, end: usize, inner_type: &TypeRef) -> (r:
        Result<(Value, usize), DecoderError>)
        requires
            ready(self, buf@, pos, end),
        ensures
            value_outcome(r, buf@, end as int) == dec_seq(
                self.config,
                self.module@,
                self.total_bytes as int,
                buf@.subrange(pos as int, end as int),
                inner_type@,
            ),
            r matches Ok((_, p)) ==> pos <= p <= end,
        decreases end - pos, 0nat, 1int, inner_type@, 1int,
    {
        let ghost it = inner_type@;
        let ghost w = buf@.subrange(pos as int, end as int);
        let (total_byte_len, start) = match self.decode_length_field(buf, pos, end) {
            Ok(x) => x,
            Err(e) => {
                return Err(e);
            },
        };
        let ghost rem = buf@.subrange(start as int, end as int);
        if end - start < total_byte_len {
            return Err(
                DecoderError::UnexpectedEndOfInput { expected: total_byte_len, got: end - start },
            );
        }
        let stop = start + total_byte_len;
        proof {
            assert(rem.take(total_byte_len as int) =~= buf@.subrange(start as int, stop as int));
            assert(rem.skip(total_byte_len as int) =~= buf@.subrange(stop as int, end as int));
        }
        let ghost whole = dec_seq_elems(
            self.config,
            self.module@,
            self.total_bytes as int,
            buf@.subrange(start as int, stop as int),
            it,
            Seq::empty(),
        );
        let ghost target = dec_seq(
            self.config,
            self.module@,
            self.total_bytes as int,
            buf@.subrange(pos as int, end as int),
            it,
        );
        assert(target == match whole {
            Ok(vs) => Ok((collect_elements(it, vs), buf@.subrange(stop as int, end as int))),
            Err(e) => Err(e),
        });
        let mut elements: Vec<Value> = Vec::new();
        assert(values_model(elements@) =~= Seq::<ValueModel>::empty());
        let mut cur = start;
        let mut index: usize = 0;
        while cur < stop
            invariant
                ready(self, buf@, cur, stop),
                pos < start <= cur <= stop <= end,
                index <= cur - start,
                index == elements@.len(),
                it == inner_type@,
                target == dec_seq(
                    self.config,
                    self.module@,
                    self.total_bytes as int,
                    buf@.subrange(pos as int, end as int),
                    it,
                ),
                target == match whole {
                    Ok(vs) => Ok((collect_elements(it, vs), buf@.subrange(stop as int, end as int))),
                    Err(e) => Err(e),
                },
                whole == dec_seq_elems(
                    self.config,
                    self.module@,
                    self.total_bytes as int,
                    buf@.subrange(cur as int, stop as int),
                    it,
                    values_model(elements@),
                ),
            decreases stop - cur,
        {
            let (value, rest) = match self.decode_by_type(
                buf,
                cur,
                stop,
                inner_type,
                self.nesting_limit,
            ) {
                Ok(x) => x,
                Err(e) => {
                    return Err(element_error("sequence element", index, &e));
                },
            };
            if rest == cur {
                let mut msg = "sequence element ".to_owned();
                let n = decimal_string(index as u64);
                msg.append(n.as_str());
                msg.append(": element consumes no bytes");
                return Err(DecoderError::InvalidData(msg));
            }
            proof {
                super::value::lemma_values_push(elements@, value);
            }
            elements.push(value);
            cur = rest;
            index = index + 1;
        }
        Ok((collect_values(elements, inner_type), stop))
    }

    /// Decode a value of a user-defined struct type.
    fn decode_type_name(&self, buf: &[u8], pos: usize, end: usize, name: &String, b: usize) -> (r:
        Result<(Value, usize), DecoderError>)
        requires
            ready(self, buf@, pos, end),
        ensures
            value_outcome(r, buf@, end as int) == dec_type_name(
                self.config,
                self.module@,
                self.total_bytes as int,
                buf@.subrange(pos as int, end as int),
                name@,
                b as nat,
            ),
            r matches Ok((_, p)) ==> pos <= p <= end,
        decreases end - pos, b, 0int, TypeModel::Octet, 0int,
    {
        let target_struct = match self.find_struct_by_name(name.as_str()) {
            Ok(s) => s,
            Err(e) => {
                return Err(e);
            },
        };
        if b == 0 {
            let mut msg = "struct '".to_owned();
            msg.append(name.as_str());
            msg.append("' nests within itself without consuming input");
            return Err(DecoderError::InvalidData(msg));
        }
        match self.decode_struct(buf, pos, end, target_struct, b - 1) {
            Ok((fields, p)) => Ok((Value::Struct(fields), p)),
            Err(e) => Err(e),
        }
    }

    /// The first struct named `name` in the decoder's module tree.
    fn find_struct_by_name(&self, name: &str) -> (r: Result<&Struct, DecoderError>)
        ensures
            match find_struct(self.module@, name@) {
                Some(s) => r matches Ok(x) && x@ == s,
                None => r matches Err(e) && e@ == ErrorModel::SchemaNotFound(
                    "struct '"@ + name@ + "' not found"@,
                ),
            },
    {
        find_struct_in_module(&self.module, name)
    }
}

} // verus!
