//! Binary decoder for IDL-defined structs.
//!
//! Given a parsed [`Module`] and a byte buffer, decodes bytes into
//! structured [`Value`]s according to struct field definitions. What each
//! operation computes is stated in [`model`].
use vstd::prelude::*;
use vstd::string::*;

mod codec;
pub mod laws;
pub mod model;
mod string;
pub mod value;

pub use value::{FieldMap, Value};

use crate::ast::{annotations_view, Module, ModuleContent, Struct, TypeModel, TypeRef};
use crate::text::{chars_of, decimal_string, substring};
use model::{
    config_valid, format_annotation, format_in, frames_of, full_budget, key_dbc, key_id, key_len,
    key_payload, name_format, packet_fields, packet_step, pos_outcome, prepare, spec_decode,
    spec_decode_packet, split_dot, config_error, display, missing_frames, missing_ts, ErrorModel,
    FrameModel, PacketModel,
};
use value::{values_model, ValueModel};

verus! {

broadcast use vstd::string::group_string_axioms;

// ============================================================================
// DecoderConfig
// ============================================================================

/// Configuration for binary decoding behavior.
#[derive(Debug, Clone, Copy)]
pub struct DecoderConfig {
    /// Byte order for multi-byte numeric types.
    pub is_little_endian: bool,
    /// Length of the length-prefix field for dynamic-length types
    /// (sequence, dynamic string). Must be 1, 2, or 4.
    pub length_field_length: u8,
    /// If true, array decoding first reads a length header and validates
    /// it matches the declared array size.
    pub enable_array_length_header: bool,
    /// Alignment boundary for padding after variable-length fields.
    /// Must be 1, 2, 4, 8, 16, 32, or 64.
    pub padding_length: usize,
    /// Number of bytes to skip before starting decode.
    pub header_length: usize,
}

impl Default for DecoderConfig {
    fn default() -> (r: Self)
        ensures
            r == (DecoderConfig {
                is_little_endian: false,
                length_field_length: 4,
                enable_array_length_header: false,
                padding_length: 1,
                header_length: 0,
            }),
    {
        DecoderConfig {
            is_little_endian: false,
            length_field_length: 4,
            enable_array_length_header: false,
            padding_length: 1,
            header_length: 0,
        }
    }
}

// ============================================================================
// DecoderError
// ============================================================================

/// Errors that can occur during binary decoding.
#[derive(Debug)]
pub enum DecoderError {
    InvalidConfig(String),
    SchemaNotFound(String),
    UnexpectedEndOfInput { expected: usize, got: usize },
    InvalidData(String),
    UnsupportedType(String),
}

impl View for DecoderError {
    type V = ErrorModel;

    /// The kind of this error with its message, or the byte counts of a
    /// short input.
    open spec fn view(&self) -> ErrorModel {
        match *self {
            DecoderError::InvalidConfig(m) => ErrorModel::InvalidConfig(m@),
            DecoderError::SchemaNotFound(m) => ErrorModel::SchemaNotFound(m@),
            DecoderError::UnexpectedEndOfInput { expected, got } => ErrorModel::UnexpectedEndOfInput {
                expected: expected as int,
                got: got as int,
            },
            DecoderError::InvalidData(m) => ErrorModel::InvalidData(m@),
            DecoderError::UnsupportedType(m) => ErrorModel::UnsupportedType(m@),
        }
    }
}

impl DecoderError {
    /// The error as text: its kind, then its message or byte counts.
    pub fn to_display_string(&self) -> (r: String)
        ensures
            r@ == display(self@),
    {
        match self {
            DecoderError::InvalidConfig(m) => {
                let mut s = "invalid config: ".to_owned();
                s.append(m.as_str());
                s
            },
            DecoderError::SchemaNotFound(m) => {
                let mut s = "schema not found: ".to_owned();
                s.append(m.as_str());
                s
            },
            DecoderError::UnexpectedEndOfInput { expected, got } => {
                let mut s = "unexpected end of input: expected ".to_owned();
                let e = decimal_string(*expected as u64);
                s.append(e.as_str());
                s.append(" bytes, got ");
                let g = decimal_string(*got as u64);
                s.append(g.as_str());
                s
            },
            DecoderError::InvalidData(m) => {
                let mut s = "invalid data: ".to_owned();
                s.append(m.as_str());
                s
            },
            DecoderError::UnsupportedType(m) => {
                let mut s = "unsupported type: ".to_owned();
                s.append(m.as_str());
                s
            },
        }
    }
}

impl DecoderConfig {
    /// Validate configuration values.
    pub fn validate(&self) -> (r: Result<(), DecoderError>)
        ensures
            r is Ok <==> config_valid(*self),
            r matches Err(e) ==> e@ == config_error(*self),
    {
        let l = self.length_field_length;
        if !(l == 1 || l == 2 || l == 4) {
            let mut msg = "length_field_length must be 1, 2, or 4, got ".to_owned();
            let n = decimal_string(l as u64);
            msg.append(n.as_str());
            return Err(DecoderError::InvalidConfig(msg));
        }
        let p = self.padding_length;
        if !(p == 1 || p == 2 || p == 4 || p == 8 || p == 16 || p == 32 || p == 64) {
            let mut msg = "padding_length must be 1,2,4,8,16,32,64, got ".to_owned();
            let n = decimal_string(p as u64);
            msg.append(n.as_str());
            return Err(DecoderError::InvalidConfig(msg));
        }
        Ok(())
    }
}

// ============================================================================
// Decoder
// ============================================================================

/// Binary decoder that reads bytes according to IDL struct definitions.
pub struct Decoder {
    config: DecoderConfig,
    module: Module,
    /// Length of the whole input of the current decode, for padding.
    total_bytes: usize,
    /// How many struct lookups may nest at one input position.
    nesting_limit: usize,
}

impl Decoder {
    #[verifier::type_invariant]
    spec fn inv(self) -> bool {
        &&& config_valid(self.config)
        &&& self.nesting_limit == full_budget(self.module@)
    }

    /// The configuration this decoder was made with.
    pub closed spec fn config(self) -> DecoderConfig {
        self.config
    }

    /// The module this decoder reads structs from.
    pub closed spec fn schema(self) -> crate::ast::ModuleModel {
        self.module@
    }

    /// Length of the whole input of the last decode that got past its header.
    pub closed spec fn total_bytes(self) -> nat {
        self.total_bytes as nat
    }

    /// Create a new decoder from a parsed IDL Module.
    pub fn new(config: DecoderConfig, module: Module) -> (r: Result<Decoder, DecoderError>)
        ensures
            r is Ok <==> config_valid(config),
            r matches Ok(d) ==> d.config() == config && d.schema() == module@ && d.total_bytes()
                == 0,
            r matches Err(e) ==> e@ == config_error(config),
    {
        match config.validate() {
            Ok(()) => {
                let nesting_limit = codec::count_structs(&module);
                Ok(Decoder { config, module, total_bytes: 0, nesting_limit })
            },
            Err(e) => Err(e),
        }
    }
}

// ============================================================================
// Padding
// ============================================================================

impl Decoder {
    /// Whether a field type requires padding after decoding.
    /// Dynamic strings and sequences have variable encoded length.
    fn needs_padding(&self, type_ref: &TypeRef) -> (r: bool)
        ensures
            r == model::needs_padding(type_ref@),
    {
        match type_ref {
            TypeRef::String { length: None } => true,
            TypeRef::Sequence { .. } => true,
            _ => false,
        }
    }

    /// Consume padding bytes to align to `padding_length` boundary.
    fn consume_padding(&self, buf: &[u8], pos: usize, end: usize) -> (r: Result<
        usize,
        DecoderError,
    >)
        requires
            pos <= end <= buf@.len(),
            buf@.len() == self.total_bytes,
            config_valid(self.config),
        ensures
            pos_outcome(r, buf@, end as int) == model::consume_padding(
                self.config,
                self.total_bytes as int,
                buf@.subrange(pos as int, end as int),
            ),
            r matches Ok(p) ==> pos <= p <= end,
    {
        let consumed = self.total_bytes - (end - pos);
        let remainder = consumed % self.config.padding_length;
        if remainder == 0 {
            return Ok(pos);
        }
        let padding_needed = self.config.padding_length - remainder;
        if padding_needed > end - pos {
            return Err(
                DecoderError::UnexpectedEndOfInput { expected: padding_needed, got: end - pos },
            );
        }
        let p = pos + padding_needed;
        assert(buf@.subrange(pos as int, end as int).skip(padding_needed as int) =~= buf@.subrange(
            p as int,
            end as int,
        ));
        Ok(p)
    }
}

// ============================================================================
// Typed decode output types
// ============================================================================

/// A single decoded CAN frame, ready for signal-level decoding.
#[derive(Debug, PartialEq)]
pub struct DecodedFrame {
    /// CAN frame ID (from the frame's `id` field).
    pub can_id: u32,
    /// Raw payload bytes (from the frame's `payload` field).
    pub payload: Vec<u8>,
    /// Byte length of the payload (from the frame's `len` field).
    pub len: u32,
    /// Value of the `@format(dbc="...")` annotation on the outer sequence
    /// field, e.g. `Some("spi/sim.json")`; `None` if there is none.
    pub format_annotation: Option<String>,
}

/// A decoded packet with timestamp and CAN frames.
#[derive(Debug, PartialEq)]
pub struct DecodedPacket {
    /// Timestamp from the packet header.
    pub ts: u64,
    /// Decoded CAN frames.
    pub frames: Vec<DecodedFrame>,
}

/// The text of an optional string.
pub open spec fn opt_text(o: Option<String>) -> Option<Seq<char>> {
    match o {
        Some(s) => Some(s@),
        None => None,
    }
}

impl View for DecodedFrame {
    type V = FrameModel;

    open spec fn view(&self) -> FrameModel {
        FrameModel {
            can_id: self.can_id,
            payload: self.payload@,
            len: self.len,
            format_annotation: opt_text(self.format_annotation),
        }
    }
}

pub open spec fn frames_view(v: Seq<DecodedFrame>) -> Seq<FrameModel> {
    v.map_values(|f: DecodedFrame| f@)
}

impl Clone for DecodedFrame {
    fn clone(&self) -> (r: Self)
        ensures
            r@ == self@,
    {
        let format_annotation = match &self.format_annotation {
            Some(s) => Some(s.clone()),
            None => None,
        };
        DecodedFrame {
            can_id: self.can_id,
            payload: copy_vec(&self.payload),
            len: self.len,
            format_annotation,
        }
    }
}

impl Clone for DecodedPacket {
    fn clone(&self) -> (r: Self)
        ensures
            r@ == self@,
    {
        let mut frames: Vec<DecodedFrame> = Vec::new();
        let mut i: usize = 0;
        while i < self.frames.len()
            invariant
                i <= self.frames@.len(),
                frames_view(frames@) == frames_view(self.frames@.take(i as int)),
            decreases self.frames@.len() - i,
        {
            let f = self.frames[i].clone();
            proof {
                assert(frames_view(frames@.push(f)) =~= frames_view(frames@).push(f@));
                assert(frames_view(self.frames@.take(i + 1)) =~= frames_view(
                    self.frames@.take(i as int),
                ).push(self.frames@[i as int]@));
            }
            frames.push(f);
            i = i + 1;
        }
        proof {
            assert(self.frames@.take(self.frames@.len() as int) =~= self.frames@);
        }
        DecodedPacket { ts: self.ts, frames }
    }
}

impl View for DecodedPacket {
    type V = PacketModel;

    open spec fn view(&self) -> PacketModel {
        PacketModel { ts: self.ts, frames: frames_view(self.frames@) }
    }
}

// ============================================================================
// Decoding
// ============================================================================

impl Decoder {
    /// Decode binary data using the struct identified by `schema_id`.
    ///
    /// `schema_id` is a dot-separated path, e.g. `"spi.packet"`, that
    /// locates the target struct within nested modules.
    pub fn decode(&mut self, schema_id: &str, data: &[u8]) -> (r: Result<FieldMap, DecoderError>)
        ensures
            match spec_decode(old(self).config(), old(self).schema(), schema_id@, data@) {
                Ok(entries) => r matches Ok(fm) && fm@ == entries,
                Err(e) => r matches Err(x) && x@ == e,
            },
            final(self).config() == old(self).config(),
            final(self).schema() == old(self).schema(),
            prepare(old(self).config(), data@) is Ok ==> final(self).total_bytes() == data@.len(),
            prepare(old(self).config(), data@) is Err ==> final(self).total_bytes() == old(
                self,
            ).total_bytes(),
    {
        let start = match self.prepare_data(data) {
            Ok(p) => p,
            Err(e) => {
                return Err(e);
            },
        };
        proof {
            use_type_invariant(&*self);
        }
        let target_struct = match self.travel_module(schema_id) {
            Ok(s) => s,
            Err(e) => {
                return Err(e);
            },
        };
        match self.decode_struct(data, start, data.len(), target_struct, self.nesting_limit) {
            Ok((result, _)) => Ok(result),
            Err(e) => Err(e),
        }
    }

    /// Decode a packet into a typed [`DecodedPacket`].
    ///
    /// Decodes the outer packet fields (`ts`, `len`) and extracts each
    /// frame's (`id`, `len`, `payload`), carrying forward any
    /// `@format(dbc="...")` annotation of the sequence field.
    pub fn decode_packet(&mut self, schema_id: &str, data: &[u8]) -> (r: Result<
        DecodedPacket,
        DecoderError,
    >)
        ensures
            match spec_decode_packet(old(self).config(), old(self).schema(), schema_id@, data@) {
                Ok(p) => r matches Ok(x) && x@ == p,
                Err(e) => r matches Err(x) && x@ == e,
            },
            final(self).config() == old(self).config(),
            final(self).schema() == old(self).schema(),
            prepare(old(self).config(), data@) is Ok ==> final(self).total_bytes() == data@.len(),
            prepare(old(self).config(), data@) is Err ==> final(self).total_bytes() == old(
                self,
            ).total_bytes(),
    {
        let start = match self.prepare_data(data) {
            Ok(p) => p,
            Err(e) => {
                return Err(e);
            },
        };
        proof {
            use_type_invariant(&*self);
        }
        let target_struct = match self.travel_module(schema_id) {
            Ok(s) => s,
            Err(e) => {
                return Err(e);
            },
        };
        let format_annotation = Self::find_format_annotation(target_struct);
        let ghost fs = target_struct@.fields;
        let ghost fmt = opt_text(format_annotation);
        let ghost whole = packet_fields(
            self.config,
            self.module@,
            self.total_bytes as int,
            data@.subrange(start as int, data@.len() as int),
            fs,
            0,
            None,
            None,
            fmt,
        );
        let ghost target = spec_decode_packet(self.config, self.module@, schema_id@, data@);
        assert(target == match whole {
            Ok((Some(t), Some(f))) => Ok(PacketModel { ts: t, frames: f }),
            Ok((None, _)) => Err(ErrorModel::InvalidData(missing_ts())),
            Ok((Some(_), None)) => Err(ErrorModel::InvalidData(missing_frames())),
            Err(e) => Err(e),
        });
        let end = data.len();
        let mut remaining = start;
        let mut ts: Option<u64> = None;
        let mut frames: Option<Vec<DecodedFrame>> = None;
        let mut i: usize = 0;
        while i < target_struct.fields.len()
            invariant
                codec::ready(self, data@, remaining, end),
                end == data@.len(),
                i <= target_struct.fields@.len(),
                fs == target_struct@.fields,
                fs.len() == target_struct.fields@.len(),
                self.config == old(self).config,
                self.module == old(self).module,
                self.total_bytes == data@.len(),
                fmt == opt_text(format_annotation),
                prepare(self.config, data@) is Ok,
                target == spec_decode_packet(self.config, self.module@, schema_id@, data@),
                target == match whole {
                    Ok((Some(t), Some(f))) => Ok(PacketModel { ts: t, frames: f }),
                    Ok((None, _)) => Err(ErrorModel::InvalidData(missing_ts())),
                    Ok((Some(_), None)) => Err(ErrorModel::InvalidData(missing_frames())),
                    Err(e) => Err(e),
                },
                whole == packet_fields(
                    self.config,
                    self.module@,
                    self.total_bytes as int,
                    data@.subrange(remaining as int, end as int),
                    fs,
                    i as int,
                    ts,
                    opt_frames(frames),
                    fmt,
                ),
            decreases target_struct.fields@.len() - i,
        {
            let field = &target_struct.fields[i];
            assert(fs[i as int] == field@);
            let (ts2, frames2, rest) = match self.decode_packet_field(
                data,
                remaining,
                end,
                &field.field_type,
                &format_annotation,
                ts,
                frames,
            ) {
                Ok(x) => x,
                Err(e) => {
                    return Err(e);
                },
            };
            ts = ts2;
            frames = frames2;
            remaining = rest;
            i = i + 1;
        }
        let ts = match ts {
            Some(t) => t,
            None => {
                return Err(
                    DecoderError::InvalidData(
                        "packet missing 'ts' (unsigned long long) field".to_owned(),
                    ),
                );
            },
        };
        let frames = match frames {
            Some(f) => f,
            None => {
                return Err(
                    DecoderError::InvalidData("packet missing 'frames' (sequence) field".to_owned()),
                );
            },
        };
        Ok(DecodedPacket { ts, frames })
    }

    /// One field of a packet: the timestamp, the frames and the position
    /// after the field.
    fn decode_packet_field(
        &self,
        data: &[u8],
        pos: usize,
        end: usize,
        field_type: &TypeRef,
        format_annotation: &Option<String>,
        ts: Option<u64>,
        frames: Option<Vec<DecodedFrame>>,
    ) -> (r: Result<(Option<u64>, Option<Vec<DecodedFrame>>, usize), DecoderError>)
        requires
            codec::ready(self, data@, pos, end),
        ensures
            match packet_step(
                self.config,
                self.module@,
                self.total_bytes as int,
                data@.subrange(pos as int, end as int),
                field_type@,
                ts,
                opt_frames(frames),
                opt_text(*format_annotation),
            ) {
                Ok((t2, f2, rest)) => r matches Ok((x, y, p)) && x == t2 && opt_frames(y) == f2
                    && pos <= p <= end && rest == data@.subrange(p as int, end as int),
                Err(e) => r matches Err(x) && x@ == e,
            },
    {
        let mut remaining = pos;
        match field_type {
            TypeRef::UnsignedLongLong => {
                let (val, rest) = match self.decode_u64(data, remaining, end) {
                    Ok(x) => x,
                    Err(e) => {
                        return Err(e);
                    },
                };
                let t = match val {
                    Value::U64(v) => Some(v),
                    _ => None,
                };
                Ok((t, frames, rest))
            },
            TypeRef::UnsignedShort => {
                let (_val, rest) = match self.decode_u16(data, remaining, end) {
                    Ok(x) => x,
                    Err(e) => {
                        return Err(e);
                    },
                };
                Ok((ts, frames, rest))
            },
            TypeRef::Sequence { inner } => {
                assert(field_type@ == TypeModel::Sequence(Box::new((**inner)@)));
                let (seq_val, rest) = match self.decode_sequence(data, remaining, end, &**inner) {
                    Ok(x) => x,
                    Err(e) => {
                        return Err(e);
                    },
                };
                let fr = match Self::extract_frames(&seq_val, format_annotation) {
                    Ok(f) => f,
                    Err(e) => {
                        return Err(e);
                    },
                };
                remaining = rest;
                if self.needs_padding(field_type) && remaining < end {
                    remaining = match self.consume_padding(data, remaining, end) {
                        Ok(p) => p,
                        Err(e) => {
                            return Err(e);
                        },
                    };
                }
                Ok((ts, Some(fr), remaining))
            },
            _ => {
                let (_val, rest) = match self.decode_by_type(
                    data,
                    remaining,
                    end,
                    field_type,
                    self.nesting_limit,
                ) {
                    Ok(x) => x,
                    Err(e) => {
                        return Err(e);
                    },
                };
                remaining = rest;
                if self.needs_padding(field_type) && remaining < end {
                    remaining = match self.consume_padding(data, remaining, end) {
                        Ok(p) => p,
                        Err(e) => {
                            return Err(e);
                        },
                    };
                }
                Ok((ts, frames, remaining))
            },
        }
    }

    /// Skip header bytes and set `total_bytes` for padding calculation;
    /// the position where decoding starts.
    fn prepare_data(&mut self, data: &[u8]) -> (r: Result<usize, DecoderError>)
        ensures
            match prepare(old(self).config, data@) {
                Ok(d) => r matches Ok(p) && p <= data@.len() && d == data@.subrange(
                    p as int,
                    data@.len() as int,
                ) && final(self).total_bytes == data@.len(),
                Err(e) => r matches Err(x) && x@ == e && final(self).total_bytes == old(
                    self,
                ).total_bytes,
            },
            final(self).config == old(self).config,
            final(self).module == old(self).module,
            final(self).nesting_limit == old(self).nesting_limit,
    {
        proof {
            use_type_invariant(&*self);
        }
        let h = self.config.header_length;
        if h > 0 && data.len() < h {
            return Err(DecoderError::UnexpectedEndOfInput { expected: h, got: data.len() });
        }
        self.total_bytes = data.len();
        assert(data@.skip(h as int) =~= data@.subrange(h as int, data@.len() as int));
        Ok(h)
    }

    /// The `dbc` value of the `@format` annotation of the first sequence
    /// field, if that field has one.
    fn find_format_annotation(st: &Struct) -> (r: Option<String>)
        ensures
            opt_text(r) == format_annotation(st@.fields, 0),
    {
        let ghost fs = st@.fields;
        let format = "format".to_owned();
        proof {
            reveal_strlit("format");
            reveal_strlit("dbc");
            assert(format@ =~= name_format());
            assert("dbc"@ =~= key_dbc());
        }
        let mut i: usize = 0;
        while i < st.fields.len()
            invariant
                i <= st.fields@.len(),
                fs == st@.fields,
                fs.len() == st.fields@.len(),
                format@ == name_format(),
                "dbc"@ == key_dbc(),
                format_annotation(fs, 0) == format_annotation(fs, i as int),
            decreases st.fields@.len() - i,
        {
            let field = &st.fields[i];
            assert(fs[i as int] == field@);
            if let TypeRef::Sequence { inner } = &field.field_type {
                assert(field@.field_type == TypeModel::Sequence(Box::new((**inner)@)));
                let ghost anns = fs[i as int].annotations;
                let mut j: usize = 0;
                while j < field.annotations.len()
                    invariant
                        fs == st@.fields,
                        i < fs.len(),
                        fs[i as int] == field@,
                        fs[i as int].field_type is Sequence,
                        anns == fs[i as int].annotations,
                        format_annotation(fs, 0) == format_annotation(fs, i as int),
                        j <= field.annotations@.len(),
                        anns == annotations_view(field.annotations@),
                        anns.len() == field.annotations@.len(),
                        format@ == name_format(),
                        "dbc"@ == key_dbc(),
                        format_in(anns, 0) == format_in(anns, j as int),
                    decreases field.annotations@.len() - j,
                {
                    let anno = &field.annotations[j];
                    assert(anns[j as int] == anno@);
                    if anno.name.eq(&format) {
                        let found = match anno.values.get("dbc") {
                            Some(v) => Some(v.clone()),
                            None => None,
                        };
                        assert(format_in(anns, j as int) == Some(opt_text(found)));
                        return found;
                    }
                    j = j + 1;
                }
                return None;
            }
            i = i + 1;
        }
        None
    }

    /// Extract the frames from a decoded sequence value.
    fn extract_frames(seq_val: &Value, format_annotation: &Option<String>) -> (r: Result<
        Vec<DecodedFrame>,
        DecoderError,
    >)
        ensures
            match model::extract_frames(seq_val@, opt_text(*format_annotation)) {
                Ok(fs) => r matches Ok(v) && frames_view(v@) == fs,
                Err(e) => r matches Err(x) && x@ == e,
            },
    {
        let ghost fmt = opt_text(*format_annotation);
        proof {
            reveal_strlit("id");
            reveal_strlit("len");
            reveal_strlit("payload");
            assert("id"@ =~= key_id());
            assert("len"@ =~= key_len());
            assert("payload"@ =~= key_payload());
        }
        match seq_val {
            Value::List(items) => {
                let ghost vs = values_model(items@);
                let mut frames: Vec<DecodedFrame> = Vec::new();
                assert(frames_view(frames@) =~= Seq::<FrameModel>::empty());
                let mut i: usize = 0;
                while i < items.len()
                    invariant
                        i <= items@.len(),
                        seq_val@ == ValueModel::List(vs),
                        vs == values_model(items@),
                        vs.len() == items@.len(),
                        fmt == opt_text(*format_annotation),
                        "id"@ == key_id(),
                        "len"@ == key_len(),
                        "payload"@ == key_payload(),
                        frames_of(vs, 0, fmt, Seq::empty()) == frames_of(
                            vs,
                            i as int,
                            fmt,
                            frames_view(frames@),
                        ),
                    decreases items@.len() - i,
                {
                    assert(vs[i as int] == items@[i as int]@);
                    match &items[i] {
                        Value::Struct(fields) => {
                            let can_id = match fields.get("id") {
                                Some(Value::U32(v)) => *v,
                                _ => {
                                    return Err(
                                        DecoderError::InvalidData(
                                            "frame missing 'id' field".to_owned(),
                                        ),
                                    );
                                },
                            };
                            let len = match fields.get("len") {
                                Some(Value::U32(v)) => *v,
                                _ => {
                                    return Err(
                                        DecoderError::InvalidData(
                                            "frame missing 'len' field".to_owned(),
                                        ),
                                    );
                                },
                            };
                            let payload = match fields.get("payload") {
                                Some(Value::Bytes(b)) => copy_vec(b),
                                _ => {
                                    return Err(
                                        DecoderError::InvalidData(
                                            "frame missing 'payload' field".to_owned(),
                                        ),
                                    );
                                },
                            };
                            let format_annotation = match format_annotation {
                                Some(s) => Some(s.clone()),
                                None => None,
                            };
                            let frame = DecodedFrame { can_id, payload, len, format_annotation };
                            proof {
                                assert(frames_view(frames@.push(frame)) =~= frames_view(
                                    frames@,
                                ).push(frame@));
                            }
                            frames.push(frame);
                        },
                        _ => {
                            return Err(
                                DecoderError::InvalidData("expected struct for frame".to_owned()),
                            );
                        },
                    }
                    i = i + 1;
                }
                Ok(frames)
            },
            _ => Err(DecoderError::InvalidData("expected List for frames sequence".to_owned())),
        }
    }
}

/// The frames found so far, as models.
pub open spec fn opt_frames(o: Option<Vec<DecodedFrame>>) -> Option<Seq<FrameModel>> {
    match o {
        Some(v) => Some(frames_view(v@)),
        None => None,
    }
}

/// A copy of `v`.
fn copy_vec(v: &Vec<u8>) -> (r: Vec<u8>)
    ensures
        r@ == v@,
{
    let mut out: Vec<u8> = Vec::new();
    let mut i: usize = 0;
    while i < v.len()
        invariant
            i <= v@.len(),
            out@ == v@.take(i as int),
        decreases v@.len() - i,
    {
        out.push(v[i]);
        assert(out@ =~= v@.take(i + 1));
        i = i + 1;
    }
    assert(v@.take(v@.len() as int) =~= v@);
    out
}

// ============================================================================
// Schema navigation
// ============================================================================

/// The pieces of `s` between dots.
fn split_dots(s: &str) -> (r: Vec<String>)
    ensures
        r@.map_values(|p: String| p@) == split_dot(s@),
{
    let chars = chars_of(s);
    let mut parts: Vec<String> = Vec::new();
    let mut start: usize = 0;
    let mut i: usize = 0;
    assert(s@.take(0) =~= Seq::<char>::empty());
    assert(parts@.map_values(|p: String| p@).push(s@.subrange(0, 0)) =~= seq![Seq::<char>::empty()]);
    while i < chars.len()
        invariant
            chars@ == s@,
            start <= i <= chars@.len(),
            split_dot(s@.take(i as int)) == parts@.map_values(|p: String| p@).push(
                s@.subrange(start as int, i as int),
            ),
        decreases chars@.len() - i,
    {
        assert(s@.take(i + 1).drop_last() =~= s@.take(i as int));
        if chars[i] == '.' {
            let piece = substring(s, start, i);
            let ghost before = parts@;
            parts.push(piece);
            assert(parts@.map_values(|p: String| p@) =~= before.map_values(|p: String| p@).push(
                piece@,
            ));
            start = i + 1;
            assert(s@.subrange(start as int, i + 1) =~= Seq::<char>::empty());
        } else {
            assert(s@.subrange(start as int, i + 1) =~= s@.subrange(start as int, i as int).push(
                chars@[i as int],
            ));
        }
        i = i + 1;
    }
    let last = substring(s, start, chars.len());
    let ghost before = parts@;
    parts.push(last);
    assert(parts@.map_values(|p: String| p@) =~= before.map_values(|p: String| p@).push(last@));
    assert(s@.take(chars@.len() as int) =~= s@);
    parts
}

/// The first struct directly in `module` named `name`.
fn direct_struct<'a>(module: &'a Module, name: &String) -> (r: Option<&'a Struct>)
    ensures
        match model::direct_struct(module@.content, name@, 0) {
            Some(s) => r matches Some(x) && x@ == s,
            None => r is None,
        },
{
    let ghost cs = module@.content;
    let mut i: usize = 0;
    while i < module.content.len()
        invariant
            i <= module.content@.len(),
            cs == module@.content,
            cs.len() == module.content@.len(),
            model::direct_struct(cs, name@, 0) == model::direct_struct(cs, name@, i as int),
        decreases module.content@.len() - i,
    {
        if let ModuleContent::Struct(st) = &module.content[i] {
            if st.name.eq(name) {
                return Some(st);
            }
        }
        i = i + 1;
    }
    None
}

/// "struct '<name>' not found in module '<module>'".
fn struct_not_found(name: &String, module: &Module) -> (r: DecoderError)
    ensures
        r == DecoderError::SchemaNotFound(r->SchemaNotFound_0),
        r->SchemaNotFound_0@ == "struct '"@ + name@ + "' not found in module '"@ + module.name@
            + "'"@,
{
    let mut msg = "struct '".to_owned();
    msg.append(name.as_str());
    msg.append("' not found in module '");
    msg.append(module.name.as_str());
    msg.append("'");
    DecoderError::SchemaNotFound(msg)
}

impl Decoder {
    /// Navigate the module tree to find the struct identified by `schema_id`.
    fn travel_module(&self, schema_id: &str) -> (r: Result<&Struct, DecoderError>)
        ensures
            match model::travel_module(self.module@, schema_id@) {
                Ok(s) => r matches Ok(x) && x@ == s,
                Err(m) => r matches Err(e) && e@ == ErrorModel::SchemaNotFound(m),
            },
    {
        let parts = split_dots(schema_id);
        let ghost ps = parts@.map_values(|p: String| p@);
        proof {
            model::lemma_split_dot_len(schema_id@);
        }
        assert(ps.len() == parts@.len());
        if parts.len() == 1 {
            let name = &parts[0];
            assert(ps[0] == name@);
            return match direct_struct(&self.module, name) {
                Some(st) => Ok(st),
                None => Err(struct_not_found(name, &self.module)),
            };
        }
        let start_idx: usize = if self.module.name.eq(&parts[0]) {
            1
        } else {
            0
        };
        assert(ps[0] == parts@[0]@);
        if start_idx >= parts.len() {
            let mut msg = "invalid schema_id '".to_owned();
            msg.append(schema_id);
            msg.append("'");
            return Err(DecoderError::SchemaNotFound(msg));
        }
        Self::travel(&parts, start_idx, &self.module)
    }

    /// Follow `parts[idx..]` down from `module`: modules, then a struct.
    fn travel<'a>(parts: &Vec<String>, idx: usize, module: &'a Module) -> (r: Result<
        &'a Struct,
        DecoderError,
    >)
        requires
            idx < parts@.len(),
        ensures
            match model::travel(parts@.map_values(|p: String| p@), idx as int, module@) {
                Ok(s) => r matches Ok(x) && x@ == s,
                Err(m) => r matches Err(e) && e@ == ErrorModel::SchemaNotFound(m),
            },
        decreases parts@.len() - idx,
    {
        let ghost ps = parts@.map_values(|p: String| p@);
        let target = &parts[idx];
        assert(ps[idx as int] == target@);
        if idx == parts.len() - 1 {
            return match direct_struct(module, target) {
                Some(st) => Ok(st),
                None => Err(struct_not_found(target, module)),
            };
        }
        let ghost cs = module@.content;
        let mut i: usize = 0;
        while i < module.content.len()
            invariant
                i <= module.content@.len(),
                cs == module@.content,
                cs.len() == module.content@.len(),
                idx + 1 < parts.len(),
                ps == parts@.map_values(|p: String| p@),
                ps[idx as int] == target@,
                model::sub_module(cs, target@, 0) == model::sub_module(cs, target@, i as int),
            decreases module.content@.len() - i,
        {
            if let ModuleContent::Module(sub_module) = &module.content[i] {
                if sub_module.name.eq(target) {
                    return Self::travel(parts, idx + 1, &**sub_module);
                }
            }
            i = i + 1;
        }
        let mut msg = "module '".to_owned();
        msg.append(target.as_str());
        msg.append("' not found in '");
        msg.append(module.name.as_str());
        msg.append("'");
        Err(DecoderError::SchemaNotFound(msg))
    }
}

} // verus!
