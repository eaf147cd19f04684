//! String decoder: fixed-length and dynamic strings with BOM detection.
//!
//! Supported encodings: UTF-8, UTF-16BE, UTF-16LE (announced by a BOM).
use vstd::prelude::*;
use vstd::string::*;

use super::model::{
    dec_dynamic_string, dec_fixed_string, dec_string, decode_content, detect_bom as spec_bom,
    extract_content, first_zero, first_zero_unit, length_field, string_text, trim_nuls,
    utf16_units, value_outcome, ErrorModel, StringEncoding,
};
use super::{Decoder, DecoderError, Value};
use crate::text::{chars_of, substring, utf16_to_string, utf8_to_string};

verus! {

broadcast use vstd::string::group_string_axioms;

impl Decoder {
    /// Decode a string field.
    pub(super) fn decode_string(
        &self,
        buf: &[u8],
        pos: usize,
        end: usize,
        length: Option<u32>,
    ) -> (r: Result<(Value, usize), DecoderError>)
        requires
            pos <= end <= buf@.len(),
        ensures
            value_outcome(r, buf@, end as int) == dec_string(
                self.config,
                buf@.subrange(pos as int, end as int),
                length,
            ),
            r matches Ok((_, p)) ==> pos <= p <= end,
    {
        match length {
            Some(fixed_len) => self.decode_fixed_string(buf, pos, end, fixed_len as usize),
            None => self.decode_dynamic_string(buf, pos, end),
        }
    }

    /// Dynamic string: length prefix + BOM + content + terminator.
    fn decode_dynamic_string(&self, buf: &[u8], pos: usize, end: usize) -> (r: Result<
        (Value, usize),
        DecoderError,
    >)
        requires
            pos <= end <= buf@.len(),
        ensures
            value_outcome(r, buf@, end as int) == dec_dynamic_string(
                self.config,
                buf@.subrange(pos as int, end as int),
            ),
            r matches Ok((_, p)) ==> pos <= p <= end,
    {
        let ghost w = buf@.subrange(pos as int, end as int);
        let (byte_len, start) = match self.decode_length_field(buf, pos, end) {
            Ok(x) => x,
            Err(e) => return Err(e),
        };
        let ghost rem = buf@.subrange(start as int, end as int);
        assert(length_field(self.config, w) == Ok::<(nat, Seq<u8>), ErrorModel>(
            (byte_len as nat, rem),
        ));
        if end - start < byte_len {
            return Err(DecoderError::UnexpectedEndOfInput { expected: byte_len, got: end - start });
        }
        let stop = start + byte_len;
        proof {
            assert(rem.take(byte_len as int) =~= buf@.subrange(start as int, stop as int));
            assert(rem.skip(byte_len as int) =~= buf@.subrange(stop as int, end as int));
        }
        match string_at(buf, start, stop) {
            Ok(s) => Ok((Value::Str(s), stop)),
            Err(e) => Err(e),
        }
    }

    /// Fixed-length string: fixed-width buffer with BOM + content +
    /// terminator + padding; trailing NUL characters are dropped.
    fn decode_fixed_string(&self, buf: &[u8], pos: usize, end: usize, fixed_len: usize) -> (r:
        Result<(Value, usize), DecoderError>)
        requires
            pos <= end <= buf@.len(),
        ensures
            value_outcome(r, buf@, end as int) == dec_fixed_string(
                buf@.subrange(pos as int, end as int),
                fixed_len as nat,
            ),
            r matches Ok((_, p)) ==> pos <= p <= end,
    {
        let ghost w = buf@.subrange(pos as int, end as int);
        if end - pos < fixed_len {
            return Err(DecoderError::UnexpectedEndOfInput { expected: fixed_len, got: end - pos });
        }
        let stop = pos + fixed_len;
        proof {
            assert(w.take(fixed_len as int) =~= buf@.subrange(pos as int, stop as int));
            assert(w.skip(fixed_len as int) =~= buf@.subrange(stop as int, end as int));
        }
        match string_at(buf, pos, stop) {
            Ok(s) => {
                let t = trim_trailing_nuls(&s);
                Ok((Value::Str(t), stop))
            },
            Err(e) => Err(e),
        }
    }
}

/// The text of the string buffer `buf[pos..end]`: BOM, content, terminator.
fn string_at(buf: &[u8], pos: usize, end: usize) -> (r: Result<String, DecoderError>)
    requires
        pos <= end <= buf@.len(),
    ensures
        match string_text(buf@.subrange(pos as int, end as int)) {
            Ok(s) => r matches Ok(x) && x@ == s,
            Err(e) => r matches Err(x) && x@ == e,
        },
{
    let ghost w = buf@.subrange(pos as int, end as int);
    let (encoding, bom_len) = match detect_bom(buf, pos, end) {
        Ok(x) => x,
        Err(e) => return Err(e),
    };
    let start = pos + bom_len;
    assert(w.skip(bom_len as int) =~= buf@.subrange(start as int, end as int));
    let stop = match extract_string_content(buf, start, end, encoding) {
        Ok(q) => q,
        Err(e) => return Err(e),
    };
    decode_string_content(buf, start, stop, encoding)
}

/// Detect encoding from Byte Order Mark (BOM): the encoding and the BOM's
/// length in bytes. A BOM is required.
fn detect_bom(buf: &[u8], pos: usize, end: usize) -> (r: Result<
    (StringEncoding, usize),
    DecoderError,
>)
    requires
        pos <= end <= buf@.len(),
    ensures
        match spec_bom(buf@.subrange(pos as int, end as int)) {
            Ok((enc, n)) => r matches Ok((e2, n2)) && e2 == enc && n2 == n && pos + n2 <= end,
            Err(e) => r matches Err(x) && x@ == e,
        },
{
    let n = end - pos;
    if n >= 3 && buf[pos] == 0xEF && buf[pos + 1] == 0xBB && buf[pos + 2] == 0xBF {
        Ok((StringEncoding::Utf8, 3))
    } else if n >= 2 && buf[pos] == 0xFE && buf[pos + 1] == 0xFF {
        Ok((StringEncoding::Utf16Be, 2))
    } else if n >= 2 && buf[pos] == 0xFF && buf[pos + 1] == 0xFE {
        Ok((StringEncoding::Utf16Le, 2))
    } else {
        Err(DecoderError::InvalidData("unknown encoding: no valid BOM found".to_owned()))
    }
}

/// Where the content ends: the position of the encoding's terminator.
fn extract_string_content(buf: &[u8], pos: usize, end: usize, encoding: StringEncoding) -> (r:
    Result<usize, DecoderError>)
    requires
        pos <= end <= buf@.len(),
    ensures
        match extract_content(buf@.subrange(pos as int, end as int), encoding) {
            Ok(c) => r matches Ok(q) && pos <= q <= end && c == buf@.subrange(pos as int, q as int),
            Err(e) => r matches Err(x) && x@ == e,
        },
{
    let ghost w = buf@.subrange(pos as int, end as int);
    match encoding {
        StringEncoding::Utf8 => {
            let mut i: usize = pos;
            while i < end
                invariant
                    pos <= i <= end,
                    end <= buf@.len(),
                    w == buf@.subrange(pos as int, end as int),
                    first_zero(w, 0) == first_zero(w, i - pos),
                    encoding == StringEncoding::Utf8,
                decreases end - i,
            {
                if buf[i] == 0 {
                    assert(w[i - pos] == 0);
                    assert(first_zero(w, i - pos) == Some(i - pos));
                    assert(w.take(i - pos) =~= buf@.subrange(pos as int, i as int));
                    return Ok(i);
                }
                i = i + 1;
            }
        },
        _ => {
            let mut i: usize = pos;
            while end - i >= 2
                invariant
                    pos <= i <= end,
                    end <= buf@.len(),
                    (i - pos) % 2 == 0,
                    w == buf@.subrange(pos as int, end as int),
                    first_zero_unit(w, 0) == first_zero_unit(w, (i - pos) / 2),
                    encoding != StringEncoding::Utf8,
                decreases end - i,
            {
                assert(2 * ((i - pos) / 2) == i - pos);
                if buf[i] == 0 && buf[i + 1] == 0 {
                    assert(w[i - pos] == 0 && w[i - pos + 1] == 0);
                    assert(first_zero_unit(w, (i - pos) / 2) == Some((i - pos) / 2));
                    assert(w.take(i - pos) =~= buf@.subrange(pos as int, i as int));
                    return Ok(i);
                }
                i = i + 2;
            }
            assert(2 * ((i - pos) / 2) + 2 > w.len());
        },
    }
    Err(DecoderError::InvalidData("string terminator not found".to_owned()))
}

/// Convert the content bytes `buf[pos..end]` to text in the given encoding.
fn decode_string_content(buf: &[u8], pos: usize, end: usize, encoding: StringEncoding) -> (r:
    Result<String, DecoderError>)
    requires
        pos <= end <= buf@.len(),
    ensures
        match decode_content(buf@.subrange(pos as int, end as int), encoding) {
            Ok(s) => r matches Ok(x) && x@ == s,
            Err(e) => r matches Err(x) && x@ == e,
        },
{
    match encoding {
        StringEncoding::Utf8 => {
            let bytes = copy_bytes(buf, pos, end);
            match utf8_to_string(bytes) {
                Ok(s) => Ok(s),
                Err(e) => {
                    let mut msg = "invalid UTF-8: ".to_owned();
                    msg.append(e.as_str());
                    Err(DecoderError::InvalidData(msg))
                },
            }
        },
        StringEncoding::Utf16Be => decode_utf16(buf, pos, end, true),
        StringEncoding::Utf16Le => decode_utf16(buf, pos, end, false),
    }
}

/// The bytes `buf[pos..end]` as a vector.
fn copy_bytes(buf: &[u8], pos: usize, end: usize) -> (r: Vec<u8>)
    requires
        pos <= end <= buf@.len(),
    ensures
        r@ == buf@.subrange(pos as int, end as int),
{
    let mut v: Vec<u8> = Vec::new();
    let mut i: usize = pos;
    while i < end
        invariant
            pos <= i <= end,
            end <= buf@.len(),
            v@ == buf@.subrange(pos as int, i as int),
        decreases end - i,
    {
        v.push(buf[i]);
        assert(v@ =~= buf@.subrange(pos as int, i + 1));
        i = i + 1;
    }
    v
}

/// Decode UTF-16 bytes (big or little endian) to a String.
fn decode_utf16(buf: &[u8], pos: usize, end: usize, big_endian: bool) -> (r: Result<
    String,
    DecoderError,
>)
    requires
        pos <= end <= buf@.len(),
    ensures
        ({
            let d = buf@.subrange(pos as int, end as int);
            if d.len() % 2 != 0 {
                r matches Err(x) && x@ == ErrorModel::InvalidData("UTF-16 data length must be even"@)
            } else {
                match crate::text::utf16_decode(utf16_units(d, big_endian)) {
                    Some(s) => r matches Ok(x) && x@ == s,
                    None => r matches Err(x) && x@ == ErrorModel::InvalidData(
                        "invalid UTF-16: FromUtf16Error(())"@,
                    ),
                }
            }
        }),
{
    let ghost d = buf@.subrange(pos as int, end as int);
    if (end - pos) % 2 != 0 {
        return Err(DecoderError::InvalidData("UTF-16 data length must be even".to_owned()));
    }
    let mut units: Vec<u16> = Vec::new();
    let mut i: usize = pos;
    while end - i >= 2
        invariant
            pos <= i <= end,
            end <= buf@.len(),
            (i - pos) % 2 == 0,
            (end - pos) % 2 == 0,
            d == buf@.subrange(pos as int, end as int),
            units@ == utf16_units(d, big_endian).take((i - pos) / 2),
        decreases end - i,
    {
        let a = buf[i] as u16;
        let b = buf[i + 1] as u16;
        let u: u16 = if big_endian {
            a * 256 + b
        } else {
            b * 256 + a
        };
        units.push(u);
        proof {
            let k = (i - pos) / 2;
            assert(2 * k == i - pos);
            assert(units@ =~= utf16_units(d, big_endian).take(k + 1));
        }
        i = i + 2;
    }
    assert(units@ =~= utf16_units(d, big_endian));
    match utf16_to_string(units.as_slice()) {
        Some(s) => Ok(s),
        None => Err(DecoderError::InvalidData("invalid UTF-16: FromUtf16Error(())".to_owned())),
    }
}

/// `s` without its trailing NUL characters.
fn trim_trailing_nuls(s: &String) -> (r: String)
    ensures
        r@ == trim_nuls(s@),
{
    let chars = chars_of(s.as_str());
    let mut k: usize = chars.len();
    assert(s@.take(k as int) =~= s@);
    while k > 0 && chars[k - 1] == '\0'
        invariant
            k <= chars@.len(),
            chars@ == s@,
            trim_nuls(s@) == trim_nuls(s@.take(k as int)),
        decreases k,
    {
        assert(s@.take(k as int).drop_last() =~= s@.take(k - 1));
        k = k - 1;
    }
    assert(trim_nuls(s@.take(k as int)) == s@.take(k as int));
    substring(s.as_str(), 0, k)
}

} // verus!
