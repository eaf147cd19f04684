//! Tests of properties, edge cases and error variants of the library.

use idl_parser_rs::ast::{ModuleContent, TypeRef};
use idl_parser_rs::decoder::{Decoder, DecoderConfig, DecoderError, FieldMap, Value};
use idl_parser_rs::parse_idl;
use idl_parser_rs::parser::type_ref::{parse_base_type, parse_type_ref};
use idl_parser_rs::parser::util::Source;

fn decoder_with(idl: &str, config: DecoderConfig) -> Decoder {
    Decoder::new(config, parse_idl(idl).unwrap()).unwrap()
}

fn decoder(idl: &str) -> Decoder {
    decoder_with(idl, DecoderConfig::default())
}

fn be_config() -> DecoderConfig {
    DecoderConfig::default()
}

fn le_config() -> DecoderConfig {
    DecoderConfig {
        is_little_endian: true,
        ..Default::default()
    }
}

// ============================================================================
// Field maps
// ============================================================================

#[test]
fn field_map_insert_then_get() {
    let mut m = FieldMap::new();
    assert_eq!(m.len(), 0);
    m.insert("a".into(), Value::U8(1));
    m.insert("b".into(), Value::U8(2));
    m.insert("a".into(), Value::U8(3));
    assert_eq!(m.get("a"), Some(&Value::U8(3)));
    assert_eq!(m.get("b"), Some(&Value::U8(2)));
    assert_eq!(m.get("c"), None);
    assert_eq!(m.len(), 2);
    // the replaced key keeps its place
    assert_eq!(m.entries[0].0, "a");
    assert_eq!(m.entries[1].0, "b");
}

#[test]
fn duplicate_field_names_give_one_entry() {
    let mut dec = decoder("module m { struct S { octet a; octet b; octet a; }; }");
    let r = dec.decode("S", &[1, 2, 3]).unwrap();
    assert_eq!(r.len(), 2);
    assert_eq!(r.get("a"), Some(&Value::U8(3)));
    assert_eq!(r.get("b"), Some(&Value::U8(2)));
}

#[test]
fn fields_come_in_declaration_order() {
    let mut dec = decoder("module m { struct S { octet z; octet y; octet x; }; }");
    let r = dec.decode("S", &[1, 2, 3]).unwrap();
    let names: Vec<&str> = r.entries.iter().map(|e| e.0.as_str()).collect();
    assert_eq!(names, vec!["z", "y", "x"]);
}

// ============================================================================
// Annotations
// ============================================================================

#[test]
fn last_annotation_pair_wins() {
    let m = parse_idl(
        r#"module m { struct S { @format(dbc="a.json", dbc="b.json", other="x") sequence<octet> p; }; }"#,
    )
    .unwrap();
    match &m.content[0] {
        ModuleContent::Struct(s) => {
            let anno = &s.fields[0].annotations[0];
            assert_eq!(anno.name, "format");
            assert_eq!(anno.values.get("dbc"), Some(&"b.json".to_string()));
            assert_eq!(anno.values.get("other"), Some(&"x".to_string()));
            assert_eq!(anno.values.len(), 2);
        }
        _ => panic!("expected struct"),
    }
}

#[test]
fn identifiers_are_ascii() {
    assert!(parse_idl("module m { struct S { octet café; }; }").is_err());
    assert!(parse_idl("module m { struct S { longé x; }; }").is_err());
    assert!(parse_idl("module m { struct S { octet caf_e9; }; }").is_ok());
}

#[test]
fn base_type_takes_the_whitespace_after_it() {
    let src = Source::new("long long name");
    let (t, q) = parse_base_type(&src, 0).unwrap();
    assert_eq!(t, TypeRef::LongLong);
    assert!(src.text[q..].starts_with("name"));
    let src = Source::new("octet // note\n  x");
    let (t, q) = parse_base_type(&src, 0).unwrap();
    assert_eq!(t, TypeRef::Octet);
    assert_eq!(&src.text[q..], "x");
    // the array suffix keeps what follows it
    let src = Source::new("octet[10][5] a");
    let (_, q) = parse_type_ref(&src, 0).unwrap();
    assert_eq!(&src.text[q..], " a");
}

#[test]
fn field_type_and_name_need_a_separator() {
    assert!(parse_idl("module m { struct S { octet[4]a; }; }").is_err());
    let m = parse_idl("module m { struct S { octet // c\n a; octet [2] b; }; }").unwrap();
    match &m.content[0] {
        ModuleContent::Struct(s) => {
            assert_eq!(s.fields[0].name, "a");
            assert_eq!(s.fields[1].name, "b");
            assert_eq!(
                s.fields[1].field_type,
                TypeRef::Array {
                    inner: Box::new(TypeRef::Octet),
                    size: 2
                }
            );
        }
        _ => panic!("expected struct"),
    }
}

#[test]
fn empty_quoted_annotation_value() {
    let m = parse_idl("module m { struct S { @format(dbc=\"\") octet a; }; }").unwrap();
    match &m.content[0] {
        ModuleContent::Struct(s) => {
            assert_eq!(
                s.fields[0].annotations[0].values.get("dbc").map(|v| v.as_str()),
                Some("")
            );
        }
        _ => panic!("expected struct"),
    }
    assert!(parse_idl("module m { struct S { @format(dbc=) octet a; }; }").is_err());
}

// ============================================================================
// Byte order
// ============================================================================

#[test]
fn little_endian_reads_reversed_bytes() {
    let idl = "module m { struct S { unsigned long long a; long b; unsigned short c; }; }";
    let be_bytes = [1, 2, 3, 4, 5, 6, 7, 8, 0xF0, 0x00, 0x00, 0x01, 0xAB, 0xCD];
    let le_bytes = [8, 7, 6, 5, 4, 3, 2, 1, 0x01, 0x00, 0x00, 0xF0, 0xCD, 0xAB];
    let mut be = decoder_with(idl, be_config());
    let mut le = decoder_with(idl, le_config());
    let a = be.decode("S", &be_bytes).unwrap();
    let b = le.decode("S", &le_bytes).unwrap();
    assert_eq!(a, b);
    assert_eq!(a.get("a"), Some(&Value::U64(0x0102030405060708)));
    assert_eq!(a.get("b"), Some(&Value::I32(-268435455)));
    assert_eq!(a.get("c"), Some(&Value::U16(0xABCD)));
}

#[test]
fn double_bits_in_both_byte_orders() {
    let idl = "module m { struct S { double d; }; }";
    let bits = (-2.5f64).to_bits();
    let mut be = decoder_with(idl, be_config());
    let mut le = decoder_with(idl, le_config());
    let a = be.decode("S", &bits.to_be_bytes()).unwrap();
    let b = le.decode("S", &bits.to_le_bytes()).unwrap();
    assert_eq!(a.get("d"), Some(&Value::F64(bits)));
    assert_eq!(b.get("d"), Some(&Value::F64(bits)));
}

// ============================================================================
// Sequences and arrays
// ============================================================================

#[test]
fn octet_sequence_is_raw_bytes() {
    let mut dec = decoder("module m { struct S { sequence<octet> p; octet after; }; }");
    let r = dec.decode("S", &[0, 0, 0, 4, 9, 8, 7, 6, 42]).unwrap();
    assert_eq!(r.get("p"), Some(&Value::Bytes(vec![9, 8, 7, 6])));
    assert_eq!(r.get("after"), Some(&Value::U8(42)));
}

#[test]
fn sequence_longer_than_input() {
    let mut dec = decoder("module m { struct S { sequence<octet> p; }; }");
    match dec.decode("S", &[0, 0, 0, 9, 1, 2]) {
        Err(DecoderError::UnexpectedEndOfInput { expected, got }) => {
            assert_eq!(expected, 9);
            assert_eq!(got, 2);
        }
        other => panic!("unexpected {:?}", other),
    }
}

#[test]
fn sequence_element_error_is_invalid_data() {
    // 3 bytes announced for shorts: the second element is cut short
    let mut dec = decoder("module m { struct S { sequence<short> p; }; }");
    match dec.decode("S", &[0, 0, 0, 3, 0, 1, 2]) {
        Err(DecoderError::InvalidData(msg)) => {
            assert_eq!(
                msg,
                "sequence element 1: unexpected end of input: expected 2 bytes, got 1"
            );
        }
        other => panic!("unexpected {:?}", other),
    }
}

#[test]
fn array_element_error_is_invalid_data() {
    let mut dec = decoder("module m { struct S { long[2] a; }; }");
    match dec.decode("S", &[0, 0, 0, 1, 0, 0]) {
        Err(DecoderError::InvalidData(msg)) => {
            assert_eq!(
                msg,
                "array element 1: unexpected end of input: expected 4 bytes, got 2"
            );
        }
        other => panic!("unexpected {:?}", other),
    }
}

#[test]
fn array_header_mismatch_message() {
    let mut dec = decoder_with(
        "module m { struct S { octet[3] a; }; }",
        DecoderConfig {
            enable_array_length_header: true,
            length_field_length: 1,
            ..Default::default()
        },
    );
    match dec.decode("S", &[5, 1, 2, 3]) {
        Err(DecoderError::InvalidData(msg)) => {
            assert_eq!(msg, "array length header 5 does not match declared size 3");
        }
        other => panic!("unexpected {:?}", other),
    }
}

#[test]
fn octet_array_of_structs_is_a_list() {
    let idl = "module m { struct P { octet x; }; struct S { P[2] ps; }; }";
    let mut dec = decoder(idl);
    let r = dec.decode("S", &[7, 9]).unwrap();
    let mut p1 = FieldMap::new();
    p1.insert("x".into(), Value::U8(7));
    let mut p2 = FieldMap::new();
    p2.insert("x".into(), Value::U8(9));
    assert_eq!(
        r.get("ps"),
        Some(&Value::List(vec![Value::Struct(p1), Value::Struct(p2)]))
    );
}

// ============================================================================
// Padding
// ============================================================================

#[test]
fn padding_aligns_to_the_whole_input() {
    // header of 1 byte counts towards alignment
    let idl = "module m { struct S { sequence<octet> p; octet x; }; }";
    let mut dec = decoder_with(
        idl,
        DecoderConfig {
            length_field_length: 1,
            padding_length: 4,
            header_length: 1,
            ..Default::default()
        },
    );
    // header(1) + len(1) + 1 byte = 3 consumed, so 1 byte of padding
    let r = dec.decode("S", &[0xEE, 1, 0xAA, 0x00, 0x55]).unwrap();
    assert_eq!(r.get("p"), Some(&Value::Bytes(vec![0xAA])));
    assert_eq!(r.get("x"), Some(&Value::U8(0x55)));
}

#[test]
fn padding_beyond_input_is_an_error() {
    let idl = "module m { struct S { sequence<octet> p; octet x; }; }";
    let mut dec = decoder_with(
        idl,
        DecoderConfig {
            length_field_length: 1,
            padding_length: 8,
            ..Default::default()
        },
    );
    match dec.decode("S", &[1, 0xAA, 0, 0]) {
        Err(DecoderError::UnexpectedEndOfInput { expected, got }) => {
            assert_eq!(expected, 6);
            assert_eq!(got, 2);
        }
        other => panic!("unexpected {:?}", other),
    }
}

#[test]
fn no_padding_at_the_end_of_input() {
    let idl = "module m { struct S { sequence<octet> p; }; }";
    let mut dec = decoder_with(
        idl,
        DecoderConfig {
            length_field_length: 1,
            padding_length: 64,
            ..Default::default()
        },
    );
    let r = dec.decode("S", &[2, 1, 2]).unwrap();
    assert_eq!(r.get("p"), Some(&Value::Bytes(vec![1, 2])));
}

// ============================================================================
// Header
// ============================================================================

#[test]
fn header_bytes_are_not_read() {
    let idl = "module m { struct S { unsigned short a; }; }";
    let config = DecoderConfig {
        header_length: 3,
        ..Default::default()
    };
    let mut dec = decoder_with(idl, config);
    let a = dec.decode("S", &[1, 2, 3, 0x12, 0x34]).unwrap();
    let b = dec.decode("S", &[9, 9, 9, 0x12, 0x34]).unwrap();
    assert_eq!(a, b);
    assert_eq!(a.get("a"), Some(&Value::U16(0x1234)));
}

#[test]
fn header_too_short_reports_counts() {
    let mut dec = decoder_with(
        "module m { struct S { octet a; }; }",
        DecoderConfig {
            header_length: 4,
            ..Default::default()
        },
    );
    match dec.decode("S", &[1, 2]) {
        Err(DecoderError::UnexpectedEndOfInput { expected, got }) => {
            assert_eq!(expected, 4);
            assert_eq!(got, 2);
        }
        other => panic!("unexpected {:?}", other),
    }
}

// ============================================================================
// Strings
// ============================================================================

#[test]
fn utf16_surrogate_pair() {
    let mut dec = decoder("module m { struct S { string<8> s; }; }");
    // BOM, U+1F600 as D83D DE00, terminator
    let r = dec
        .decode("S", &[0xFE, 0xFF, 0xD8, 0x3D, 0xDE, 0x00, 0x00, 0x00])
        .unwrap();
    assert_eq!(r.get("s"), Some(&Value::Str("\u{1F600}".into())));
}

#[test]
fn utf16_unpaired_surrogate_is_invalid() {
    let mut dec = decoder("module m { struct S { string<6> s; }; }");
    match dec.decode("S", &[0xFF, 0xFE, 0x3D, 0xD8, 0x00, 0x00]) {
        Err(DecoderError::InvalidData(msg)) => {
            assert_eq!(msg, "invalid UTF-16: FromUtf16Error(())");
        }
        other => panic!("unexpected {:?}", other),
    }
}

#[test]
fn utf8_invalid_bytes() {
    let mut dec = decoder("module m { struct S { string<6> s; }; }");
    match dec.decode("S", &[0xEF, 0xBB, 0xBF, 0xC3, 0x28, 0x00]) {
        Err(DecoderError::InvalidData(msg)) => {
            assert_eq!(
                msg,
                "invalid UTF-8: invalid utf-8 sequence of 1 bytes from index 0"
            );
        }
        other => panic!("unexpected {:?}", other),
    }
}

#[test]
fn fixed_string_stops_at_the_first_terminator() {
    // UTF-16 text, its terminator, then zero units that are not read
    let mut dec = decoder("module m { struct S { string<8> s; }; }");
    let r = dec
        .decode("S", &[0xFF, 0xFE, 0x41, 0x00, 0x00, 0x00, 0x00, 0x00])
        .unwrap();
    assert_eq!(r.get("s"), Some(&Value::Str("A".into())));
}

#[test]
fn string_terminator_missing() {
    let mut dec = decoder("module m { struct S { string<5> s; }; }");
    match dec.decode("S", &[0xEF, 0xBB, 0xBF, 0x41, 0x42]) {
        Err(DecoderError::InvalidData(msg)) => assert_eq!(msg, "string terminator not found"),
        other => panic!("unexpected {:?}", other),
    }
}

#[test]
fn utf16_terminator_only_on_unit_boundaries() {
    // 0x41 0x00 0x00 0x42 holds a zero pair across units, not on a boundary
    let mut dec = decoder("module m { struct S { string<8> s; }; }");
    let r = dec
        .decode("S", &[0xFF, 0xFE, 0x41, 0x00, 0x00, 0x42, 0x00, 0x00])
        .unwrap();
    assert_eq!(r.get("s"), Some(&Value::Str("A\u{4200}".into())));
}

// ============================================================================
// Schema navigation
// ============================================================================

#[test]
fn schema_paths() {
    let idl = "module a { module b { struct c { octet x; }; }; struct top { octet y; }; }";
    let mut dec = decoder(idl);
    assert!(dec.decode("a.b.c", &[1]).is_ok());
    assert!(dec.decode("b.c", &[1]).is_ok());
    assert!(dec.decode("top", &[1]).is_ok());
    assert!(dec.decode("a.top", &[1]).is_ok());
    // a single name is looked up in the root module only
    match dec.decode("c", &[1]) {
        Err(DecoderError::SchemaNotFound(msg)) => {
            assert_eq!(msg, "struct 'c' not found in module 'a'")
        }
        other => panic!("unexpected {:?}", other),
    }
    match dec.decode("a.x.c", &[1]) {
        Err(DecoderError::SchemaNotFound(msg)) => assert_eq!(msg, "module 'x' not found in 'a'"),
        other => panic!("unexpected {:?}", other),
    }
    match dec.decode("a.b.d", &[1]) {
        Err(DecoderError::SchemaNotFound(msg)) => {
            assert_eq!(msg, "struct 'd' not found in module 'b'")
        }
        other => panic!("unexpected {:?}", other),
    }
}

#[test]
fn type_names_are_found_anywhere_in_the_tree() {
    let idl = "module a { module b { struct inner { octet x; }; }; struct outer { inner i; }; }";
    let mut dec = decoder(idl);
    let r = dec.decode("outer", &[5]).unwrap();
    let mut inner = FieldMap::new();
    inner.insert("x".into(), Value::U8(5));
    assert_eq!(r.get("i"), Some(&Value::Struct(inner)));
}

#[test]
fn unknown_type_name() {
    let mut dec = decoder("module m { struct S { Missing x; }; }");
    match dec.decode("S", &[1]) {
        Err(DecoderError::SchemaNotFound(msg)) => assert_eq!(msg, "struct 'Missing' not found"),
        other => panic!("unexpected {:?}", other),
    }
}

// ============================================================================
// Decoding that could never finish
// ============================================================================

#[test]
fn struct_containing_itself_is_invalid_data() {
    let mut dec = decoder("module m { struct S { S inner; }; }");
    match dec.decode("S", &[1, 2, 3]) {
        Err(DecoderError::InvalidData(msg)) => {
            assert_eq!(msg, "struct 'S' nests within itself without consuming input")
        }
        other => panic!("unexpected {:?}", other),
    }
}

#[test]
fn recursion_that_consumes_input_ends_with_the_input() {
    let mut dec = decoder("module m { struct S { octet x; S next; }; }");
    match dec.decode("S", &[1, 2, 3]) {
        Err(DecoderError::UnexpectedEndOfInput { expected, got }) => {
            assert_eq!(expected, 1);
            assert_eq!(got, 0);
        }
        other => panic!("unexpected {:?}", other),
    }
}

#[test]
fn sequence_of_empty_structs_is_invalid_data() {
    let mut dec = decoder("module m { struct E { }; struct S { sequence<E> es; }; }");
    match dec.decode("S", &[0, 0, 0, 2, 0, 0]) {
        Err(DecoderError::InvalidData(msg)) => {
            assert_eq!(msg, "sequence element 0: element consumes no bytes")
        }
        other => panic!("unexpected {:?}", other),
    }
}

#[test]
fn array_of_empty_structs() {
    let mut dec = decoder("module m { struct E { }; struct S { E[2] es; octet x; }; }");
    let r = dec.decode("S", &[4]).unwrap();
    assert_eq!(
        r.get("es"),
        Some(&Value::List(vec![
            Value::Struct(FieldMap::new()),
            Value::Struct(FieldMap::new())
        ]))
    );
    assert_eq!(r.get("x"), Some(&Value::U8(4)));
}

// ============================================================================
// Errors and configuration
// ============================================================================

#[test]
fn invalid_config_is_refused_by_new() {
    let module = parse_idl("module m { struct S { octet a; }; }").unwrap();
    let config = DecoderConfig {
        padding_length: 5,
        ..Default::default()
    };
    match Decoder::new(config, module) {
        Err(e) => {
            assert!(matches!(e, DecoderError::InvalidConfig(_)));
            assert_eq!(
                e.to_display_string(),
                "invalid config: padding_length must be 1,2,4,8,16,32,64, got 5"
            );
        }
        Ok(_) => panic!("expected an error"),
    }
}

#[test]
fn length_field_length_is_checked_first() {
    let config = DecoderConfig {
        length_field_length: 0,
        padding_length: 0,
        ..Default::default()
    };
    match config.validate() {
        Err(DecoderError::InvalidConfig(msg)) => {
            assert_eq!(msg, "length_field_length must be 1, 2, or 4, got 0")
        }
        other => panic!("unexpected {:?}", other),
    }
}

#[test]
fn default_config_values() {
    let c = DecoderConfig::default();
    assert!(!c.is_little_endian);
    assert_eq!(c.length_field_length, 4);
    assert!(!c.enable_array_length_header);
    assert_eq!(c.padding_length, 1);
    assert_eq!(c.header_length, 0);
}

#[test]
fn error_display_texts() {
    assert_eq!(
        DecoderError::SchemaNotFound("x".into()).to_display_string(),
        "schema not found: x"
    );
    assert_eq!(
        DecoderError::InvalidData("y".into()).to_display_string(),
        "invalid data: y"
    );
    assert_eq!(
        DecoderError::UnsupportedType("z".into()).to_display_string(),
        "unsupported type: z"
    );
    assert_eq!(
        DecoderError::UnexpectedEndOfInput {
            expected: 4,
            got: 1
        }
        .to_display_string(),
        "unexpected end of input: expected 4 bytes, got 1"
    );
}

#[test]
fn bitfield_field_is_unsupported() {
    let mut dec = decoder("module m { struct S { bitfield<4> a; }; }");
    match dec.decode("S", &[1]) {
        Err(e) => {
            assert!(matches!(e, DecoderError::UnsupportedType(_)));
            assert_eq!(
                e.to_display_string(),
                "unsupported type: bitfield decoding not supported in struct fields"
            );
        }
        Ok(_) => panic!("expected an error"),
    }
}

#[test]
fn parse_error_display() {
    let e = parse_idl("module m { struct S { octet a; }; } extra").unwrap_err();
    assert_eq!(e.to_display_string(), "parse error: trailing input: 'extra'");
}

// ============================================================================
// Packets
// ============================================================================

const PACKET_IDL: &str = r#"
    module spi {
        struct frame {
            unsigned long id;
            unsigned long len;
            sequence<octet> payload;
        };
        struct packet {
            unsigned long long ts;
            unsigned short len;
            @format(dbc="spi/sim.json") sequence<frame> frames;
        };
    }
"#;

fn packet_bytes(frames: &[(u32, &[u8])]) -> Vec<u8> {
    let mut body = Vec::new();
    for (id, payload) in frames {
        body.extend_from_slice(&id.to_be_bytes());
        body.extend_from_slice(&(payload.len() as u32).to_be_bytes());
        body.extend_from_slice(&(payload.len() as u32).to_be_bytes());
        body.extend_from_slice(payload);
    }
    let mut data = Vec::new();
    data.extend_from_slice(&100u64.to_be_bytes());
    data.extend_from_slice(&[0, 0]);
    data.extend_from_slice(&(body.len() as u32).to_be_bytes());
    data.extend_from_slice(&body);
    data
}

#[test]
fn packet_frames_carry_the_format_annotation() {
    let mut dec = decoder(PACKET_IDL);
    let data = packet_bytes(&[(1264, &[1, 2, 3]), (7, &[])]);
    let packet = dec.decode_packet("spi.packet", &data).unwrap();
    assert_eq!(packet.ts, 100);
    assert_eq!(packet.frames.len(), 2);
    assert_eq!(packet.frames[0].can_id, 1264);
    assert_eq!(packet.frames[0].len, 3);
    assert_eq!(packet.frames[0].payload, vec![1, 2, 3]);
    assert_eq!(
        packet.frames[0].format_annotation,
        Some("spi/sim.json".to_string())
    );
    assert_eq!(packet.frames[1].can_id, 7);
    assert_eq!(packet.frames[1].payload, Vec::<u8>::new());
    assert!(packet
        .frames
        .iter()
        .all(|f| f.format_annotation == Some("spi/sim.json".to_string())));
}

#[test]
fn packet_and_struct_decoding_agree() {
    let mut dec = decoder(PACKET_IDL);
    let data = packet_bytes(&[(1, &[9])]);
    let packet = dec.decode_packet("packet", &data).unwrap();
    let fields = dec.decode("packet", &data).unwrap();
    assert_eq!(fields.get("ts"), Some(&Value::U64(packet.ts)));
    match fields.get("frames") {
        Some(Value::List(items)) => assert_eq!(items.len(), packet.frames.len()),
        other => panic!("unexpected {:?}", other),
    }
}

#[test]
fn packet_without_annotation() {
    let idl = "module m { struct f { unsigned long id; unsigned long len; sequence<octet> payload; }; struct p { unsigned long long ts; sequence<f> frames; }; }";
    let mut dec = decoder(idl);
    let mut data = Vec::new();
    data.extend_from_slice(&5u64.to_be_bytes());
    data.extend_from_slice(&[0, 0, 0, 0]);
    let packet = dec.decode_packet("p", &data).unwrap();
    assert_eq!(packet.ts, 5);
    assert!(packet.frames.is_empty());
}

#[test]
fn packet_missing_fields() {
    let mut dec = decoder("module m { struct p { unsigned short len; }; }");
    match dec.decode_packet("p", &[0, 1]) {
        Err(DecoderError::InvalidData(msg)) => {
            assert_eq!(msg, "packet missing 'ts' (unsigned long long) field")
        }
        other => panic!("unexpected {:?}", other),
    }
    let mut dec = decoder("module m { struct p { unsigned long long ts; }; }");
    match dec.decode_packet("p", &[0, 0, 0, 0, 0, 0, 0, 1]) {
        Err(DecoderError::InvalidData(msg)) => {
            assert_eq!(msg, "packet missing 'frames' (sequence) field")
        }
        other => panic!("unexpected {:?}", other),
    }
}

#[test]
fn packet_frame_of_wrong_shape() {
    let idl = "module m { struct f { unsigned short id; }; struct p { unsigned long long ts; sequence<f> frames; }; }";
    let mut dec = decoder(idl);
    let mut data = Vec::new();
    data.extend_from_slice(&5u64.to_be_bytes());
    data.extend_from_slice(&[0, 0, 0, 2, 0, 1]);
    match dec.decode_packet("p", &data) {
        Err(DecoderError::InvalidData(msg)) => assert_eq!(msg, "frame missing 'id' field"),
        other => panic!("unexpected {:?}", other),
    }
    let idl = "module m { struct p { unsigned long long ts; sequence<octet> frames; }; }";
    let mut dec = decoder(idl);
    let mut data = Vec::new();
    data.extend_from_slice(&5u64.to_be_bytes());
    data.extend_from_slice(&[0, 0, 0, 1, 7]);
    match dec.decode_packet("p", &data) {
        Err(DecoderError::InvalidData(msg)) => {
            assert_eq!(msg, "expected List for frames sequence")
        }
        other => panic!("unexpected {:?}", other),
    }
    let idl = "module m { struct p { unsigned long long ts; sequence<short> frames; }; }";
    let mut dec = decoder(idl);
    let mut data = Vec::new();
    data.extend_from_slice(&5u64.to_be_bytes());
    data.extend_from_slice(&[0, 0, 0, 2, 0, 7]);
    match dec.decode_packet("p", &data) {
        Err(DecoderError::InvalidData(msg)) => assert_eq!(msg, "expected struct for frame"),
        other => panic!("unexpected {:?}", other),
    }
}

#[test]
fn packet_last_timestamp_wins() {
    let idl = "module m { struct p { unsigned long long ts; unsigned long long ts2; sequence<octet> frames; }; }";
    let mut dec = decoder(idl);
    // frames is a sequence<octet>, which is not a list of frames
    let mut data = Vec::new();
    data.extend_from_slice(&1u64.to_be_bytes());
    data.extend_from_slice(&2u64.to_be_bytes());
    data.extend_from_slice(&[0, 0, 0, 0]);
    assert!(dec.decode_packet("p", &data).is_err());
    let idl = "module m { struct f { unsigned long id; unsigned long len; sequence<octet> payload; }; struct p { unsigned long long ts; unsigned long long ts2; sequence<f> frames; }; }";
    let mut dec = decoder(idl);
    let packet = dec.decode_packet("p", &data).unwrap();
    assert_eq!(packet.ts, 2);
}

// ============================================================================
// Whitespace and comments around the module
// ============================================================================

#[test]
fn leading_whitespace_and_comments_are_ignored() {
    let text = "module m { struct S { octet a; }; }";
    let plain = parse_idl(text).unwrap();
    let padded = parse_idl(&format!("  // header comment\n\t{}", text)).unwrap();
    assert_eq!(plain, padded);
}

#[test]
fn an_unterminated_comment_can_be_an_annotation_value() {
    // without a line feed after it, `//x` is no comment but a bare value
    let text = "module m { struct S { @a(k=//x) octet f; }; }";
    let m = parse_idl(text).unwrap();
    match &m.content[0] {
        ModuleContent::Struct(s) => {
            assert_eq!(s.fields[0].annotations[0].values.get("k"), Some(&"//x".to_string()))
        }
        _ => panic!("expected struct"),
    }
    // a line feed at the end turns it into a comment that runs to the end
    assert!(parse_idl(&format!("{}\n", text)).is_err());
}

// ============================================================================
// Grammar details
// ============================================================================

fn only_field_type(idl: &str) -> TypeRef {
    let module = parse_idl(idl).unwrap();
    match &module.content[0] {
        ModuleContent::Struct(s) => {
            assert_eq!(s.fields.len(), 1);
            s.fields[0].field_type.clone()
        }
        other => panic!("unexpected {:?}", other),
    }
}

#[test]
fn nested_array_suffixes_nest_innermost_first() {
    assert_eq!(
        only_field_type("module m { struct S { octet[10][5] a; }; }"),
        TypeRef::Array {
            inner: Box::new(TypeRef::Array {
                inner: Box::new(TypeRef::Octet),
                size: 10
            }),
            size: 5
        }
    );
}

#[test]
fn type_names_may_start_with_a_keyword() {
    assert_eq!(
        only_field_type("module m { struct S { shortName a; }; }"),
        TypeRef::TypeName {
            name: "shortName".to_string()
        }
    );
    assert_eq!(
        only_field_type("module m { struct S { octets a; }; }"),
        TypeRef::TypeName {
            name: "octets".to_string()
        }
    );
}

#[test]
fn trailing_input_is_reported_with_its_text() {
    let e = parse_idl("module m { } x").unwrap_err();
    assert_eq!(e.message, "trailing input: 'x'");
}

#[test]
fn annotation_values_compare_as_maps() {
    let module_a = parse_idl("module m { struct S { @k(a=\"1\", b=\"2\") octet f; }; }").unwrap();
    let module_b = parse_idl("module m { struct S { @k(b=\"2\", a=\"1\") octet f; }; }").unwrap();
    let module_c = parse_idl("module m { struct S { @k(b=\"3\", a=\"1\") octet f; }; }").unwrap();
    let values = |m: &idl_parser_rs::ast::Module| match &m.content[0] {
        ModuleContent::Struct(s) => s.fields[0].annotations[0].values.clone(),
        other => panic!("unexpected {:?}", other),
    };
    assert!(values(&module_a) == values(&module_b));
    assert!(values(&module_a) != values(&module_c));
    assert_eq!(module_a, module_b);
}

// ============================================================================
// Error messages and laws
// ============================================================================

#[test]
fn multi_digit_counts_in_messages() {
    assert_eq!(
        DecoderError::UnexpectedEndOfInput {
            expected: 1234,
            got: 0
        }
        .to_display_string(),
        "unexpected end of input: expected 1234 bytes, got 0"
    );
    let mut dec = decoder("module m { struct S { octet[12] a; }; }");
    match dec.decode("S", &[1, 2, 3, 4, 5, 6, 7, 8, 9, 10, 11]) {
        Err(DecoderError::InvalidData(msg)) => assert_eq!(
            msg,
            "array element 11: unexpected end of input: expected 1 bytes, got 0"
        ),
        other => panic!("unexpected {:?}", other),
    }
}

#[test]
fn frame_with_signed_id_fails_the_packet() {
    let idl = "module m { struct F { long id; unsigned long len; sequence<octet> payload; }; struct P { unsigned long long ts; sequence<F> frames; }; }";
    let mut dec = decoder(idl);
    let data = [0, 0, 0, 0, 0, 0, 0, 1, 0, 0, 0, 12, 0, 0, 0, 5, 0, 0, 0, 0, 0, 0, 0, 0];
    match dec.decode_packet("P", &data) {
        Err(DecoderError::InvalidData(msg)) => assert_eq!(msg, "frame missing 'id' field"),
        other => panic!("unexpected {:?}", other),
    }
    let mut dec = decoder("module m { struct F { unsigned long id; }; struct P { sequence<F> frames; }; }");
    match dec.decode_packet("P", &[0, 0, 0, 0]) {
        Err(DecoderError::InvalidData(msg)) => {
            assert_eq!(msg, "packet missing 'ts' (unsigned long long) field")
        }
        other => panic!("unexpected {:?}", other),
    }
}

#[test]
fn format_comes_from_the_first_sequence_field_only() {
    let idl = r#"module m {
        struct f { unsigned long id; unsigned long len; sequence<octet> payload; };
        struct p { unsigned long long ts; sequence<f> early; @format(dbc="x.json") sequence<f> frames; };
    }"#;
    let mut dec = decoder(idl);
    let mut data = Vec::new();
    data.extend_from_slice(&9u64.to_be_bytes());
    data.extend_from_slice(&[0, 0, 0, 0]);
    data.extend_from_slice(&[0, 0, 0, 12, 0, 0, 0, 3, 0, 0, 0, 0, 0, 0, 0, 0]);
    let packet = dec.decode_packet("p", &data).unwrap();
    assert_eq!(packet.ts, 9);
    assert_eq!(packet.frames.len(), 1);
    assert_eq!(packet.frames[0].can_id, 3);
    assert_eq!(packet.frames[0].format_annotation, None);
}

#[test]
fn packet_frames_match_the_decoded_struct() {
    let mut dec = decoder(PACKET_IDL);
    let data = packet_bytes(&[(1, &[9]), (300, &[4, 5])]);
    let packet = dec.decode_packet("spi.packet", &data).unwrap();
    let fields = dec.decode("spi.packet", &data).unwrap();
    match fields.get("frames") {
        Some(Value::List(items)) => {
            assert_eq!(items.len(), 2);
            for (item, frame) in items.iter().zip(packet.frames.iter()) {
                match item {
                    Value::Struct(f) => {
                        assert_eq!(f.get("id"), Some(&Value::U32(frame.can_id)));
                        assert_eq!(f.get("len"), Some(&Value::U32(frame.len)));
                        assert_eq!(f.get("payload"), Some(&Value::Bytes(frame.payload.clone())));
                    }
                    other => panic!("unexpected {:?}", other),
                }
            }
        }
        other => panic!("unexpected {:?}", other),
    }
}

#[test]
fn leading_root_segment_is_optional() {
    let idl = "module a { struct s { octet x; }; module b { struct t { octet y; }; }; }";
    let mut dec = decoder(idl);
    assert_eq!(dec.decode("a.s", &[1]).unwrap(), dec.decode("s", &[1]).unwrap());
    assert_eq!(dec.decode("a.b.t", &[2]).unwrap(), dec.decode("b.t", &[2]).unwrap());
    match (dec.decode("a.zz", &[2]), dec.decode("zz", &[2])) {
        (Err(DecoderError::SchemaNotFound(x)), Err(DecoderError::SchemaNotFound(y))) => {
            assert_eq!(x, y);
            assert_eq!(x, "struct 'zz' not found in module 'a'");
        }
        other => panic!("unexpected {:?}", other),
    }
}

#[test]
fn utf16_text_round_trips() {
    let text = "h\u{e9}llo \u{1F600}";
    for big_endian in [true, false] {
        let mut bytes: Vec<u8> = if big_endian { vec![0xFE, 0xFF] } else { vec![0xFF, 0xFE] };
        for u in text.encode_utf16() {
            let b = if big_endian { u.to_be_bytes() } else { u.to_le_bytes() };
            bytes.extend_from_slice(&b);
        }
        bytes.extend_from_slice(&[0, 0]);
        let mut data = (bytes.len() as u32).to_be_bytes().to_vec();
        data.extend_from_slice(&bytes);
        let mut dec = decoder("module m { struct S { string s; }; }");
        let fields = dec.decode("S", &data).unwrap();
        assert_eq!(fields.get("s"), Some(&Value::Str(text.to_string())));
    }
}

#[test]
fn padding_twice_skips_nothing_more() {
    // after the dynamic string the input is aligned to 4; the second string
    // starts right there, with no further padding
    let config = DecoderConfig {
        padding_length: 4,
        length_field_length: 1,
        ..Default::default()
    };
    let mut dec = decoder_with("module m { struct S { string a; string b; }; }", config);
    let data = [4, 0xEF, 0xBB, 0xBF, 0, 0, 0, 0, 4, 0xEF, 0xBB, 0xBF, 0];
    let fields = dec.decode("S", &data).unwrap();
    assert_eq!(fields.get("a"), Some(&Value::Str(String::new())));
    assert_eq!(fields.get("b"), Some(&Value::Str(String::new())));
}

#[test]
fn built_decoder_never_reports_invalid_config() {
    let mut dec = decoder("module m { struct S { sequence<octet> p; string s; }; }");
    for data in [&[][..], &[0][..], &[0, 0, 0, 9][..], &[0, 0, 0, 0, 0, 0, 0, 5, 1][..]] {
        match dec.decode("S", data) {
            Err(DecoderError::InvalidConfig(_)) => panic!("invalid config after new"),
            _ => {}
        }
        match dec.decode_packet("S", data) {
            Err(DecoderError::InvalidConfig(_)) => panic!("invalid config after new"),
            _ => {}
        }
    }
}

#[test]
fn field_maps_compare_as_maps() {
    let mut a = FieldMap::new();
    a.insert("x".to_string(), Value::U8(1));
    a.insert("y".to_string(), Value::Str("s".to_string()));
    let mut b = FieldMap::new();
    b.insert("y".to_string(), Value::Str("s".to_string()));
    b.insert("x".to_string(), Value::U8(1));
    assert_eq!(a, b);
    let mut c = FieldMap::new();
    c.insert("x".to_string(), Value::U8(2));
    c.insert("y".to_string(), Value::Str("s".to_string()));
    assert_ne!(a, c);
    let mut d = FieldMap::new();
    d.insert("x".to_string(), Value::U8(1));
    assert_ne!(a, d);
    assert_ne!(d, a);
    let nested_a = Value::List(vec![Value::Struct(a), Value::Bytes(vec![1, 2])]);
    let nested_b = Value::List(vec![Value::Struct(b), Value::Bytes(vec![1, 2])]);
    assert_eq!(nested_a, nested_b);
    assert_ne!(Value::U16(1), Value::I16(1));
}
