use annohex::codec::{ByteOrder, DataType};
use annohex::color::ColorScheme;
use annohex::render::{Annotation, Hexdump};
use annohex::typespec::{build_annotations_from_types, TypeSpec};

#[test]
fn test_invalid_byte_order_message() {
    let err = ByteOrder::from_str("middle").unwrap_err();
    let msg = err.message();
    assert!(msg.contains("Invalid byte order"));
    assert!(msg.contains("middle"));
}

#[test]
fn test_unknown_type_message() {
    let err = DataType::from_str("u128").unwrap_err();
    let msg = err.message();
    assert_eq!(msg, "Unknown type: u128");
}

#[test]
fn test_unknown_type_with_field_message() {
    let data = vec![0x01];
    let specs = vec!["word:x".to_string()];
    let err = build_annotations_from_types(&specs, ByteOrder::Little, &data).unwrap_err();
    assert_eq!(err.message(), "Unknown type: word");
}

#[test]
fn test_not_enough_bytes_message() {
    let err = DataType::U64
        .decode(&[1, 2, 3], ByteOrder::Little)
        .unwrap_err();
    assert_eq!(err.message(), "Not enough bytes: need 8, got 3");
}

#[test]
fn test_skip_past_end_message_details() {
    let data = vec![0x01, 0x02, 0x03];
    let specs = vec!["u8".to_string(), ".32".to_string()];
    let err = build_annotations_from_types(&specs, ByteOrder::Little, &data).unwrap_err();
    let msg = err.message();
    assert!(msg.contains("skip 4 bytes"));
    assert!(msg.contains("offset 1"));
    assert!(msg.contains("3 bytes"));
}

#[test]
fn test_scalar_past_end_message_details() {
    let data = vec![0x01, 0x02, 0x03];
    let specs = vec!["u16:hdr".to_string(), "u32:body".to_string()];
    let (annotations, error) =
        build_annotations_from_types(&specs, ByteOrder::Little, &data).unwrap();
    assert_eq!(annotations.len(), 2);
    let msg = error.unwrap().message();
    assert!(msg.contains("Not enough data"));
    assert!(msg.contains("body"));
    assert!(msg.contains("offset 2"));
    assert!(msg.contains("needs 4 bytes"));
    assert!(msg.contains("only 1 available"));
}

#[test]
fn test_parse_skip_token() {
    let spec = TypeSpec::from_str(".24").unwrap();
    assert!(matches!(spec, TypeSpec::Skip { bits: 24 }));
}

#[test]
fn test_parse_scalar_token_display_name() {
    let spec = TypeSpec::from_str("u16:apid").unwrap();
    assert_eq!(spec.display_name(), "apid");
    let spec = TypeSpec::from_str("U16").unwrap();
    assert_eq!(spec.display_name(), "u16");
}

#[test]
fn test_decode_u64_extremes() {
    let all_ff = [0xFFu8; 8];
    assert_eq!(
        DataType::U64.decode(&all_ff, ByteOrder::Little).unwrap(),
        "18446744073709551615"
    );
    assert_eq!(
        DataType::I64.decode(&all_ff, ByteOrder::Big).unwrap(),
        "-1"
    );
    let min_i64 = [0x00, 0x00, 0x00, 0x00, 0x00, 0x00, 0x00, 0x80];
    assert_eq!(
        DataType::I64.decode(&min_i64, ByteOrder::Little).unwrap(),
        "-9223372036854775808"
    );
    let zero = [0u8; 8];
    assert_eq!(DataType::U64.decode(&zero, ByteOrder::Big).unwrap(), "0");
}

#[test]
fn test_decode_matches_reference_formatting_f32() {
    let cases: Vec<f32> = vec![
        0.0,
        -0.0,
        1.0,
        -1.5,
        3.14159,
        0.0000001,
        123456.78,
        f32::MAX,
        f32::MIN_POSITIVE,
        1.0e-45, // smallest subnormal
        f32::NAN,
        f32::INFINITY,
        f32::NEG_INFINITY,
    ];
    for v in cases {
        let bytes = v.to_le_bytes();
        let got = DataType::F32.decode(&bytes, ByteOrder::Little).unwrap();
        let expected = format!("{:.6}", v);
        assert_eq!(got, expected, "for value {:?}", v);

        let bytes_be = v.to_be_bytes();
        let got_be = DataType::F32.decode(&bytes_be, ByteOrder::Big).unwrap();
        assert_eq!(got_be, expected, "big-endian, for value {:?}", v);
    }
}

#[test]
fn test_decode_matches_reference_formatting_f64() {
    let cases: Vec<f64> = vec![
        0.0,
        -0.0,
        2.5,
        -3.0000005,
        1.0e300,
        -7.25e-12,
        f64::MAX,
        f64::MIN_POSITIVE,
        5.0e-324, // smallest subnormal
        f64::NAN,
        f64::INFINITY,
        f64::NEG_INFINITY,
    ];
    for v in cases {
        let bytes = v.to_le_bytes();
        let got = DataType::F64.decode(&bytes, ByteOrder::Little).unwrap();
        let expected = format!("{:.6}", v);
        assert_eq!(got, expected, "for value {:?}", v);
    }
}

#[test]
fn test_f32_bit_patterns_match_reference() {
    // Sweep the whole 32-bit encoding space in coarse steps and hold the
    // decoder to Rust's own fixed-point formatting.
    let mut bits: u32 = 0;
    loop {
        let v = f32::from_bits(bits);
        let got = DataType::F32
            .decode(&bits.to_le_bytes(), ByteOrder::Little)
            .unwrap();
        let expected = format!("{:.6}", v);
        assert_eq!(got, expected, "for bit pattern {:#010x}", bits);
        match bits.checked_add(40_507) {
            Some(next) => bits = next,
            None => break,
        }
    }
}

#[test]
fn test_f64_bit_patterns_match_reference() {
    // Cover every exponent field with a few mantissa and sign patterns.
    for exp in 0..=2047u64 {
        for frac in [0u64, 1, 0x000F_FFFF_FFFF_FFFF, 0x0008_0000_0000_0001] {
            for sign in [0u64, 1] {
                let bits = (sign << 63) | (exp << 52) | frac;
                let v = f64::from_bits(bits);
                let got = DataType::F64
                    .decode(&bits.to_le_bytes(), ByteOrder::Little)
                    .unwrap();
                let expected = format!("{:.6}", v);
                assert_eq!(got, expected, "for bit pattern {:#018x}", bits);
            }
        }
    }
}

#[test]
fn test_integer_decode_matches_reference() {
    // Hold the integer decoders to Rust's own conversions over a byte sweep.
    let mut x: u64 = 0x0123_4567_89AB_CDEF;
    for _ in 0..2000 {
        x = x.wrapping_mul(6364136223846793005).wrapping_add(1442695040888963407);
        let b = x.to_le_bytes();
        assert_eq!(
            DataType::U64.decode(&b, ByteOrder::Little).unwrap(),
            format!("{}", u64::from_le_bytes(b))
        );
        assert_eq!(
            DataType::I64.decode(&b, ByteOrder::Big).unwrap(),
            format!("{}", i64::from_be_bytes(b))
        );
        assert_eq!(
            DataType::U32.decode(&b[..4], ByteOrder::Big).unwrap(),
            format!("{}", u32::from_be_bytes([b[0], b[1], b[2], b[3]]))
        );
        assert_eq!(
            DataType::I16.decode(&b[..2], ByteOrder::Little).unwrap(),
            format!("{}", i16::from_le_bytes([b[0], b[1]]))
        );
        assert_eq!(
            DataType::I8.decode(&b[..1], ByteOrder::Little).unwrap(),
            format!("{}", b[0] as i8)
        );
    }
}

#[test]
fn test_decode_float_alias_parsing() {
    assert_eq!(DataType::from_str("FLOAT").unwrap(), DataType::F32);
    assert_eq!(DataType::from_str("Double").unwrap(), DataType::F64);
}

#[test]
fn test_error_style_takes_precedence() {
    // A byte covered by both a normal and an error annotation is styled
    // as an error when colors are on.
    let data = vec![0xAB];
    let mut hexdump = Hexdump::with_colors(ColorScheme::new(true));
    hexdump.add_annotation(Annotation::new(0, 1, "ok".to_string()));
    hexdump.add_annotation(Annotation::error(0, 1, "bad".to_string()));
    let out = hexdump.dump(&data);
    // Red (error) styling around the byte, not blue.
    assert!(out.contains("\x1b[31mab\x1b[0m"));
    assert!(!out.contains("\x1b[34mab\x1b[0m"));
}

#[test]
fn test_color_scheme_transforms() {
    let on = ColorScheme::new(true);
    assert_eq!(on.addr("00000000"), "\x1b[32m00000000\x1b[0m");
    assert_eq!(on.annotation("ab"), "\x1b[34mab\x1b[0m");
    assert_eq!(on.error("ab"), "\x1b[31mab\x1b[0m");
    // A label splits at the first ": ": name styled purple, value blue.
    assert_eq!(
        on.label("apid: 4660"),
        "\x1b[35mapid\x1b[0m: \x1b[34m4660\x1b[0m"
    );
    // A label with no ": " is styled blue as a whole.
    assert_eq!(on.label("plain"), "\x1b[34mplain\x1b[0m");

    let off = ColorScheme::new(false);
    assert_eq!(off.addr("00000000"), "00000000");
    assert_eq!(off.label("apid: 4660"), "apid: 4660");
}

#[test]
fn test_is_byte_annotated() {
    let mut hexdump = Hexdump::new();
    hexdump.add_annotation(Annotation::new(2, 3, "mid".to_string()));
    assert!(!hexdump.is_byte_annotated(1));
    assert!(hexdump.is_byte_annotated(2));
    assert!(hexdump.is_byte_annotated(4));
    assert!(!hexdump.is_byte_annotated(5));
}

#[test]
fn test_empty_dump_exact_text() {
    let hexdump = Hexdump::new();
    let out = hexdump.dump(&Vec::new());
    assert_eq!(out, "00000000\n");
}

#[test]
fn test_hex_line_exact_text() {
    let hexdump = Hexdump::new();
    let out = hexdump.dump(&vec![0x00, 0xFF]);
    // 8-digit address, two spaces, "00 " and "ff ", 14 blank cells of
    // three columns, and the extra gap column after position 7.
    let expected = format!("00000000  00 ff {}\n00000002\n", " ".repeat(43));
    assert_eq!(out, expected);
}

#[test]
fn test_byte_order_default_is_little() {
    assert_eq!(ByteOrder::default(), ByteOrder::Little);
}

#[test]
fn test_skip_huge_bit_count_is_syntax_error() {
    let data = vec![0x01];
    let specs = vec![".99999999999999999999999999".to_string()];
    let err = build_annotations_from_types(&specs, ByteOrder::Little, &data).unwrap_err();
    assert!(err.message().contains("Invalid skip syntax"));
}

#[test]
fn test_empty_token_is_unknown_type() {
    let data = vec![0x01];
    let specs = vec!["".to_string()];
    let err = build_annotations_from_types(&specs, ByteOrder::Little, &data).unwrap_err();
    assert!(err.message().contains("Unknown type"));
}
