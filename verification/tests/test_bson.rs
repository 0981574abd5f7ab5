//! Binary format scenarios: byte-level interchange compatibility, round
//! trips, and alignment handling.

use toctoc::bson;
use toctoc::error::ErrorKind;
use toctoc::value::{Number, Value};

#[test]
fn test_bson_struct() {
    let v = Value::Object(vec![
        ("string".to_string(), Value::Str("Hi!".to_owned())),
        ("b".to_string(), Value::Bool(false)),
        ("int".to_string(), Value::Number(Number::U64(5))),
    ]);

    let bin = bson::to_bin(&v);

    // Exact wire bytes.  The string, bool and document elements carry the
    // standard interchange tags; the integer travels with the u64 tag
    // 0x11, where an encoder with a 32-bit number representation would
    // write tag 0x10 with a four-byte payload.
    let mut expected: Vec<u8> = Vec::new();
    expected.extend_from_slice(&45u32.to_le_bytes());
    expected.push(0x03);
    expected.push(0x00);
    expected.extend_from_slice(&38u32.to_le_bytes());
    expected.push(0x02);
    expected.extend_from_slice(b"string\x00");
    expected.extend_from_slice(&4u32.to_le_bytes());
    expected.extend_from_slice(b"Hi!\x00");
    expected.push(0x08);
    expected.extend_from_slice(b"b\x00");
    expected.push(0x00);
    expected.push(0x11);
    expected.extend_from_slice(b"int\x00");
    expected.extend_from_slice(&5u64.to_le_bytes());
    expected.push(0x00);
    expected.push(0x00);
    assert_eq!(bin, expected);

    let v2 = bson::from_bin(&bin, 4).unwrap();
    assert_eq!(v, v2);
}

#[test]
fn test_bson_primitive() {
    // A reference encoder writes `true` in a one-field document as
    // exactly these bytes.
    let bin = bson::to_bin(&Value::Bool(true));
    assert_eq!(bin, vec![0x08, 0x00, 0x00, 0x00, 0x08, 0x00, 0x01, 0x00]);
    let back = bson::from_bin(&bin, 4).unwrap();
    assert_eq!(back, Value::Bool(true));

    // A string payload: length includes its NUL terminator.
    let bin = bson::to_bin(&Value::Str("Hello World!".to_owned()));
    let mut expected = vec![0x18, 0x00, 0x00, 0x00, 0x02, 0x00, 0x0D, 0x00, 0x00, 0x00];
    expected.extend_from_slice(b"Hello World!\x00\x00");
    assert_eq!(bin, expected);
    let back = bson::from_bin(&bin, 4).unwrap();
    assert_eq!(back, Value::Str("Hello World!".to_owned()));
}

#[test]
fn bson_zero_copy() {
    // An alignment-tagged payload survives the round trip with its
    // alignment, and its offset within the buffer honours it.
    let payload: Vec<u8> = vec![0x55, 0xAA, 0x55, 0xAA, 0, 0, 0, 0, 0, 0, 0, 0, 0, 0, 0, 0];
    let v = Value::Binary { bytes: payload.clone(), align: 4 };
    let bin = bson::to_bin(&v);
    let v2 = bson::from_bin(&bin, 4).unwrap();
    assert_eq!(v, v2);
}

#[test]
fn bson_not_aligned_rejected() {
    // An aligned-binary element whose payload position breaks its
    // declared alignment must be rejected, never silently accepted.
    // Element payload starts at byte 7 (tag at 4, empty name, then the
    // three header words at 7..19); with offset 0 the data lands at 19,
    // which is not a multiple of 4.
    let mut doc: Vec<u8> = Vec::new();
    doc.extend_from_slice(&[0x00, 0x00, 0x00, 0x00]); // length, patched below
    doc.push(0x8F);
    doc.push(0x00);
    doc.extend_from_slice(&4u32.to_le_bytes()); // payload size
    doc.extend_from_slice(&4u32.to_le_bytes()); // alignment
    doc.extend_from_slice(&0u32.to_le_bytes()); // padding offset
    doc.extend_from_slice(&[1, 2, 3, 4]); // payload at offset 19
    doc.push(0x00);
    let total = doc.len() as u32;
    doc[0..4].copy_from_slice(&total.to_le_bytes());

    let err = bson::from_bin(&doc, 4).unwrap_err();
    assert_eq!(err.kind, ErrorKind::NotAligned);
}

#[test]
fn bson_lower_alignment_rank_rejected() {
    // A document declaring a higher alignment rank than its buffer
    // guarantees is rejected.
    let v = Value::Bool(true);
    let bin = bson::to_bin(&v);
    let mut doc: Vec<u8> = Vec::new();
    // Rebuild the root with a leading align field asking for 16.
    doc.extend_from_slice(&[0x00, 0x00, 0x00, 0x00]);
    doc.push(0x83); // u32 element
    doc.extend_from_slice(b"align\x00");
    doc.extend_from_slice(&16u32.to_le_bytes());
    doc.push(0x08);
    doc.push(0x00);
    doc.push(0x01);
    doc.push(0x00);
    let total = doc.len() as u32;
    doc[0..4].copy_from_slice(&total.to_le_bytes());

    let err = bson::from_bin(&doc, 4).unwrap_err();
    assert_eq!(err.kind, ErrorKind::LowerAlignmentRank);

    // The same document against a buffer that guarantees 16 decodes.
    let ok = bson::from_bin(&doc, 16).unwrap();
    assert_eq!(ok, Value::Bool(true));
    let _ = bin;
}

#[test]
fn bson_round_trip_nested() {
    let v = Value::Object(vec![
        (
            "items".to_string(),
            Value::Array(vec![
                Value::Number(Number::U64(1)),
                Value::Number(Number::I64(-7)),
                Value::Null,
                Value::Str("x".to_owned()),
            ]),
        ),
        ("ok".to_string(), Value::Bool(true)),
        (
            "inner".to_string(),
            Value::Object(vec![("empty".to_string(), Value::Array(vec![]))]),
        ),
    ]);
    let bin = bson::to_bin(&v);
    let v2 = bson::from_bin(&bin, 4).unwrap();
    assert_eq!(v, v2);
}

#[test]
fn bson_compact_numeric_tags_decode() {
    // The compact extension tags and the standard 32-bit tag are read
    // even though this encoder never writes them.
    fn root_with(tag: u8, payload: &[u8]) -> Vec<u8> {
        let mut doc: Vec<u8> = Vec::new();
        doc.extend_from_slice(&[0x00, 0x00, 0x00, 0x00]);
        doc.push(tag);
        doc.push(0x00);
        doc.extend_from_slice(payload);
        doc.push(0x00);
        let total = doc.len() as u32;
        doc[0..4].copy_from_slice(&total.to_le_bytes());
        doc
    }

    let v = bson::from_bin(&root_with(0x81, &[200]), 4).unwrap();
    assert_eq!(v, Value::Number(Number::U64(200)));

    let v = bson::from_bin(&root_with(0x82, &[0xFB]), 4).unwrap();
    assert_eq!(v, Value::Number(Number::I64(-5)));

    let v = bson::from_bin(&root_with(0x83, &0xDEADBEEFu32.to_le_bytes()), 4).unwrap();
    assert_eq!(v, Value::Number(Number::U64(0xDEADBEEF)));

    let v = bson::from_bin(&root_with(0x10, &(-7i32).to_le_bytes()), 4).unwrap();
    assert_eq!(v, Value::Number(Number::I64(-7)));

    let v = bson::from_bin(&root_with(0x12, &(-9i64).to_le_bytes()), 4).unwrap();
    assert_eq!(v, Value::Number(Number::I64(-9)));

    // An unknown tag is an error.
    assert!(bson::from_bin(&root_with(0x7E, &[0]), 4).is_err());
}

#[test]
fn bson_non_ascii_field_name_rejected() {
    // tag 0x08, name bytes { 0xC3, 0xA9 } (not ASCII), then the payload.
    let mut doc: Vec<u8> = Vec::new();
    doc.extend_from_slice(&[0x0B, 0x00, 0x00, 0x00]);
    doc.push(0x08);
    doc.extend_from_slice(&[0xC3, 0xA9, 0x00]);
    doc.push(0x01);
    doc.push(0x00);
    assert!(bson::from_bin(&doc, 4).is_err());
}

#[test]
fn bson_invalid_utf8_rejected() {
    // A string element whose bytes are not UTF-8.
    let mut doc: Vec<u8> = Vec::new();
    doc.extend_from_slice(&[0x00, 0x00, 0x00, 0x00]);
    doc.push(0x02);
    doc.push(0x00);
    doc.extend_from_slice(&3u32.to_le_bytes());
    doc.extend_from_slice(&[0xFF, 0xFE, 0x00]);
    doc.push(0x00);
    let total = doc.len() as u32;
    doc[0..4].copy_from_slice(&total.to_le_bytes());
    let err = bson::from_bin(&doc, 4).unwrap_err();
    assert_eq!(err.kind, ErrorKind::InvalidUtf8);
}
