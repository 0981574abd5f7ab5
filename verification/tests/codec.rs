//! Cross-cutting codec scenarios: tolerance, required fields, numeric
//! ranges, escapes, and the error reasons.

use toctoc::de::{as_str, as_u32, as_u8};
use toctoc::error::{Error, ErrorKind};
use toctoc::json;
use toctoc::value::{Number, Value};

#[test]
fn unknown_fields_are_tolerated() {
    // Extra keys never disturb the keys a schema asks for.
    let j = r#"{"x": 1, "extra": [1, {"deep": true}], "y": 2, "also": null}"#;
    let v = json::from_str(j).unwrap();
    let fields = match &v {
        Value::Object(fs) => fs,
        _ => panic!("expected map"),
    };
    let x = toctoc::de::require_field(fields, "x").unwrap();
    let y = toctoc::de::require_field(fields, "y").unwrap();
    assert_eq!(toctoc::de::as_u8(x).unwrap(), 1);
    assert_eq!(toctoc::de::as_u8(y).unwrap(), 2);
}

#[test]
fn missing_required_field_is_named() {
    let j = r#"{"code": 200}"#;
    let v = json::from_str(j).unwrap();
    let fields = match &v {
        Value::Object(fs) => fs,
        _ => panic!("expected map"),
    };
    let err = toctoc::de::require_field(fields, "message").unwrap_err();
    assert_eq!(err.kind, ErrorKind::MissingField);
    assert_eq!(err.what, "message");
    // A declared default applies instead.
    let message = match toctoc::de::opt_field(fields, "message") {
        Some(m) => as_str(m).unwrap().to_string(),
        None => String::new(),
    };
    assert_eq!(message, "");
}

#[test]
fn numeric_ranges() {
    let three_hundred = Value::Number(Number::U64(300));
    let err = as_u8(&three_hundred).unwrap_err();
    assert_eq!(err.kind, ErrorKind::OutOfRange);

    let minus_five = Value::Number(Number::I64(-5));
    let err = as_u32(&minus_five).unwrap_err();
    assert_eq!(err.kind, ErrorKind::OutOfRange);

    let two_hundred = Value::Number(Number::U64(200));
    assert_eq!(as_u8(&two_hundred).unwrap(), 200u8);
}

#[test]
fn duplicate_keys_last_write_wins() {
    let j = r#"{"k": 1, "k": 2}"#;
    let v = json::from_str(j).unwrap();
    let fields = match &v {
        Value::Object(fs) => fs,
        _ => panic!("expected map"),
    };
    let k = toctoc::de::require_field(fields, "k").unwrap();
    assert_eq!(toctoc::de::as_u8(k).unwrap(), 2);
}

#[test]
fn string_escapes_round_trip() {
    let s = "a\"b\\c/d\u{8}\t\n\u{c}\r\u{1} é\u{10348}";
    let v = Value::Str(s.to_string());
    let text = json::to_string(&v);
    let back = json::from_str(&text).unwrap();
    assert_eq!(back, v);

    // Escapes written by hand, including a surrogate pair.
    let v2 = json::from_str(r#""Aé𐍈\n""#).unwrap();
    assert_eq!(v2, Value::Str("A\u{e9}\u{10348}\n".to_string()));

    // A lone surrogate is rejected.
    assert!(json::from_str(r#""\ud800""#).is_err());
}

#[test]
fn number_edges() {
    let v = json::from_str("18446744073709551615").unwrap();
    assert_eq!(v, Value::Number(Number::U64(u64::MAX)));
    assert!(json::from_str("18446744073709551616").is_err());

    let v = json::from_str("-9223372036854775808").unwrap();
    assert_eq!(v, Value::Number(Number::I64(i64::MIN)));
    assert!(json::from_str("-9223372036854775809").is_err());

    // Leading zeros and floating forms are rejected.
    assert!(json::from_str("01").is_err());
    assert!(json::from_str("1.5").is_err());
    assert!(json::from_str("1e3").is_err());
}

#[test]
fn json_syntax_errors() {
    assert!(json::from_str("").is_err());
    assert!(json::from_str("[1,]").is_err());
    assert!(json::from_str("{\"a\":}").is_err());
    assert!(json::from_str("tru").is_err());
    assert!(json::from_str("null x").is_err());
    assert!(json::from_str("\"unterminated").is_err());
}

#[test]
fn whitespace_is_insignificant() {
    let v = json::from_str(" \t\r\n[ 1 , 2 ]\n ").unwrap();
    assert_eq!(
        v,
        Value::Array(vec![
            Value::Number(Number::U64(1)),
            Value::Number(Number::U64(2)),
        ])
    );
}

#[test]
fn json_round_trip_nested() {
    let v = Value::Object(vec![
        (
            "items".to_string(),
            Value::Array(vec![
                Value::Number(Number::U64(1)),
                Value::Number(Number::I64(-7)),
                Value::Null,
                Value::Str("x".to_owned()),
                Value::Object(vec![]),
                Value::Array(vec![]),
            ]),
        ),
        ("ok".to_string(), Value::Bool(true)),
    ]);
    let text = json::to_string(&v);
    let back = json::from_str(&text).unwrap();
    assert_eq!(v, back);
}

#[test]
fn error_reasons_are_distinguishable() {
    assert_eq!(Error::unknown().kind, ErrorKind::Unknown);
    assert_eq!(Error::generic("g".to_string()).kind, ErrorKind::Generic);
    assert_eq!(Error::not_expected("seq").kind, ErrorKind::NotExpected);
    assert_eq!(Error::expecting("value").kind, ErrorKind::Expecting);
    let e = Error::missing_field("f");
    assert_eq!(e.kind, ErrorKind::MissingField);
    assert_eq!(e.what, "f");
    let e = Error::missing_element(3);
    assert_eq!(e.kind, ErrorKind::MissingElement);
    assert_eq!(e.needed, 3);
    assert_eq!(Error::unknown_variant("V").kind, ErrorKind::UnknownVariant);
    assert_eq!(Error::invalid_utf8().kind, ErrorKind::InvalidUtf8);
    let e = Error::not_enough_offset(4, 2);
    assert_eq!(e.kind, ErrorKind::NotEnoughOffset);
    assert_eq!((e.needed, e.got), (4, 2));
    let e = Error::lower_alignment_rank(16, 4);
    assert_eq!(e.kind, ErrorKind::LowerAlignmentRank);
    assert_eq!((e.needed, e.got), (16, 4));
    let e = Error::not_aligned(8, 3);
    assert_eq!(e.kind, ErrorKind::NotAligned);
    assert_eq!((e.needed, e.got), (8, 3));
    assert_eq!(Error::invalid_map_key("k".to_string()).kind, ErrorKind::InvalidMapKey);
    assert_eq!(Error::out_of_range("u8").kind, ErrorKind::OutOfRange);
    let e = Error::expecting("end").append_line_and_column(3, 7);
    assert_eq!((e.line, e.column), (3, 7));
}
