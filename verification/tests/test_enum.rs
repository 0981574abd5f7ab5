//! The enum-shapes scenario: struct, tuple, newtype and unit variants.

use toctoc::json;
use toctoc::value::{Number, Value};

#[derive(Debug, PartialEq)]
enum E {
    W { a: i32, b: i32 },
    X(i32, i32),
    Y(i32),
    Z,
}

fn num(n: i32) -> Value {
    if n < 0 {
        Value::Number(Number::I64(n as i64))
    } else {
        Value::Number(Number::U64(n as u64))
    }
}

/// Encodes `E` the way a generated encoder would: a unit variant as its
/// name, the others as a single-key map from the variant name to its
/// anonymous contents.
fn e_to_value(e: &E) -> Value {
    match e {
        E::W { a, b } => Value::Object(vec![(
            "W".to_string(),
            Value::Object(vec![("a".to_string(), num(*a)), ("b".to_string(), num(*b))]),
        )]),
        E::X(a, b) => Value::Object(vec![("X".to_string(), Value::Array(vec![num(*a), num(*b)]))]),
        E::Y(a) => Value::Object(vec![("Y".to_string(), num(*a))]),
        E::Z => Value::Str("Z".to_string()),
    }
}

fn e_from_value(v: &Value) -> E {
    match v {
        Value::Str(s) => match s.as_str() {
            "Z" => E::Z,
            other => panic!("unknown variant `{}`", other),
        },
        Value::Object(fs) => {
            assert_eq!(fs.len(), 1);
            let (name, inner) = &fs[0];
            match name.as_str() {
                "W" => {
                    let inf = match inner {
                        Value::Object(fs) => fs,
                        _ => panic!("expected map"),
                    };
                    let a = toctoc::de::as_i32(toctoc::de::require_field(inf, "a").unwrap())
                        .unwrap();
                    let b = toctoc::de::as_i32(toctoc::de::require_field(inf, "b").unwrap())
                        .unwrap();
                    E::W { a, b }
                },
                "X" => match inner {
                    Value::Array(es) => E::X(
                        toctoc::de::as_i32(&es[0]).unwrap(),
                        toctoc::de::as_i32(&es[1]).unwrap(),
                    ),
                    _ => panic!("expected seq"),
                },
                "Y" => E::Y(toctoc::de::as_i32(inner).unwrap()),
                other => panic!("unknown variant `{}`", other),
            }
        },
        _ => panic!("unexpected shape"),
    }
}

#[test]
fn test_enum() {
    let cases: Vec<(E, &str)> = vec![
        (E::W { a: 0, b: 0 }, r#"{"W":{"a":0,"b":0}}"#),
        (E::X(0, 0), r#"{"X":[0,0]}"#),
        (E::Y(0), r#"{"Y":0}"#),
        (E::Z, r#""Z""#),
    ];

    for (val, expected) in &cases {
        let actual = json::to_string(&e_to_value(val));
        assert_eq!(actual, *expected);
    }

    for (expected, text) in &cases {
        let v = json::from_str(text).unwrap();
        let actual = e_from_value(&v);
        assert_eq!(actual, *expected);
    }
}
