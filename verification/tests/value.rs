//! The generic document tree against the text codec.

use toctoc::json;
use toctoc::value::{Number, Value};

#[test]
fn many_cases() {
    let cases: Vec<(Value, &str)> = vec![
        (Value::Null, "null"),
        (Value::Number(Number::I64(-1)), "-1"),
        (Value::Bool(true), "true"),
        (Value::Bool(false), "false"),
        (
            Value::Array(vec![
                Value::Number(Number::U64(1)),
                Value::Number(Number::U64(2)),
            ]),
            "[1,2]",
        ),
        (
            Value::Object(vec![("key".to_string(), Value::Number(Number::U64(2)))]),
            r#"{"key":2}"#,
        ),
    ];

    for (val, text) in &cases {
        let actual: Value = json::from_str(text).unwrap();
        assert_eq!(val, &actual);
    }

    for (val, text) in &cases {
        let actual = json::to_string(val);
        assert_eq!(*text, actual);
    }
}
