//! Decoding a small message: string fields come out exactly as written.

use toctoc::de::{as_str, require_field};
use toctoc::json;
use toctoc::value::Value;

#[derive(PartialEq, Clone, Debug)]
struct Message {
    sender: String,
    text: String,
}

#[test]
fn test_zerocopy() {
    let j = r#"{ "sender": "you", "text": "hi!" }"#;
    let v = json::from_str(j).unwrap();
    let fields = match &v {
        Value::Object(fs) => fs,
        _ => panic!("expected map"),
    };
    let actual = Message {
        sender: as_str(require_field(fields, "sender").unwrap()).unwrap().to_string(),
        text: as_str(require_field(fields, "text").unwrap()).unwrap().to_string(),
    };
    let expected = Message {
        sender: "you".to_string(),
        text: "hi!".to_string(),
    };
    assert_eq!(actual, expected);
}
