//! Binary payloads in the text format: the sigil-and-hex form, with the
//! dash run carrying the alignment.

use toctoc::json;
use toctoc::value::Value;

fn bin(bytes: Vec<u8>, align: usize, text: &str) {
    let v = Value::Binary { bytes: bytes.clone(), align };
    let actual = json::to_string(&v);
    assert_eq!(actual, text);

    let back = json::from_str(text).unwrap();
    match back {
        Value::Binary { bytes: b, align: a } => {
            assert_eq!(b, bytes);
            assert_eq!(a, align);
        },
        other => panic!("expected binary, got {:?}", other),
    }
}

#[test]
fn test_binhint() {
    bin(vec![2u8, 0, 3, 4], 1, "\"#02000304\"");
    // A four-byte word stored little-endian, aligned to four.
    bin(vec![0x04, 0x03, 0x00, 0x02], 4, "\"#----04030002\"");
}
