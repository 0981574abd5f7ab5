//! Depth safety: both driving loops carry their own stacks, so a value a
//! hundred thousand levels deep neither crashes the encoder nor the
//! parser, and the text round-trips byte for byte.

use toctoc::json;
use toctoc::value::drop_safely;

#[test]
fn test_round_trip_deeply_nested() {
    let mut j = String::new();
    for _ in 0..100_000 {
        j.push_str("{\"x\":[");
    }
    for _ in 0..100_000 {
        j.push_str("]}");
    }

    let value = json::from_str(&j).unwrap();
    let j2 = json::to_string(&value);
    assert_eq!(j, j2);
    drop_safely(value);
}
