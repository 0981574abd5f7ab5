//! The struct scenario: nested struct with a rename and optional fields.

use toctoc::de::{as_str, get_field, opt_field, require_field};
use toctoc::json;
use toctoc::value::Value;

#[derive(PartialEq, Debug)]
enum Tag {
    A,
    B,
}

#[derive(PartialEq, Debug)]
struct Example {
    x: String,
    t1: Tag,
    t2: Tag,
    n: Nested,
}

#[derive(PartialEq, Debug)]
struct Nested {
    y: Option<Vec<String>>,
    z: Option<String>,
}

/// Decodes a `Tag` the way a generated decoder would: a unit variant is a
/// string holding the variant's name or its rename.
fn tag_from(v: &Value) -> Tag {
    match as_str(v).unwrap() {
        "A" => Tag::A,
        "renamedB" => Tag::B,
        other => panic!("unknown variant `{}`", other),
    }
}

fn example_from(v: &Value) -> Example {
    let fields = match v {
        Value::Object(fs) => fs,
        _ => panic!("expected map"),
    };
    let x = as_str(require_field(fields, "x").unwrap()).unwrap().to_string();
    let t1 = tag_from(require_field(fields, "t1").unwrap());
    let t2 = tag_from(require_field(fields, "t2").unwrap());
    let nf = match require_field(fields, "n").unwrap() {
        Value::Object(fs) => fs,
        _ => panic!("expected map"),
    };
    let y = opt_field(nf, "y").map(|arr| match arr {
        Value::Array(es) => es.iter().map(|e| as_str(e).unwrap().to_string()).collect(),
        _ => panic!("expected seq"),
    });
    let z = opt_field(nf, "z").map(|s| as_str(s).unwrap().to_string());
    Example { x, t1, t2, n: Nested { y, z } }
}

fn example_to_value(e: &Example) -> Value {
    let tag = |t: &Tag| match t {
        Tag::A => Value::Str("A".to_string()),
        Tag::B => Value::Str("renamedB".to_string()),
    };
    let y = match &e.n.y {
        Some(items) => Value::Array(
            items.iter().map(|s| Value::Str(s.clone())).collect::<Vec<_>>(),
        ),
        None => Value::Null,
    };
    let z = match &e.n.z {
        Some(s) => Value::Str(s.clone()),
        None => Value::Null,
    };
    Value::Object(vec![
        ("x".to_string(), Value::Str(e.x.clone())),
        ("t1".to_string(), tag(&e.t1)),
        ("t2".to_string(), tag(&e.t2)),
        ("n".to_string(), Value::Object(vec![("y".to_string(), y), ("z".to_string(), z)])),
    ])
}

#[test]
fn test_de() {
    let j = r#" {"x": "X", "t1": "A", "t2": "renamedB", "n": {"y": ["Y", "Y"]}} "#;
    let v = json::from_str(j).unwrap();
    let actual = example_from(&v);
    let expected = Example {
        x: "X".to_owned(),
        t1: Tag::A,
        t2: Tag::B,
        n: Nested {
            y: Some(vec!["Y".to_owned(), "Y".to_owned()]),
            z: None,
        },
    };
    assert_eq!(actual, expected);
}

#[test]
fn test_ser() {
    let example = Example {
        x: "X".to_owned(),
        t1: Tag::A,
        t2: Tag::B,
        n: Nested {
            y: Some(vec!["Y".to_owned(), "Y".to_owned()]),
            z: None,
        },
    };
    let actual = json::to_string(&example_to_value(&example));
    let expected = r#"{"x":"X","t1":"A","t2":"renamedB","n":{"y":["Y","Y"],"z":null}}"#;
    assert_eq!(actual, expected);
}
