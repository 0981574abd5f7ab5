//! Typed access into decoded document values.
//!
//! A decoded tree is consumed field by field: looking a key up tolerates
//! unknown neighbours (they are simply never asked for), a missing
//! required field is reported by name, and numbers are handed out only
//! when they fit the target type's range.  This is the same acceptance
//! discipline a generated per-type decoder follows.

use vstd::prelude::*;

use crate::chars::str_eq;
use crate::error::{Error, ErrorKind};
use crate::value::{view_fields, view_value, Number, NumberModel, Value, ValueModel};
use crate::Result;

verus! {

/// The value stored under `name`: of several fields with the same name,
/// the last write wins.
pub open spec fn find_field(fs: Seq<(Seq<char>, ValueModel)>, name: Seq<char>) -> Option<
    ValueModel,
>
    decreases fs.len(),
{
    if fs.len() == 0 {
        None
    } else if fs.last().0 == name {
        Some(fs.last().1)
    } else {
        find_field(fs.drop_last(), name)
    }
}

/// Looks `name` up among `fields`.  Extra fields under other names never
/// disturb the result; of duplicates the last wins.
pub fn get_field<'a>(fields: &'a Vec<(String, Value)>, name: &str) -> (r: Option<&'a Value>)
    ensures
        match r {
            Some(v) => find_field(view_fields(fields@), name@) == Some(view_value(*v)),
            None => find_field(view_fields(fields@), name@) is None,
        },
{
    proof {
        crate::value::lemma_view_fields(fields@);
    }
    let n = fields.len();
    let mut i: usize = n;
    proof {
        assert(view_fields(fields@).take(n as int) =~= view_fields(fields@));
    }
    while i > 0
        invariant
            i <= n,
            n == fields@.len(),
            view_fields(fields@).len() == n,
            forall|j: int|
                0 <= j < n ==> #[trigger] view_fields(fields@)[j] == (fields@[j].0@, view_value(
                    fields@[j].1,
                )),
            find_field(view_fields(fields@), name@) == find_field(
                view_fields(fields@).take(i as int),
                name@,
            ),
        decreases i,
    {
        i = i - 1;
        let ghost gfs = view_fields(fields@);
        if str_eq(fields[i].0.as_str(), name) {
            proof {
                assert(gfs.take(i as int + 1).last() == gfs[i as int]);
                assert(find_field(gfs.take(i as int + 1), name@) == Some(gfs[i as int].1));
            }
            return Some(&fields[i].1);
        }
        proof {
            assert(gfs.take(i as int + 1).last() == gfs[i as int]);
            assert(gfs.take(i as int + 1).drop_last() =~= gfs.take(i as int));
        }
    }
    proof {
        assert(view_fields(fields@).take(0) =~= Seq::<(Seq<char>, ValueModel)>::empty());
    }
    None
}

/// Looks a required field up; a missing one is an error naming the field.
pub fn require_field<'a>(fields: &'a Vec<(String, Value)>, name: &str) -> (r: Result<&'a Value>)
    ensures
        match r {
            Ok(v) => find_field(view_fields(fields@), name@) == Some(view_value(*v)),
            Err(e) => find_field(view_fields(fields@), name@) is None && e.kind
                == ErrorKind::MissingField && e.what@ == name@,
        },
{
    match get_field(fields, name) {
        Some(v) => Ok(v),
        None => Err(Error::missing_field(name)),
    }
}

/// Looks an optional field up: absent and `null` are both nothing.
pub fn opt_field<'a>(fields: &'a Vec<(String, Value)>, name: &str) -> (r: Option<&'a Value>)
    ensures
        match r {
            Some(v) => find_field(view_fields(fields@), name@) == Some(view_value(*v))
                && !(view_value(*v) is Null),
            None => find_field(view_fields(fields@), name@) matches Some(m) ==> m is Null,
        },
{
    match get_field(fields, name) {
        Some(v) => match v {
            Value::Null => None,
            other => Some(other),
        },
        None => None,
    }
}

/// The integer a number holds.
pub open spec fn num_val(m: NumberModel) -> int {
    match m {
        NumberModel::U64(n) => n as int,
        NumberModel::I64(i) => i as int,
    }
}

/// A boolean, exactly from the boolean shape.
pub fn as_bool(v: &Value) -> (r: Result<bool>)
    ensures
        match r {
            Ok(b) => view_value(*v) == ValueModel::Bool(b),
            Err(e) => !(view_value(*v) is Bool) && e.kind == ErrorKind::NotExpected,
        },
{
    match v {
        Value::Bool(b) => Ok(*b),
        _ => Err(Error::not_expected("boolean")),
    }
}

/// A string slice, borrowed from the tree; exactly from the string shape.
pub fn as_str<'a>(v: &'a Value) -> (r: Result<&'a str>)
    ensures
        match r {
            Ok(s) => view_value(*v) == ValueModel::Str(s@),
            Err(e) => !(view_value(*v) is Str) && e.kind == ErrorKind::NotExpected,
        },
{
    match v {
        Value::Str(s) => Ok(s.as_str()),
        _ => Err(Error::not_expected("string")),
    }
}

/// The elements of an array shape.
pub fn as_array<'a>(v: &'a Value) -> (r: Result<&'a Vec<Value>>)
    ensures
        match r {
            Ok(es) => view_value(*v) == ValueModel::Array(crate::value::view_elements(es@)),
            Err(e) => !(view_value(*v) is Array) && e.kind == ErrorKind::NotExpected,
        },
{
    match v {
        Value::Array(es) => Ok(es),
        _ => Err(Error::not_expected("seq")),
    }
}

/// The fields of a map shape.
pub fn as_object<'a>(v: &'a Value) -> (r: Result<&'a Vec<(String, Value)>>)
    ensures
        match r {
            Ok(fs) => view_value(*v) == ValueModel::Object(view_fields(fs@)),
            Err(e) => !(view_value(*v) is Object) && e.kind == ErrorKind::NotExpected,
        },
{
    match v {
        Value::Object(fs) => Ok(fs),
        _ => Err(Error::not_expected("map")),
    }
}

/// A `u64`: any number shape whose value fits; a negative value is out
/// of range.
pub fn as_u64(v: &Value) -> (r: Result<u64>)
    ensures
        match r {
            Ok(x) => view_value(*v) matches ValueModel::Number(m) && num_val(m) == x,
            Err(e) => match view_value(*v) {
                ValueModel::Number(m) => num_val(m) < 0 && e.kind == ErrorKind::OutOfRange,
                _ => e.kind == ErrorKind::NotExpected,
            },
        },
{
    match v {
        Value::Number(Number::U64(n)) => Ok(*n),
        Value::Number(Number::I64(i)) => {
            if *i >= 0 {
                Ok(*i as u64)
            } else {
                Err(Error::out_of_range("u64"))
            }
        },
        _ => Err(Error::not_expected("number")),
    }
}

/// A `u32`: any number shape whose value fits; a value outside the range
/// (`-5`, or past the maximum) is an out-of-range error.
pub fn as_u32(v: &Value) -> (r: Result<u32>)
    ensures
        match r {
            Ok(x) => view_value(*v) matches ValueModel::Number(m) && num_val(m) == x,
            Err(e) => match view_value(*v) {
                ValueModel::Number(m) => !(0 <= num_val(m) <= u32::MAX) && e.kind
                    == ErrorKind::OutOfRange,
                _ => e.kind == ErrorKind::NotExpected,
            },
        },
{
    match v {
        Value::Number(Number::U64(n)) => {
            if *n <= u32::MAX as u64 {
                Ok(*n as u32)
            } else {
                Err(Error::out_of_range("u32"))
            }
        },
        Value::Number(Number::I64(i)) => {
            if *i >= 0 && *i <= u32::MAX as i64 {
                Ok(*i as u32)
            } else {
                Err(Error::out_of_range("u32"))
            }
        },
        _ => Err(Error::not_expected("number")),
    }
}

/// A `u8`: any number shape whose value fits; `300` or a negative value
/// is an out-of-range error.
pub fn as_u8(v: &Value) -> (r: Result<u8>)
    ensures
        match r {
            Ok(x) => view_value(*v) matches ValueModel::Number(m) && num_val(m) == x,
            Err(e) => match view_value(*v) {
                ValueModel::Number(m) => !(0 <= num_val(m) <= u8::MAX) && e.kind
                    == ErrorKind::OutOfRange,
                _ => e.kind == ErrorKind::NotExpected,
            },
        },
{
    match v {
        Value::Number(Number::U64(n)) => {
            if *n <= u8::MAX as u64 {
                Ok(*n as u8)
            } else {
                Err(Error::out_of_range("u8"))
            }
        },
        Value::Number(Number::I64(i)) => {
            if *i >= 0 && *i <= u8::MAX as i64 {
                Ok(*i as u8)
            } else {
                Err(Error::out_of_range("u8"))
            }
        },
        _ => Err(Error::not_expected("number")),
    }
}

/// An `i64`: any number shape whose value fits.
pub fn as_i64(v: &Value) -> (r: Result<i64>)
    ensures
        match r {
            Ok(x) => view_value(*v) matches ValueModel::Number(m) && num_val(m) == x,
            Err(e) => match view_value(*v) {
                ValueModel::Number(m) => num_val(m) > i64::MAX && e.kind == ErrorKind::OutOfRange,
                _ => e.kind == ErrorKind::NotExpected,
            },
        },
{
    match v {
        Value::Number(Number::U64(n)) => {
            if *n <= i64::MAX as u64 {
                Ok(*n as i64)
            } else {
                Err(Error::out_of_range("i64"))
            }
        },
        Value::Number(Number::I64(i)) => Ok(*i),
        _ => Err(Error::not_expected("number")),
    }
}

/// An `i32`: any number shape whose value fits.
pub fn as_i32(v: &Value) -> (r: Result<i32>)
    ensures
        match r {
            Ok(x) => view_value(*v) matches ValueModel::Number(m) && num_val(m) == x,
            Err(e) => match view_value(*v) {
                ValueModel::Number(m) => (num_val(m) > i32::MAX || num_val(m) < i32::MIN)
                    && e.kind == ErrorKind::OutOfRange,
                _ => e.kind == ErrorKind::NotExpected,
            },
        },
{
    match v {
        Value::Number(Number::U64(n)) => {
            if *n <= i32::MAX as u64 {
                Ok(*n as i32)
            } else {
                Err(Error::out_of_range("i32"))
            }
        },
        Value::Number(Number::I64(i)) => {
            if *i >= i32::MIN as i64 && *i <= i32::MAX as i64 {
                Ok(*i as i32)
            } else {
                Err(Error::out_of_range("i32"))
            }
        },
        _ => Err(Error::not_expected("number")),
    }
}

/// The bytes of a binary shape, with the alignment they ask for.
pub fn as_bytes<'a>(v: &'a Value) -> (r: Result<(&'a Vec<u8>, usize)>)
    ensures
        match r {
            Ok((b, a)) => view_value(*v) == (ValueModel::Binary { bytes: b@, align: a }),
            Err(e) => !(view_value(*v) is Binary) && e.kind == ErrorKind::NotExpected,
        },
{
    match v {
        Value::Binary { bytes, align } => Ok((bytes, *align)),
        _ => Err(Error::not_expected("bytes")),
    }
}

} // verus!
