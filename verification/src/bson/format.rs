//! The binary wire format, at the specification level.
//!
//! A document is a little-endian length, a run of elements, and a NUL; an
//! element is a type tag, a NUL-terminated ASCII name, and a payload.
//! Tags follow the interchange convention for the standard shapes, plus
//! the extension tag for alignment-carrying binary payloads, whose padding
//! depends on the element's position in the stream.

use vstd::prelude::*;
use vstd::utf8::encode_utf8;

use crate::bytes::{i64_le_bytes, u32_le_bytes, u64_le_bytes};
use crate::value::{NumberModel, ValueModel};

verus! {

pub const TAG_DOUBLE: u8 = 0x01;
pub const TAG_STRING: u8 = 0x02;
pub const TAG_DOCUMENT: u8 = 0x03;
pub const TAG_ARRAY: u8 = 0x04;
pub const TAG_BINARY: u8 = 0x05;
pub const TAG_BOOL: u8 = 0x08;
pub const TAG_NULL: u8 = 0x0A;
pub const TAG_I32: u8 = 0x10;
pub const TAG_U64: u8 = 0x11;
pub const TAG_I64: u8 = 0x12;
pub const TAG_U8: u8 = 0x81;
pub const TAG_I8: u8 = 0x82;
pub const TAG_U32: u8 = 0x83;
pub const TAG_F32: u8 = 0x85;
pub const TAG_ALIGNED: u8 = 0x8F;

/// The type tag a value is written with.
pub open spec fn tag_of(v: ValueModel) -> u8 {
    match v {
        ValueModel::Null => TAG_NULL,
        ValueModel::Bool(b) => TAG_BOOL,
        ValueModel::Number(m) => match m {
            NumberModel::U64(n) => TAG_U64,
            NumberModel::I64(i) => TAG_I64,
        },
        ValueModel::Str(cs) => TAG_STRING,
        ValueModel::Binary { bytes, align } => if align == 1 {
            TAG_BINARY
        } else {
            TAG_ALIGNED
        },
        ValueModel::Array(es) => TAG_ARRAY,
        ValueModel::Object(fs) => TAG_DOCUMENT,
    }
}

/// Zero padding that brings position `pos` up to a multiple of `align`.
pub open spec fn pad_to(pos: int, align: int) -> int {
    (align - pos % align) % align
}

/// Payload bytes of a value whose payload begins at stream position `pos`.
pub open spec fn bson_value(v: ValueModel, pos: int) -> Seq<u8>
    decreases v, 1int,
{
    match v {
        ValueModel::Null => Seq::empty(),
        ValueModel::Bool(b) => seq![if b { 1u8 } else { 0u8 }],
        ValueModel::Number(m) => match m {
            NumberModel::U64(n) => u64_le_bytes(n),
            NumberModel::I64(i) => i64_le_bytes(i),
        },
        ValueModel::Str(cs) => {
            let b = encode_utf8(cs);
            u32_le_bytes((b.len() + 1) as u32) + b + seq![0u8]
        },
        ValueModel::Binary { bytes, align } => if align == 1 {
            u32_le_bytes(bytes.len() as u32) + bytes
        } else {
            let offset = pad_to(pos + 12, align as int);
            u32_le_bytes(bytes.len() as u32) + u32_le_bytes(align as u32) + u32_le_bytes(
                offset as u32,
            ) + Seq::new(offset as nat, |i: int| 0u8) + bytes
        },
        ValueModel::Array(es) => {
            let body = bson_arr_elems(es, pos + 4);
            u32_le_bytes((body.len() + 5) as u32) + body + seq![0u8]
        },
        ValueModel::Object(fs) => {
            let body = bson_elems(fs, pos + 4);
            u32_le_bytes((body.len() + 5) as u32) + body + seq![0u8]
        },
    }
}

/// One element: tag, NUL-terminated name, payload.
pub open spec fn bson_elem(k: Seq<char>, v: ValueModel, pos: int) -> Seq<u8>
    decreases v, 2int,
{
    seq![tag_of(v)] + encode_utf8(k) + seq![0u8] + bson_value(
        v,
        pos + 1 + encode_utf8(k).len() + 1,
    )
}

/// A run of elements starting at stream position `pos`.
pub open spec fn bson_elems(fs: Seq<(Seq<char>, ValueModel)>, pos: int) -> Seq<u8>
    decreases fs, 0int,
{
    if fs.len() == 0 {
        Seq::empty()
    } else {
        let first = bson_elem(fs[0].0, fs[0].1, pos);
        first + bson_elems(fs.drop_first(), pos + first.len())
    }
}

/// A run of array elements: fields with empty names.
pub open spec fn bson_arr_elems(es: Seq<ValueModel>, pos: int) -> Seq<u8>
    decreases es, 0int,
{
    if es.len() == 0 {
        Seq::empty()
    } else {
        let first = seq![tag_of(es[0]), 0u8] + bson_value(es[0], pos + 2);
        first + bson_arr_elems(es.drop_first(), pos + first.len())
    }
}

/// A document: length prefix (counting itself and the trailing NUL), the
/// elements, a NUL.
pub open spec fn bson_doc(fs: Seq<(Seq<char>, ValueModel)>, pos: int) -> Seq<u8>
    decreases fs, 1int,
{
    let body = bson_elems(fs, pos + 4);
    u32_le_bytes((body.len() + 5) as u32) + body + seq![0u8]
}

/// A whole wire document: the root value wrapped in a synthetic document
/// with one empty-named field.
pub open spec fn bson_root(v: ValueModel) -> Seq<u8> {
    bson_doc(Seq::empty().push((Seq::<char>::empty(), v)), 0)
}

/// A character a field name can carry: ASCII, not NUL.
pub open spec fn ascii_key_char(c: char) -> bool {
    (c as u32) >= 1 && (c as u32) < 128
}

/// A key the format can carry: ASCII with no NUL byte.
pub open spec fn bson_key_ok(k: Seq<char>) -> bool {
    forall|i: int| 0 <= i < k.len() ==> ascii_key_char(#[trigger] k[i])
}

/// Values the binary format can carry faithfully: representable keys and
/// alignments, and every length small enough for its length field.
pub open spec fn bson_wf(v: ValueModel) -> bool
    decreases v,
{
    match v {
        ValueModel::Null => true,
        ValueModel::Bool(b) => true,
        ValueModel::Number(m) => true,
        ValueModel::Str(cs) => encode_utf8(cs).len() + 1 <= u32::MAX,
        ValueModel::Binary { bytes, align } => 1 <= align && align <= u32::MAX && bytes.len()
            <= u32::MAX,
        ValueModel::Array(es) => forall|i: int| 0 <= i < es.len() ==> bson_wf(#[trigger] es[i]),
        ValueModel::Object(fs) => forall|i: int|
            0 <= i < fs.len() ==> bson_key_ok(#[trigger] fs[i].0) && bson_wf(fs[i].1),
    }
}

/// What it takes for the binary encoding of `v`, placed with its payload
/// at `pos`, to read back unchanged: every document length fits its
/// field, and every alignment-tagged payload declares a power of two no
/// higher than the buffer's base alignment.
pub open spec fn bin_round_ok(v: ValueModel, pos: int, base: int) -> bool
    decreases v, 1int,
{
    match v {
        ValueModel::Binary { bytes, align } => align == 1 || (crate::bytes::is_pow2(align as int) && align as int
            <= base),
        ValueModel::Array(es) => bson_arr_elems(es, pos + 4).len() + 5
            <= u32::MAX && bin_round_ok_list(es, pos + 4, base),
        ValueModel::Object(fs) => bson_elems(fs, pos + 4).len() + 5
            <= u32::MAX && bin_round_ok_fields(fs, pos + 4, base),
        _ => true,
    }
}

pub open spec fn bin_round_ok_list(es: Seq<ValueModel>, pos: int, base: int) -> bool
    decreases es, 0int,
{
    if es.len() == 0 {
        true
    } else {
        bin_round_ok(es[0], pos + 2, base) && bin_round_ok_list(
            es.drop_first(),
            pos + 2 + bson_value(es[0], pos + 2).len(),
            base,
        )
    }
}

pub open spec fn bin_round_ok_fields(fs: Seq<(Seq<char>, ValueModel)>, pos: int, base: int) -> bool
    decreases fs, 0int,
{
    if fs.len() == 0 {
        true
    } else {
        let vpos = pos + 2 + vstd::utf8::encode_utf8(fs[0].0).len();
        bin_round_ok(fs[0].1, vpos, base) && bin_round_ok_fields(
            fs.drop_first(),
            vpos + bson_value(fs[0].1, vpos).len(),
            base,
        )
    }
}

} // verus!
