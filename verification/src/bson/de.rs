//! The binary deserializer.
//!
//! [`spec_parse_bin`] gives the meaning of an input buffer relative to the
//! alignment its start address guarantees; the executable decoder is
//! proved to return exactly that meaning, or an error where there is none.

use vstd::prelude::*;
use vstd::slice::slice_to_vec;
use vstd::utf8::{decode_utf8, valid_utf8};

use crate::bson::format::{
    bin_round_ok, bin_round_ok_fields, bin_round_ok_list, TAG_ARRAY, TAG_BINARY, TAG_BOOL,
    TAG_DOCUMENT, TAG_I32, TAG_I64, TAG_NULL, TAG_STRING, TAG_U32, TAG_U64, TAG_U8, TAG_I8,
    TAG_ALIGNED,
};
use crate::bytes::{i32_of_u32, i64_of_u64, is_pow2, u32_at, u64_at};
use crate::chars::push_char;
use crate::error::Error;
use crate::value::{lemma_view_elements, lemma_view_fields, view_elements, view_fields, view_value,
    Number, Value, ValueModel};
use crate::Result;

verus! {

// ---------------------------------------------------------------------------
// The meaning of a buffer
// ---------------------------------------------------------------------------

/// First index at or after `i` holding a NUL byte.
pub open spec fn cstr_end(b: Seq<u8>, i: int) -> int
    decreases b.len() - i,
{
    if 0 <= i < b.len() && b[i] != 0 {
        cstr_end(b, i + 1)
    } else {
        i
    }
}

/// The NUL scan stays inside `[i, len]`, ends on a NUL when it ends
/// inside, and crosses only non-NUL bytes.
pub proof fn lemma_cstr_end(b: Seq<u8>, i: int)
    requires
        0 <= i <= b.len(),
    ensures
        i <= cstr_end(b, i) <= b.len(),
        cstr_end(b, i) < b.len() ==> b[cstr_end(b, i)] == 0,
        forall|j: int| i <= j < cstr_end(b, i) ==> #[trigger] b[j] != 0,
    decreases b.len() - i,
{
    if i < b.len() && b[i] != 0 {
        lemma_cstr_end(b, i + 1);
    }
}

/// Every byte in `[i, e)` is non-NUL ASCII.
pub open spec fn key_ascii_ok(b: Seq<u8>, i: int, e: int) -> bool {
    forall|j: int| i <= j < e ==> 1 <= #[trigger] b[j] && b[j] < 128
}

/// The field name spelled by the bytes in `[i, e)`.
pub open spec fn key_chars(b: Seq<u8>, i: int, e: int) -> Seq<char> {
    Seq::new((e - i) as nat, |j: int| b[i + j] as char)
}

/// An alignment-tagged payload at `p` whose lengths are in bounds but
/// whose declared alignment cannot be honoured: not a power of two, above
/// the buffer's base alignment, or with a padded position that misses it.
pub open spec fn aligned_payload_rejected(b: Seq<u8>, p: int, base: int) -> bool {
    &&& 0 <= p
    &&& p + 12 <= b.len()
    &&& p + 12 + u32_at(b, p + 8) + u32_at(b, p) <= b.len()
    &&& !(is_pow2(u32_at(b, p + 4) as int) && u32_at(b, p + 4) as int <= base && (p + 12 + u32_at(
        b,
        p + 8,
    )) % (u32_at(b, p + 4) as int) == 0)
}

/// A string payload at `p` whose lengths are in bounds but whose bytes
/// are not UTF-8.
pub open spec fn string_payload_invalid(b: Seq<u8>, p: int) -> bool {
    &&& 0 <= p
    &&& p + 4 <= b.len()
    &&& u32_at(b, p) >= 1
    &&& p + 4 + u32_at(b, p) <= b.len()
    &&& !valid_utf8(b.subrange(p + 4, p + 4 + u32_at(b, p) - 1))
}

/// A well-named element at `i` whose alignment-tagged payload is
/// rejected.
pub open spec fn misaligned_elem_at(b: Seq<u8>, i: int, base: int) -> bool {
    let ke = cstr_end(b, i + 1);
    &&& 0 <= i < b.len()
    &&& b[i] == crate::bson::format::TAG_ALIGNED
    &&& ke < b.len()
    &&& key_ascii_ok(b, i + 1, ke)
    &&& aligned_payload_rejected(b, ke + 1, base)
}

/// A well-named element at `i` whose string payload is not UTF-8.
pub open spec fn invalid_string_elem_at(b: Seq<u8>, i: int) -> bool {
    let ke = cstr_end(b, i + 1);
    &&& 0 <= i < b.len()
    &&& b[i] == crate::bson::format::TAG_STRING
    &&& ke < b.len()
    &&& key_ascii_ok(b, i + 1, ke)
    &&& string_payload_invalid(b, ke + 1)
}

/// The root document opens with an `align` metadata field.
pub open spec fn root_key_is_align(b: Seq<u8>) -> bool {
    let ke = cstr_end(b, 5);
    &&& b.len() >= 5
    &&& ke < b.len()
    &&& key_ascii_ok(b, 5, ke)
    &&& key_chars(b, 5, ke) == seq!['a', 'l', 'i', 'g', 'n']
}

/// The root `align` field declares more than the buffer's base alignment
/// can honour.
pub open spec fn root_align_too_high(b: Seq<u8>, base: int) -> bool {
    let ke = cstr_end(b, 5);
    &&& root_key_is_align(b)
    &&& b[4] == crate::bson::format::TAG_U32
    &&& b.len() - ke >= 5
    &&& u32_at(b, ke + 1) as int > base
}

/// Parses the payload of an element with type `tag` at `i`; `base` is the
/// alignment the buffer's start address guarantees, `f` bounds the steps.
/// Returns the value and the index just past the payload.
pub open spec fn bparse_value(b: Seq<u8>, tag: u8, i: int, base: int, f: nat) -> Option<
    (ValueModel, int),
>
    decreases f,
{
    if f == 0 {
        None
    } else if tag == TAG_NULL {
        Some((ValueModel::Null, i))
    } else if tag == TAG_BOOL {
        if 0 <= i && i + 1 <= b.len() {
            Some((ValueModel::Bool(b[i] != 0), i + 1))
        } else {
            None
        }
    } else if tag == TAG_U64 {
        if 0 <= i && i + 8 <= b.len() {
            Some((ValueModel::Number(crate::value::NumberModel::U64(u64_at(b, i))), i + 8))
        } else {
            None
        }
    } else if tag == TAG_I64 {
        if 0 <= i && i + 8 <= b.len() {
            Some(
                (
                    ValueModel::Number(crate::value::NumberModel::I64(i64_of_u64(u64_at(b, i)))),
                    i + 8,
                ),
            )
        } else {
            None
        }
    } else if tag == TAG_I32 {
        if 0 <= i && i + 4 <= b.len() {
            Some(
                (
                    ValueModel::Number(
                        crate::value::NumberModel::I64(i32_of_u32(u32_at(b, i)) as i64),
                    ),
                    i + 4,
                ),
            )
        } else {
            None
        }
    } else if tag == TAG_U8 {
        if 0 <= i && i + 1 <= b.len() {
            Some((ValueModel::Number(crate::value::NumberModel::U64(b[i] as u64)), i + 1))
        } else {
            None
        }
    } else if tag == TAG_I8 {
        if 0 <= i && i + 1 <= b.len() {
            Some(
                (
                    ValueModel::Number(
                        crate::value::NumberModel::I64(
                            if b[i] < 128 {
                                b[i] as i64
                            } else {
                                (b[i] as int - 256) as i64
                            },
                        ),
                    ),
                    i + 1,
                ),
            )
        } else {
            None
        }
    } else if tag == TAG_U32 {
        if 0 <= i && i + 4 <= b.len() {
            Some((ValueModel::Number(crate::value::NumberModel::U64(u32_at(b, i) as u64)), i + 4))
        } else {
            None
        }
    } else if tag == TAG_STRING {
        if 0 <= i && i + 4 <= b.len() {
            let sz = u32_at(b, i) as int;
            if sz >= 1 && i + 4 + sz <= b.len() {
                let bs = b.subrange(i + 4, i + 4 + sz - 1);
                if valid_utf8(bs) {
                    Some((ValueModel::Str(decode_utf8(bs)), i + 4 + sz))
                } else {
                    None
                }
            } else {
                None
            }
        } else {
            None
        }
    } else if tag == TAG_BINARY {
        if 0 <= i && i + 4 <= b.len() {
            let sz = u32_at(b, i) as int;
            if i + 4 + sz <= b.len() {
                Some(
                    (
                        ValueModel::Binary {
                            bytes: b.subrange(i + 4, i + 4 + sz),
                            align: 1usize,
                        },
                        i + 4 + sz,
                    ),
                )
            } else {
                None
            }
        } else {
            None
        }
    } else if tag == TAG_ALIGNED {
        if 0 <= i && i + 12 <= b.len() {
            let sz = u32_at(b, i) as int;
            let al = u32_at(b, i + 4) as int;
            let off = u32_at(b, i + 8) as int;
            if i + 12 + off + sz <= b.len() && is_pow2(al) && al <= base && (i + 12 + off) % al
                == 0 {
                Some(
                    (
                        ValueModel::Binary {
                            bytes: b.subrange(i + 12 + off, i + 12 + off + sz),
                            align: al as usize,
                        },
                        i + 12 + off + sz,
                    ),
                )
            } else {
                None
            }
        } else {
            None
        }
    } else if tag == TAG_DOCUMENT || tag == TAG_ARRAY {
        if 0 <= i && i + 4 <= b.len() {
            let sz = u32_at(b, i) as int;
            if sz >= 5 && i + sz <= b.len() {
                match bparse_elems(b, i + 4, i + sz - 1, base, (f - 1) as nat) {
                    Some((fs, j)) => if tag == TAG_DOCUMENT {
                        Some((ValueModel::Object(fs), j))
                    } else {
                        Some(
                            (
                                ValueModel::Array(
                                    fs.map_values(|kv: (Seq<char>, ValueModel)| kv.1),
                                ),
                                j,
                            ),
                        )
                    },
                    None => None,
                }
            } else {
                None
            }
        } else {
            None
        }
    } else {
        None
    }
}

/// Parses elements until the terminator position `end`; elements must end
/// exactly there.  Returns the fields and the index just past the
/// terminator byte.
pub open spec fn bparse_elems(b: Seq<u8>, i: int, end: int, base: int, f: nat) -> Option<
    (Seq<(Seq<char>, ValueModel)>, int),
>
    decreases f,
{
    if f == 0 {
        None
    } else if i == end {
        if 0 <= end < b.len() {
            Some((Seq::empty(), end + 1))
        } else {
            None
        }
    } else if !(0 <= i && i < end && end < b.len()) {
        None
    } else {
        let tag = b[i];
        let ke = cstr_end(b, i + 1);
        if ke >= b.len() {
            None
        } else if !key_ascii_ok(b, i + 1, ke) {
            None
        } else {
            match bparse_value(b, tag, ke + 1, base, (f - 1) as nat) {
                Some((v, j)) => match bparse_elems(b, j, end, base, (f - 1) as nat) {
                    Some((fs, j2)) => Some(
                        (Seq::empty().push((key_chars(b, i + 1, ke), v)) + fs, j2),
                    ),
                    None => None,
                },
                None => None,
            }
        }
    }
}

/// The root layout: a document with one field (an optional leading
/// `align` field, then the value), a checked terminator, nothing left
/// over.
pub open spec fn bparse_root(b: Seq<u8>, base: int, f: nat) -> Option<ValueModel>
    decreases f,
{
    if f == 0 || b.len() < 5 {
        None
    } else {
        let tag = b[4];
        let ke = cstr_end(b, 5);
        if ke >= b.len() || !key_ascii_ok(b, 5, ke) {
            None
        } else if key_chars(b, 5, ke) == seq!['a', 'l', 'i', 'g', 'n'] {
            if tag == TAG_U32 && ke + 5 <= b.len() {
                let al = u32_at(b, ke + 1) as int;
                if al <= base {
                    bparse_root_value(b, ke + 5, base, (f - 1) as nat)
                } else {
                    None
                }
            } else {
                None
            }
        } else {
            bparse_root_field(b, 4, base, (f - 1) as nat)
        }
    }
}

/// The root value element starting at `i` (tag position), then the checked
/// terminator and end of input.
pub open spec fn bparse_root_field(b: Seq<u8>, i: int, base: int, f: nat) -> Option<ValueModel>
    decreases f,
{
    if f == 0 {
        None
    } else if !(0 <= i && i < b.len()) {
        None
    } else {
        let tag = b[i];
        let ke = cstr_end(b, i + 1);
        if ke >= b.len() || !key_ascii_ok(b, i + 1, ke) {
            None
        } else {
            match bparse_value(b, tag, ke + 1, base, (f - 1) as nat) {
                Some((v, j)) => if j + 1 == b.len() && b[j] == 0 {
                    Some(v)
                } else {
                    None
                },
                None => None,
            }
        }
    }
}

/// Continues the root after an `align` field: the value element at `i`.
pub open spec fn bparse_root_value(b: Seq<u8>, i: int, base: int, f: nat) -> Option<ValueModel>
    decreases f,
{
    bparse_root_field(b, i, base, f)
}

/// The meaning of a buffer whose start address is aligned to `base`.
pub open spec fn spec_parse_bin(b: Seq<u8>, base: int) -> Option<ValueModel> {
    bparse_root(b, base, (b.len() + 4) as nat)
}

// ---------------------------------------------------------------------------
// Decoding canonical bytes: the round trip
// ---------------------------------------------------------------------------

/// Four little-endian bytes read back as the word they came from.
proof fn lemma_u32_le_rt(n: u32, s: Seq<u8>, i: int)
    requires
        0 <= i,
        i + 4 <= s.len(),
        forall|k: int| 0 <= k < 4 ==> s[i + k] == #[trigger] crate::bytes::u32_le_bytes(n)[k],
    ensures
        u32_at(s, i) == n,
{
    assert(n as int % 256 + 256 * (n as int / 256 % 256) + 65536 * (n as int / 65536 % 256)
        + 16777216 * (n as int / 16777216 % 256) == n as int) by (bit_vector);
    assert(s[i] == crate::bytes::u32_le_bytes(n)[0]);
    assert(s[i + 1] == crate::bytes::u32_le_bytes(n)[1]);
    assert(s[i + 2] == crate::bytes::u32_le_bytes(n)[2]);
    assert(s[i + 3] == crate::bytes::u32_le_bytes(n)[3]);
}

/// Eight little-endian bytes read back as the word they came from.
proof fn lemma_u64_le_rt(n: u64, s: Seq<u8>, i: int)
    requires
        0 <= i,
        i + 8 <= s.len(),
        forall|k: int| 0 <= k < 8 ==> s[i + k] == #[trigger] crate::bytes::u64_le_bytes(n)[k],
    ensures
        u64_at(s, i) == n,
{
    assert(n as int % 256 + 0x100 * (n as int / 0x100 % 256) + 0x10000 * (n as int / 0x10000 % 256)
        + 0x1000000 * (n as int / 0x1000000 % 256) + 0x100000000 * (n as int / 0x100000000 % 256)
        + 0x10000000000 * (n as int / 0x10000000000 % 256) + 0x1000000000000 * (n as int
        / 0x1000000000000 % 256) + 0x100000000000000 * (n as int / 0x100000000000000 % 256)
        == n as int) by (bit_vector);
    assert(s[i] == crate::bytes::u64_le_bytes(n)[0]);
    assert(s[i + 1] == crate::bytes::u64_le_bytes(n)[1]);
    assert(s[i + 2] == crate::bytes::u64_le_bytes(n)[2]);
    assert(s[i + 3] == crate::bytes::u64_le_bytes(n)[3]);
    assert(s[i + 4] == crate::bytes::u64_le_bytes(n)[4]);
    assert(s[i + 5] == crate::bytes::u64_le_bytes(n)[5]);
    assert(s[i + 6] == crate::bytes::u64_le_bytes(n)[6]);
    assert(s[i + 7] == crate::bytes::u64_le_bytes(n)[7]);
}

/// An ASCII key written with its NUL terminator scans back to itself.
proof fn lemma_key_rt(k: Seq<char>, s: Seq<u8>, p: int)
    requires
        crate::bson::format::bson_key_ok(k),
        0 <= p,
        p + vstd::utf8::encode_utf8(k).len() + 1 <= s.len(),
        forall|j: int|
            0 <= j < vstd::utf8::encode_utf8(k).len() + 1 ==> s[p + j] == #[trigger] (
            vstd::utf8::encode_utf8(k) + seq![0u8])[j],
    ensures
        vstd::utf8::encode_utf8(k).len() == k.len(),
        cstr_end(s, p) == p + k.len(),
        key_ascii_ok(s, p, p + k.len()),
        key_chars(s, p, p + k.len()) == k,
{
    let kb = vstd::utf8::encode_utf8(k);
    lemma_ascii_encode(k);
    assert(kb.len() == k.len());
    assert forall|j: int| 0 <= j < k.len() implies s[p + j] == kb[j] && (s[p + j] as u32) == (
    #[trigger] k[j]) as u32 by {
        assert((kb + seq![0u8])[j] == kb[j]);
    }
    assert forall|j: int| p <= j < p + k.len() implies #[trigger] s[j] != 0 && 1 <= s[j] && s[j]
        < 128 by {
        assert(crate::bson::format::ascii_key_char(k[j - p]));
        assert((s[j] as u32) == k[j - p] as u32);
    }
    assert(s[p + k.len()] == 0) by {
        assert((kb + seq![0u8])[k.len() as int] == 0);
    }
    lemma_cstr_end_region(s, p, p + k.len());
    assert(key_chars(s, p, p + k.len()) =~= k) by {
        assert forall|j: int| 0 <= j < k.len() implies key_chars(s, p, p + k.len())[j] == k[j] by {
            assert((s[p + j] as u32) == k[j] as u32);
            vstd::utf8::char_u32_cast(k[j], s[p + j] as u32);
            assert(key_chars(s, p, p + k.len())[j] == s[p + j] as char);
        }
    }
}

/// An ASCII character sequence encodes byte-for-byte.
proof fn lemma_ascii_encode(k: Seq<char>)
    requires
        crate::bson::format::bson_key_ok(k),
    ensures
        vstd::utf8::encode_utf8(k).len() == k.len(),
        forall|j: int|
            0 <= j < k.len() ==> (vstd::utf8::encode_utf8(k)[j] as u32) == (#[trigger] k[j]) as u32,
    decreases k.len(),
{
    if k.len() > 0 {
        let c = k[0];
        assert(crate::bson::format::ascii_key_char(c));
        let code = c as u32;
        assert(vstd::utf8::has_width_1_encoding(code));
        assert(vstd::utf8::encode_scalar(code) =~= seq![(code & 0x7F) as u8]);
        assert(((code & 0x7F) as u8) as u32 == code) by (bit_vector)
            requires
                code < 128,
        ;
        assert forall|j: int| 0 <= j < k.drop_first().len() implies crate::bson::format::ascii_key_char(
            #[trigger] k.drop_first()[j],
        ) by {
            assert(k.drop_first()[j] == k[j + 1]);
        }
        lemma_ascii_encode(k.drop_first());
        assert(vstd::utf8::encode_utf8(k) == vstd::utf8::encode_scalar(code)
            + vstd::utf8::encode_utf8(k.drop_first()));
        assert forall|j: int| 0 <= j < k.len() implies (vstd::utf8::encode_utf8(k)[j] as u32) == (
        #[trigger] k[j]) as u32 by {
            if j > 0 {
                assert((vstd::utf8::encode_utf8(k.drop_first())[j - 1] as u32) == k.drop_first()[j
                    - 1] as u32);
                assert(k.drop_first()[j - 1] == k[j]);
            } else {
                assert(vstd::utf8::encode_utf8(k)[0] == (code & 0x7F) as u8);
            }
        }
    }
}

/// A run of non-NUL bytes bounded by a NUL scans exactly to the NUL.
proof fn lemma_cstr_end_region(s: Seq<u8>, a: int, e: int)
    requires
        0 <= a <= e < s.len(),
        forall|j: int| a <= j < e ==> #[trigger] s[j] != 0,
        s[e] == 0,
    ensures
        cstr_end(s, a) == e,
    decreases e - a,
{
    if a < e {
        lemma_cstr_end_region(s, a + 1, e);
    }
}

/// The nesting-and-element budget the parser needs for `v`.
pub open spec fn bneed(v: ValueModel) -> nat
    decreases v, 1int,
{
    match v {
        ValueModel::Array(es) => 1 + bneed_list(es),
        ValueModel::Object(fs) => 1 + bneed_fields(fs),
        _ => 0,
    }
}

pub open spec fn bneed_list(es: Seq<ValueModel>) -> nat
    decreases es, 0int,
{
    if es.len() == 0 {
        0
    } else {
        let a = bneed(es[0]);
        let b = bneed_list(es.drop_first());
        1 + if a > b {
            a
        } else {
            b
        }
    }
}

pub open spec fn bneed_fields(fs: Seq<(Seq<char>, ValueModel)>) -> nat
    decreases fs, 0int,
{
    if fs.len() == 0 {
        0
    } else {
        let a = bneed(fs[0].1);
        let b = bneed_fields(fs.drop_first());
        1 + if a > b {
            a
        } else {
            b
        }
    }
}

/// Array elements as the parser sees them: fields with empty names.
pub open spec fn arr_kv(es: Seq<ValueModel>) -> Seq<(Seq<char>, ValueModel)> {
    es.map_values(|v: ValueModel| (Seq::<char>::empty(), v))
}

/// The parser's budget never exceeds the encoding's length.
proof fn lemma_bneed_le(v: ValueModel, pos: int)
    ensures
        bneed(v) <= crate::bson::format::bson_value(v, pos).len(),
    decreases v, 1int,
{
    match v {
        ValueModel::Array(es) => {
            if es.len() > 0 {
                lemma_bneed_le_list(es, pos + 4);
            }
        },
        ValueModel::Object(fs) => {
            if fs.len() > 0 {
                lemma_bneed_le_fields(fs, pos + 4);
            }
        },
        _ => {},
    }
}

proof fn lemma_bneed_le_list(es: Seq<ValueModel>, pos: int)
    ensures
        bneed_list(es) <= crate::bson::format::bson_arr_elems(es, pos).len(),
    decreases es, 0int,
{
    if es.len() > 0 {
        lemma_bneed_le(es[0], pos + 2);
        let first = seq![crate::bson::format::tag_of(es[0]), 0u8] + crate::bson::format::bson_value(
            es[0],
            pos + 2,
        );
        lemma_bneed_le_list(es.drop_first(), pos + first.len());
    }
}

proof fn lemma_bneed_le_fields(fs: Seq<(Seq<char>, ValueModel)>, pos: int)
    ensures
        bneed_fields(fs) <= crate::bson::format::bson_elems(fs, pos).len(),
    decreases fs, 0int,
{
    if fs.len() > 0 {
        let first = crate::bson::format::bson_elem(fs[0].0, fs[0].1, pos);
        lemma_bneed_le(fs[0].1, pos + 1 + vstd::utf8::encode_utf8(fs[0].0).len() + 1);
        lemma_bneed_le_fields(fs.drop_first(), pos + first.len());
    }
}

/// Decoding a canonical alignment-tagged payload gives it back.
#[verifier::rlimit(100)]
proof fn lemma_brt_value_aligned(bytes: Seq<u8>, align: usize, s: Seq<u8>, i: int, base: int, f: nat)
    requires
        align != 1,
        crate::bson::format::bson_wf(ValueModel::Binary { bytes, align }),
        bin_round_ok(ValueModel::Binary { bytes, align }, i, base),
        0 <= i,
        i + crate::bson::format::bson_value(ValueModel::Binary { bytes, align }, i).len()
            <= s.len(),
        s.subrange(
            i,
            i + crate::bson::format::bson_value(ValueModel::Binary { bytes, align }, i).len(),
        ) == crate::bson::format::bson_value(ValueModel::Binary { bytes, align }, i),
        f >= 1,
    ensures
        bparse_value(s, TAG_ALIGNED, i, base, f) == Some(
            (
                ValueModel::Binary { bytes, align },
                i + crate::bson::format::bson_value(ValueModel::Binary { bytes, align }, i).len(),
            ),
        ),
{
    let v = ValueModel::Binary { bytes, align };
    let pl = crate::bson::format::bson_value(v, i);
    let l = pl.len() as int;
    assert forall|k: int| 0 <= k < l implies s[i + k] == #[trigger] pl[k] by {
        assert(s.subrange(i, i + l)[k] == s[i + k]);
    }
    let off = crate::bson::format::pad_to(i + 12, align as int);
    vstd::arithmetic::div_mod::lemma_mod_bound(
        align as int - (i + 12) % (align as int),
        align as int,
    );
    vstd::arithmetic::div_mod::lemma_mod_bound(i + 12, align as int);
    assert(0 <= off < align as int);
    assert forall|k: int| 0 <= k < 4 implies s[i + k] == #[trigger] crate::bytes::u32_le_bytes(
        bytes.len() as u32,
    )[k] by {
        assert(pl[k] == crate::bytes::u32_le_bytes(bytes.len() as u32)[k]);
    }
    lemma_u32_le_rt(bytes.len() as u32, s, i);
    assert forall|k: int| 0 <= k < 4 implies s[i + 4 + k] == #[trigger] crate::bytes::u32_le_bytes(
        align as u32,
    )[k] by {
        assert(pl[4 + k] == crate::bytes::u32_le_bytes(align as u32)[k]);
    }
    lemma_u32_le_rt(align as u32, s, i + 4);
    assert forall|k: int| 0 <= k < 4 implies s[i + 8 + k] == #[trigger] crate::bytes::u32_le_bytes(
        off as u32,
    )[k] by {
        assert(pl[8 + k] == crate::bytes::u32_le_bytes(off as u32)[k]);
    }
    lemma_u32_le_rt(off as u32, s, i + 8);
    assert((i + 12 + off) % (align as int) == 0) by {
        let a = align as int;
        let x = i + 12;
        vstd::arithmetic::div_mod::lemma_fundamental_div_mod(x, a);
        let q = x / a;
        let r = x % a;
        if r == 0 {
            vstd::arithmetic::div_mod::lemma_mod_self_0(a);
            assert(off == 0);
            vstd::arithmetic::div_mod::lemma_mod_multiples_basic(q, a);
        } else {
            vstd::arithmetic::div_mod::lemma_small_mod((a - r) as nat, a as nat);
            assert(off == a - r);
            assert(x == q * a + r);
            assert(x + off == q * a + a);
            assert((q + 1) * a == q * a + a) by (nonlinear_arith);
            assert(x + off == (q + 1) * a);
            vstd::arithmetic::div_mod::lemma_mod_multiples_basic(q + 1, a);
        }
    }
    assert(s.subrange(i + 12 + off, i + 12 + off + bytes.len() as int) =~= bytes) by {
        assert forall|k: int| 0 <= k < bytes.len() implies s[i + 12 + off + k]
            == #[trigger] bytes[k] by {
            assert(pl[12 + off + k] == bytes[k]);
        }
    }
}

/// Decoding the canonical payload of a well-formed value gives it back.
#[verifier::rlimit(100)]
proof fn lemma_brt_value(v: ValueModel, s: Seq<u8>, i: int, base: int, f: nat)
    requires
        crate::bson::format::bson_wf(v),
        bin_round_ok(v, i, base),
        0 <= i,
        i + crate::bson::format::bson_value(v, i).len() <= s.len(),
        s.subrange(i, i + crate::bson::format::bson_value(v, i).len())
            == crate::bson::format::bson_value(v, i),
        f >= 1 + bneed(v),
    ensures
        bparse_value(s, crate::bson::format::tag_of(v), i, base, f) == Some(
            (v, i + crate::bson::format::bson_value(v, i).len()),
        ),
    decreases v, 1int,
{
    let pl = crate::bson::format::bson_value(v, i);
    let l = pl.len() as int;
    assert forall|k: int| 0 <= k < l implies s[i + k] == #[trigger] pl[k] by {
        assert(s.subrange(i, i + l)[k] == s[i + k]);
    }
    match v {
        ValueModel::Null => {},
        ValueModel::Bool(b) => {
            assert(s[i] == pl[0]);
        },
        ValueModel::Number(m) => {
            match m {
                crate::value::NumberModel::U64(n) => {
                    lemma_u64_le_rt(n, s, i);
                },
                crate::value::NumberModel::I64(x) => {
                    let bits = crate::bytes::u64_of_i64(x);
                    lemma_u64_le_rt(bits, s, i);
                    assert(i64_of_u64(bits) == x);
                },
            }
        },
        ValueModel::Str(cs) => {
            let kb = vstd::utf8::encode_utf8(cs);
            let sz = kb.len() + 1;
            assert forall|k: int| 0 <= k < 4 implies s[i + k] == #[trigger] crate::bytes::u32_le_bytes(
                sz as u32,
            )[k] by {
                assert(pl[k] == crate::bytes::u32_le_bytes(sz as u32)[k]);
            }
            lemma_u32_le_rt(sz as u32, s, i);
            assert(u32_at(s, i) == sz);
            assert(s.subrange(i + 4, i + 4 + sz - 1) =~= kb) by {
                assert forall|k: int| 0 <= k < kb.len() implies s[i + 4 + k] == #[trigger] kb[k] by {
                    assert(pl[4 + k] == kb[k]);
                }
            }
            vstd::utf8::encode_utf8_valid_utf8(cs);
            vstd::utf8::encode_utf8_decode_utf8(cs);
        },
        ValueModel::Binary { bytes, align } => {
            if align == 1 {
                assert forall|k: int| 0 <= k < 4 implies s[i + k]
                    == #[trigger] crate::bytes::u32_le_bytes(bytes.len() as u32)[k] by {
                    assert(pl[k] == crate::bytes::u32_le_bytes(bytes.len() as u32)[k]);
                }
                lemma_u32_le_rt(bytes.len() as u32, s, i);
                assert(s.subrange(i + 4, i + 4 + bytes.len() as int) =~= bytes) by {
                    assert forall|k: int| 0 <= k < bytes.len() implies s[i + 4 + k]
                        == #[trigger] bytes[k] by {
                        assert(pl[4 + k] == bytes[k]);
                    }
                }
            } else {
                lemma_brt_value_aligned(bytes, align, s, i, base, f);
            }
        },
        ValueModel::Array(es) => {
            let body = crate::bson::format::bson_arr_elems(es, i + 4);
            let sz = body.len() + 5;
            assert forall|k: int| 0 <= k < 4 implies s[i + k] == #[trigger] crate::bytes::u32_le_bytes(
                sz as u32,
            )[k] by {
                assert(pl[k] == crate::bytes::u32_le_bytes(sz as u32)[k]);
            }
            lemma_u32_le_rt(sz as u32, s, i);
            assert(u32_at(s, i) == sz);
            assert(s.subrange(i + 4, i + 4 + body.len() as int + 1) =~= body + seq![0u8]) by {
                assert forall|k: int| 0 <= k < body.len() + 1 implies s[i + 4 + k] == #[trigger] (
                body + seq![0u8])[k] by {
                    assert(pl[4 + k] == (body + seq![0u8])[k]);
                }
            }
            assert forall|k: int| 0 <= k < es.len() implies crate::bson::format::bson_wf(
                #[trigger] es[k],
            ) by {}
            lemma_brt_arr_elems(es, s, i + 4, i + 4 + body.len() as int, base, (f - 1) as nat);
            assert(arr_kv(es).map_values(|kv: (Seq<char>, ValueModel)| kv.1) =~= es);
            assert(i + 4 + body.len() + 1 == i + l);
        },
        ValueModel::Object(fs) => {
            let body = crate::bson::format::bson_elems(fs, i + 4);
            let sz = body.len() + 5;
            assert forall|k: int| 0 <= k < 4 implies s[i + k] == #[trigger] crate::bytes::u32_le_bytes(
                sz as u32,
            )[k] by {
                assert(pl[k] == crate::bytes::u32_le_bytes(sz as u32)[k]);
            }
            lemma_u32_le_rt(sz as u32, s, i);
            assert(u32_at(s, i) == sz);
            assert(s.subrange(i + 4, i + 4 + body.len() as int + 1) =~= body + seq![0u8]) by {
                assert forall|k: int| 0 <= k < body.len() + 1 implies s[i + 4 + k] == #[trigger] (
                body + seq![0u8])[k] by {
                    assert(pl[4 + k] == (body + seq![0u8])[k]);
                }
            }
            assert forall|k: int| 0 <= k < fs.len() implies crate::bson::format::bson_key_ok(
                (#[trigger] fs[k]).0,
            ) && crate::bson::format::bson_wf(fs[k].1) by {
                assert(crate::bson::format::bson_key_ok(fs[k].0));
            }
            lemma_brt_fields(fs, s, i + 4, i + 4 + body.len() as int, base, (f - 1) as nat);
            assert(i + 4 + body.len() + 1 == i + l);
        },
    }
}

/// Decoding a canonical run of array elements gives the empty-named
/// fields back.
#[verifier::rlimit(100)]
proof fn lemma_brt_arr_elems(
    es: Seq<ValueModel>,
    s: Seq<u8>,
    i: int,
    end: int,
    base: int,
    f: nat,
)
    requires
        forall|k: int| 0 <= k < es.len() ==> crate::bson::format::bson_wf(#[trigger] es[k]),
        bin_round_ok_list(es, i, base),
        0 <= i,
        end == i + crate::bson::format::bson_arr_elems(es, i).len(),
        end < s.len(),
        s.subrange(i, end + 1) == crate::bson::format::bson_arr_elems(es, i) + seq![0u8],
        f >= 1 + bneed_list(es),
    ensures
        bparse_elems(s, i, end, base, f) == Some((arr_kv(es), end + 1)),
    decreases es, 0int,
{
    let body = crate::bson::format::bson_arr_elems(es, i);
    let region = body + seq![0u8];
    assert forall|k: int| 0 <= k < body.len() + 1 implies s[i + k] == #[trigger] region[k] by {
        assert(s.subrange(i, end + 1)[k] == s[i + k]);
    }
    if es.len() == 0 {
        assert(arr_kv(es) =~= Seq::<(Seq<char>, ValueModel)>::empty());
    } else {
        let v0 = es[0];
        let pl0 = crate::bson::format::bson_value(v0, i + 2);
        let first = seq![crate::bson::format::tag_of(v0), 0u8] + pl0;
        assert(body == first + crate::bson::format::bson_arr_elems(
            es.drop_first(),
            i + first.len(),
        ));
        assert(i < end);
        assert(s[i] == crate::bson::format::tag_of(v0)) by {
            assert(region[0] == first[0]);
        }
        assert(s[i + 1] == 0) by {
            assert(region[1] == first[1]);
        }
        lemma_cstr_end_region(s, i + 1, i + 1);
        assert(key_chars(s, i + 1, i + 1) =~= Seq::<char>::empty());
        assert(s.subrange(i + 2, i + 2 + pl0.len() as int) =~= pl0) by {
            assert forall|k: int| 0 <= k < pl0.len() implies s[i + 2 + k] == #[trigger] pl0[k] by {
                assert(region[2 + k] == first[2 + k]);
            }
        }
        lemma_brt_value(v0, s, i + 2, base, (f - 1) as nat);
        let j = i + 2 + pl0.len() as int;
        assert(s.subrange(j, end + 1) =~= crate::bson::format::bson_arr_elems(
            es.drop_first(),
            j,
        ) + seq![0u8]) by {
            assert forall|k: int|
                0 <= k < crate::bson::format::bson_arr_elems(es.drop_first(), j).len() + 1 implies
                s[j + k] == #[trigger] (crate::bson::format::bson_arr_elems(es.drop_first(), j)
                + seq![0u8])[k] by {
                assert(region[first.len() + k] == (crate::bson::format::bson_arr_elems(
                    es.drop_first(),
                    j,
                ) + seq![0u8])[k]);
            }
        }
        assert forall|k: int| 0 <= k < es.drop_first().len() implies crate::bson::format::bson_wf(
            #[trigger] es.drop_first()[k],
        ) by {
            assert(es.drop_first()[k] == es[k + 1]);
        }
        lemma_brt_arr_elems(es.drop_first(), s, j, end, base, (f - 1) as nat);
        assert(Seq::empty().push((key_chars(s, i + 1, i + 1), v0)) + arr_kv(es.drop_first())
            =~= arr_kv(es)) by {
            assert forall|k: int| 0 <= k < es.len() implies (Seq::empty().push(
                (key_chars(s, i + 1, i + 1), v0),
            ) + arr_kv(es.drop_first()))[k] == #[trigger] arr_kv(es)[k] by {
                if k > 0 {
                    assert(arr_kv(es.drop_first())[k - 1] == (
                    Seq::<char>::empty(),
                    es.drop_first()[k - 1],
                    ));
                    assert(es.drop_first()[k - 1] == es[k]);
                }
            }
        }
    }
}

/// Decoding a canonical run of object fields gives them back.
#[verifier::rlimit(100)]
proof fn lemma_brt_fields(
    fs: Seq<(Seq<char>, ValueModel)>,
    s: Seq<u8>,
    i: int,
    end: int,
    base: int,
    f: nat,
)
    requires
        forall|k: int|
            0 <= k < fs.len() ==> crate::bson::format::bson_key_ok(#[trigger] fs[k].0)
                && crate::bson::format::bson_wf(fs[k].1),
        bin_round_ok_fields(fs, i, base),
        0 <= i,
        end == i + crate::bson::format::bson_elems(fs, i).len(),
        end < s.len(),
        s.subrange(i, end + 1) == crate::bson::format::bson_elems(fs, i) + seq![0u8],
        f >= 1 + bneed_fields(fs),
    ensures
        bparse_elems(s, i, end, base, f) == Some((fs, end + 1)),
    decreases fs, 0int,
{
    let body = crate::bson::format::bson_elems(fs, i);
    let region = body + seq![0u8];
    assert forall|k: int| 0 <= k < body.len() + 1 implies s[i + k] == #[trigger] region[k] by {
        assert(s.subrange(i, end + 1)[k] == s[i + k]);
    }
    if fs.len() == 0 {
    } else {
        let k0 = fs[0].0;
        let v0 = fs[0].1;
        let kb = vstd::utf8::encode_utf8(k0);
        let vpos = i + 2 + kb.len() as int;
        let pl0 = crate::bson::format::bson_value(v0, vpos);
        let first = crate::bson::format::bson_elem(k0, v0, i);
        assert(first == seq![crate::bson::format::tag_of(v0)] + kb + seq![0u8] + pl0);
        assert(body == first + crate::bson::format::bson_elems(fs.drop_first(), i + first.len()));
        assert(i < end);
        assert(s[i] == crate::bson::format::tag_of(v0)) by {
            assert(region[0] == first[0]);
        }
        assert forall|jj: int| 0 <= jj < kb.len() + 1 implies s[i + 1 + jj] == #[trigger] (kb
            + seq![0u8])[jj] by {
            assert(region[1 + jj] == first[1 + jj]);
            assert(first[1 + jj] == (kb + seq![0u8])[jj]);
        }
        lemma_key_rt(k0, s, i + 1);
        let ke = i + 1 + k0.len() as int;
        assert(ke + 1 == vpos);
        assert(s.subrange(vpos, vpos + pl0.len() as int) =~= pl0) by {
            assert forall|k: int| 0 <= k < pl0.len() implies s[vpos + k] == #[trigger] pl0[k] by {
                assert(region[2 + kb.len() + k] == first[2 + kb.len() + k]);
            }
        }
        lemma_brt_value(v0, s, vpos, base, (f - 1) as nat);
        let j = vpos + pl0.len() as int;
        assert(s.subrange(j, end + 1) =~= crate::bson::format::bson_elems(fs.drop_first(), j)
            + seq![0u8]) by {
            assert forall|k: int|
                0 <= k < crate::bson::format::bson_elems(fs.drop_first(), j).len() + 1 implies s[j
                + k] == #[trigger] (crate::bson::format::bson_elems(fs.drop_first(), j)
                + seq![0u8])[k] by {
                assert(region[first.len() + k] == (crate::bson::format::bson_elems(
                    fs.drop_first(),
                    j,
                ) + seq![0u8])[k]);
            }
        }
        assert forall|k: int| 0 <= k < fs.drop_first().len() implies crate::bson::format::bson_key_ok(
            (#[trigger] fs.drop_first()[k]).0,
        ) && crate::bson::format::bson_wf(fs.drop_first()[k].1) by {
            assert(fs.drop_first()[k] == fs[k + 1]);
        }
        lemma_brt_fields(fs.drop_first(), s, j, end, base, (f - 1) as nat);
        assert(Seq::empty().push((key_chars(s, i + 1, ke), v0)) + fs.drop_first() =~= fs) by {
            assert(key_chars(s, i + 1, ke) == k0);
            assert forall|k: int| 0 <= k < fs.len() implies (Seq::empty().push((k0, v0))
                + fs.drop_first())[k] == #[trigger] fs[k] by {
                if k > 0 {
                    assert(fs.drop_first()[k - 1] == fs[k]);
                }
            }
        }
    }
}

/// Round trip: the binary encoding of a well-formed value, read back
/// against a base alignment every alignment-tagged payload stays within,
/// yields exactly that value.
pub proof fn lemma_bson_parse_canonical(v: ValueModel, base: int)
    requires
        crate::bson::format::bson_wf(v),
        bin_round_ok(v, 6, base),
    ensures
        spec_parse_bin(crate::bson::format::bson_root(v), base) == Some(v),
{
    let s = crate::bson::format::bson_root(v);
    let pl = crate::bson::format::bson_value(v, 6);
    let elem = crate::bson::format::bson_elem(Seq::<char>::empty(), v, 4);
    let body = crate::bson::format::bson_elems(
        Seq::<(Seq<char>, ValueModel)>::empty().push((Seq::<char>::empty(), v)),
        4,
    );
    assert(vstd::utf8::encode_utf8(Seq::<char>::empty()) =~= Seq::<u8>::empty());
    let single = Seq::<(Seq<char>, ValueModel)>::empty().push((Seq::<char>::empty(), v));
    assert(single.drop_first() =~= Seq::<(Seq<char>, ValueModel)>::empty());
    assert(single[0] == (Seq::<char>::empty(), v));
    assert(elem =~= seq![crate::bson::format::tag_of(v), 0u8] + pl);
    assert(crate::bson::format::bson_elems(
        Seq::<(Seq<char>, ValueModel)>::empty(),
        4 + elem.len() as int,
    ) =~= Seq::<u8>::empty());
    assert(body == elem + crate::bson::format::bson_elems(
        Seq::<(Seq<char>, ValueModel)>::empty(),
        4 + elem.len() as int,
    ));
    assert(body =~= elem);
    assert(s == crate::bytes::u32_le_bytes((body.len() + 5) as u32) + body + seq![0u8]);
    assert(s.len() == pl.len() + 7);
    let f0 = (s.len() + 4) as nat;
    assert(s[4] == crate::bson::format::tag_of(v)) by {
        assert(s[4] == body[0]);
    }
    assert(s[5] == 0) by {
        assert(s[5] == body[1]);
    }
    lemma_cstr_end_region(s, 5, 5);
    assert(key_chars(s, 5, 5) =~= Seq::<char>::empty());
    assert(key_chars(s, 5, 5) != seq!['a', 'l', 'i', 'g', 'n']);
    assert(s.subrange(6, 6 + pl.len() as int) =~= pl) by {
        assert forall|k: int| 0 <= k < pl.len() implies s[6 + k] == #[trigger] pl[k] by {
            assert(s[6 + k] == body[2 + k]);
            assert(body[2 + k] == pl[k]);
        }
    }
    lemma_bneed_le(v, 6);
    lemma_brt_value(v, s, 6, base, (f0 - 2) as nat);
    assert(s[6 + pl.len() as int] == 0);
    assert(6 + pl.len() + 1 == s.len());
    assert(bparse_root_field(s, 4, base, (f0 - 1) as nat) == Some(v));
}

// ---------------------------------------------------------------------------
// The executable decoder
// ---------------------------------------------------------------------------

fn read_u32_at(v: &Vec<u8>, i: usize) -> (r: u32)
    requires
        i + 4 <= v@.len(),
    ensures
        r == u32_at(v@, i as int),
{
    let n = v.len();
    assert(i + 4 <= n);
    v[i] as u32 + 256 * (v[i + 1] as u32) + 65536 * (v[i + 2] as u32) + 16777216 * (v[i
        + 3] as u32)
}

fn read_u64_at(v: &Vec<u8>, i: usize) -> (r: u64)
    requires
        i + 8 <= v@.len(),
    ensures
        r == u64_at(v@, i as int),
{
    let n = v.len();
    assert(i + 8 <= n);
    v[i] as u64 + 0x100 * (v[i + 1] as u64) + 0x10000 * (v[i + 2] as u64) + 0x1000000 * (v[i
        + 3] as u64) + 0x100000000 * (v[i + 4] as u64) + 0x10000000000 * (v[i + 5] as u64)
        + 0x1000000000000 * (v[i + 6] as u64) + 0x100000000000000 * (v[i + 7] as u64)
}

/// Copies `v[a .. e)` out.
fn copy_range(v: &Vec<u8>, a: usize, e: usize) -> (r: Vec<u8>)
    requires
        a <= e <= v@.len(),
    ensures
        r@ == v@.subrange(a as int, e as int),
{
    let mut out: Vec<u8> = Vec::new();
    let mut p = a;
    proof {
        assert(out@ =~= v@.subrange(a as int, a as int));
    }
    while p < e
        invariant
            a <= p <= e <= v@.len(),
            out@ == v@.subrange(a as int, p as int),
        decreases e - p,
    {
        out.push(v[p]);
        p = p + 1;
        proof {
            assert(out@ =~= v@.subrange(a as int, p as int));
        }
    }
    out
}

/// Reads the NUL-terminated ASCII field name starting at `p`.
fn scan_key(v: &Vec<u8>, p: usize) -> (r: Option<(String, usize)>)
    requires
        p <= v@.len(),
    ensures
        match r {
            Some((key, ke)) => ke == cstr_end(v@, p as int) && ke < v@.len() && key_ascii_ok(
                v@,
                p as int,
                ke as int,
            ) && key@ == key_chars(v@, p as int, ke as int) && p <= ke,
            None => cstr_end(v@, p as int) >= v@.len() || !key_ascii_ok(
                v@,
                p as int,
                cstr_end(v@, p as int),
            ),
        },
{
    let n = v.len();
    let mut key = String::new();
    let mut j = p;
    proof {
        assert(key@ =~= key_chars(v@, p as int, p as int));
    }
    while j < n && v[j] != 0
        invariant
            p <= j <= n,
            n == v@.len(),
            cstr_end(v@, p as int) == cstr_end(v@, j as int),
            key_ascii_ok(v@, p as int, j as int),
            key@ == key_chars(v@, p as int, j as int),
        decreases n - j,
    {
        let byte = v[j];
        if byte >= 128 {
            proof {
                lemma_cstr_end(v@, j as int);
                assert(cstr_end(v@, j as int) > j) by {
                    assert(v@[j as int] != 0);
                }
                assert(!(1 <= v@[j as int] && v@[j as int] < 128));
                assert(!key_ascii_ok(v@, p as int, cstr_end(v@, p as int)));
            }
            return None;
        }
        let ghost pre = key@;
        push_char(&mut key, byte as char);
        j = j + 1;
        proof {
            assert(key@ =~= key_chars(v@, p as int, j as int));
        }
    }
    if j >= n {
        proof {
            assert(cstr_end(v@, j as int) == j as int);
        }
        return None;
    }
    proof {
        assert(cstr_end(v@, j as int) == j as int);
    }
    Some((key, j))
}

fn is_pow2_exec(a: u32) -> (r: bool)
    ensures
        r == is_pow2(a as int),
{
    let mut x = a;
    while x > 1 && x % 2 == 0
        invariant
            is_pow2(a as int) == is_pow2(x as int),
        decreases x,
    {
        x = x / 2;
    }
    x == 1
}

/// Decodes one payload of type `tag` at `i`; mirrors [`bparse_value`].
#[verifier::rlimit(100)]
fn parse_value_exec(v: &Vec<u8>, tag: u8, i: usize, base: usize, Ghost(f): Ghost<nat>) -> (r:
    Result<(Value, usize)>)
    requires
        i <= v@.len(),
        f >= v@.len() - i + 2,
    ensures
        match r {
            Ok((val, j)) => bparse_value(v@, tag, i as int, base as int, f) == Some(
                (view_value(val), j as int),
            ) && i <= j <= v@.len(),
            Err(_) => bparse_value(v@, tag, i as int, base as int, f) is None,
        },
        ({
            match r {
                Err(e) => (tag == TAG_ALIGNED && aligned_payload_rejected(
                    v@,
                    i as int,
                    base as int,
                ) ==> e.kind == crate::error::ErrorKind::NotAligned) && (tag == TAG_STRING
                    && string_payload_invalid(v@, i as int) ==> e.kind
                    == crate::error::ErrorKind::InvalidUtf8),
                _ => true,
            }
        }),
    decreases v@.len() - i, 0int,
{
    let n = v.len();
    if tag == TAG_NULL {
        Ok((Value::Null, i))
    } else if tag == TAG_BOOL {
        if n - i >= 1 {
            Ok((Value::Bool(v[i] != 0), i + 1))
        } else {
            Err(Error::generic("truncated".to_owned()))
        }
    } else if tag == TAG_U64 {
        if n - i >= 8 {
            Ok((Value::Number(Number::U64(read_u64_at(v, i))), i + 8))
        } else {
            Err(Error::generic("truncated".to_owned()))
        }
    } else if tag == TAG_I64 {
        if n - i >= 8 {
            let bits = read_u64_at(v, i);
            let val: i64 = if bits < 0x8000000000000000 {
                bits as i64
            } else {
                (bits - 0x8000000000000000) as i64 + i64::MIN
            };
            proof {
                assert(val == i64_of_u64(bits));
            }
            Ok((Value::Number(Number::I64(val)), i + 8))
        } else {
            Err(Error::generic("truncated".to_owned()))
        }
    } else if tag == TAG_I32 {
        if n - i >= 4 {
            let bits = read_u32_at(v, i);
            let val: i32 = if bits < 0x80000000 {
                bits as i32
            } else {
                (bits - 0x80000000) as i32 + i32::MIN
            };
            proof {
                assert(val == i32_of_u32(bits));
            }
            Ok((Value::Number(Number::I64(val as i64)), i + 4))
        } else {
            Err(Error::generic("truncated".to_owned()))
        }
    } else if tag == TAG_U8 {
        if n - i >= 1 {
            Ok((Value::Number(Number::U64(v[i] as u64)), i + 1))
        } else {
            Err(Error::generic("truncated".to_owned()))
        }
    } else if tag == TAG_I8 {
        if n - i >= 1 {
            let byte = v[i];
            let val: i64 = if byte < 128 {
                byte as i64
            } else {
                byte as i64 - 256
            };
            Ok((Value::Number(Number::I64(val)), i + 1))
        } else {
            Err(Error::generic("truncated".to_owned()))
        }
    } else if tag == TAG_U32 {
        if n - i >= 4 {
            Ok((Value::Number(Number::U64(read_u32_at(v, i) as u64)), i + 4))
        } else {
            Err(Error::generic("truncated".to_owned()))
        }
    } else if tag == TAG_STRING {
        if n - i >= 4 {
            let sz = read_u32_at(v, i) as usize;
            if sz >= 1 && sz <= n - (i + 4) {
                let bytes = copy_range(v, i + 4, i + 4 + sz - 1);
                match crate::chars::string_from_utf8(bytes) {
                    Some(s) => Ok((Value::Str(s), i + 4 + sz)),
                    None => Err(Error::invalid_utf8()),
                }
            } else {
                Err(Error::generic("truncated".to_owned()))
            }
        } else {
            Err(Error::generic("truncated".to_owned()))
        }
    } else if tag == TAG_BINARY {
        if n - i >= 4 {
            let sz = read_u32_at(v, i) as usize;
            if sz <= n - (i + 4) {
                let bytes = copy_range(v, i + 4, i + 4 + sz);
                Ok((Value::Binary { bytes, align: 1 }, i + 4 + sz))
            } else {
                Err(Error::generic("truncated".to_owned()))
            }
        } else {
            Err(Error::generic("truncated".to_owned()))
        }
    } else if tag == TAG_ALIGNED {
        if n - i >= 12 {
            let sz = read_u32_at(v, i) as usize;
            let al = read_u32_at(v, i + 4);
            let off = read_u32_at(v, i + 8) as usize;
            if !(off <= n - (i + 12) && sz <= n - (i + 12) - off) {
                Err(Error::generic("truncated".to_owned()))
            } else if is_pow2_exec(al) && al as usize <= base && (i + 12 + off) % (al as usize)
                == 0 {
                let bytes = copy_range(v, i + 12 + off, i + 12 + off + sz);
                Ok((Value::Binary { bytes, align: al as usize }, i + 12 + off + sz))
            } else {
                Err(Error::not_aligned(al as usize, off))
            }
        } else {
            Err(Error::generic("truncated".to_owned()))
        }
    } else if tag == TAG_DOCUMENT || tag == TAG_ARRAY {
        if n - i >= 4 {
            let sz = read_u32_at(v, i) as usize;
            if sz >= 5 && sz <= n - i {
                match parse_elems_exec(v, i + 4, i + sz - 1, base, Ghost((f - 1) as nat)) {
                    Ok((fields, j)) => {
                        if tag == TAG_DOCUMENT {
                            Ok((Value::Object(fields), j))
                        } else {
                            let ghost fspec = view_fields(fields@);
                            let mut rest = fields;
                            let mut items: Vec<Value> = Vec::new();
                            proof {
                                lemma_view_fields(rest@);
                            }
                            while rest.len() > 0
                                invariant
                                    items@.len() + rest@.len() == fspec.len(),
                                    forall|k: int|
                                        0 <= k < items@.len() ==> view_value(#[trigger] items@[k])
                                            == fspec[k].1,
                                    forall|k: int|
                                        0 <= k < rest@.len() ==> view_fields(rest@)[k] == fspec[
                                            items@.len() + k
                                        ] && #[trigger] view_fields(rest@)[k] == (rest@[k].0@,
                                        view_value(rest@[k].1)),
                                decreases rest@.len(),
                            {
                                let ghost restpre = rest@;
                                let kv = rest.remove(0);
                                items.push(kv.1);
                                proof {
                                    lemma_view_fields(restpre);
                                    lemma_view_fields(rest@);
                                    assert(rest@ =~= restpre.drop_first());
                                    assert forall|k: int| 0 <= k < rest@.len() implies view_fields(
                                        rest@,
                                    )[k] == fspec[items@.len() + k] && #[trigger] view_fields(
                                        rest@,
                                    )[k] == (rest@[k].0@, view_value(rest@[k].1)) by {
                                        assert(rest@[k] == restpre[k + 1]);
                                        assert(view_fields(restpre)[k + 1] == fspec[items@.len()
                                            + k]);
                                    }
                                }
                            }
                            proof {
                                lemma_view_elements(items@);
                                let mapped = fspec.map_values(
                                    |kv: (Seq<char>, ValueModel)| kv.1,
                                );
                                assert(items@.len() == mapped.len());
                                assert forall|k: int| 0 <= k < items@.len() implies view_elements(
                                    items@,
                                )[k] == mapped[k] by {
                                    assert(view_elements(items@)[k] == view_value(items@[k]));
                                    assert(mapped[k] == fspec[k].1);
                                }
                                assert(view_elements(items@) =~= mapped);
                            }
                            Ok((Value::Array(items), j))
                        }
                    },
                    Err(e) => Err(e),
                }
            } else {
                Err(Error::generic("truncated".to_owned()))
            }
        } else {
            Err(Error::generic("truncated".to_owned()))
        }
    } else {
        Err(Error::generic("unknown type".to_owned()))
    }
}

/// Decodes elements up to the terminator position `end`; mirrors
/// [`bparse_elems`].
fn parse_elems_exec(v: &Vec<u8>, i: usize, end: usize, base: usize, Ghost(f): Ghost<nat>) -> (r:
    Result<(Vec<(String, Value)>, usize)>)
    requires
        i <= v@.len(),
        f >= v@.len() - i + 2,
    ensures
        match r {
            Ok((fields, j)) => bparse_elems(v@, i as int, end as int, base as int, f) == Some(
                (view_fields(fields@), j as int),
            ) && i < j <= v@.len(),
            Err(_) => bparse_elems(v@, i as int, end as int, base as int, f) is None,
        },
    decreases v@.len() - i, 1int,
{
    let n = v.len();
    if i == end {
        if end < n {
            let out: Vec<(String, Value)> = Vec::new();
            proof {
                assert(view_fields(out@) =~= Seq::<(Seq<char>, ValueModel)>::empty());
            }
            return Ok((out, end + 1));
        } else {
            return Err(Error::generic("document not ended".to_owned()));
        }
    }
    if !(i < end && end < n) {
        return Err(Error::generic("document not ended".to_owned()));
    }
    let tag = v[i];
    match scan_key(v, i + 1) {
        None => Err(Error::generic("field name".to_owned())),
        Some((key, ke)) => {
            match parse_value_exec(v, tag, ke + 1, base, Ghost((f - 1) as nat)) {
                Err(e) => Err(e),
                Ok((val, j)) => {
                    match parse_elems_exec(v, j, end, base, Ghost((f - 1) as nat)) {
                        Err(e) => Err(e),
                        Ok((mut fields, j2)) => {
                            let ghost fpre = fields@;
                            let ghost keyg = key@;
                            let ghost valg = view_value(val);
                            fields.insert(0, (key, val));
                            proof {
                                lemma_view_fields(fpre);
                                lemma_view_fields(fields@);
                                let target = Seq::empty().push((keyg, valg)) + view_fields(fpre);
                                assert(fields@.len() == fpre.len() + 1);
                                assert(fields@[0].0@ == keyg && view_value(fields@[0].1) == valg);
                                assert forall|k: int| 0 <= k < fields@.len() implies view_fields(
                                    fields@,
                                )[k] == target[k] by {
                                    if k > 0 {
                                        assert(fields@[k] == fpre[k - 1]);
                                        assert(view_fields(fpre)[k - 1] == target[k]);
                                    }
                                }
                                assert(view_fields(fields@) =~= target);
                            }
                            Ok((fields, j2))
                        },
                    }
                },
            }
        },
    }
}

/// The root value element starting at `i`; mirrors [`bparse_root_field`].
fn parse_root_field(v: &Vec<u8>, i: usize, base: usize, Ghost(f): Ghost<nat>) -> (r: Result<Value>)
    requires
        i <= v@.len(),
        f >= v@.len() - i + 3,
    ensures
        match r {
            Ok(val) => bparse_root_field(v@, i as int, base as int, f) == Some(view_value(val)),
            Err(_) => bparse_root_field(v@, i as int, base as int, f) is None,
        },
        ({
            match r {
                Err(e) => (misaligned_elem_at(v@, i as int, base as int) ==> e.kind
                    == crate::error::ErrorKind::NotAligned) && (invalid_string_elem_at(
                    v@,
                    i as int,
                ) ==> e.kind == crate::error::ErrorKind::InvalidUtf8),
                _ => true,
            }
        }),
{
    let n = v.len();
    if i >= n {
        return Err(Error::generic("truncated".to_owned()));
    }
    let tag = v[i];
    match scan_key(v, i + 1) {
        None => Err(Error::generic("field name".to_owned())),
        Some((key, ke)) => {
            match parse_value_exec(v, tag, ke + 1, base, Ghost((f - 1) as nat)) {
                Err(e) => Err(e),
                Ok((val, j)) => {
                    if j < n && n - j == 1 && v[j] == 0 {
                        Ok(val)
                    } else {
                        crate::value::drop_safely(val);
                        Err(Error::generic("root document not ended".to_owned()))
                    }
                },
            }
        },
    }
}

/// Deserialize a binary wire document into a document value.
///
/// `base_align` is the alignment the buffer's start address is known to
/// satisfy; alignment-tagged payloads are accepted only when their
/// position under that base meets their declared alignment.  A root
/// `align` field asking for more than `base_align` is reported as a
/// lower-alignment-rank error; a root value whose alignment-tagged
/// payload misses its declared alignment as a not-aligned error; a root
/// string value that is not UTF-8 as an invalid-UTF-8 error.
pub fn from_bin(b: &[u8], base_align: usize) -> (r: Result<Value>)
    ensures
        match r {
            Ok(val) => spec_parse_bin(b@, base_align as int) == Some(view_value(val)),
            Err(_) => spec_parse_bin(b@, base_align as int) is None,
        },
        ({
            match r {
                Err(e) => (root_align_too_high(b@, base_align as int) ==> e.kind
                    == crate::error::ErrorKind::LowerAlignmentRank) && (!root_key_is_align(b@)
                    && misaligned_elem_at(b@, 4, base_align as int) ==> e.kind
                    == crate::error::ErrorKind::NotAligned) && (!root_key_is_align(b@)
                    && invalid_string_elem_at(b@, 4) ==> e.kind
                    == crate::error::ErrorKind::InvalidUtf8),
                _ => true,
            }
        }),
{
    let v = slice_to_vec(b);
    let n = v.len();
    let ghost f0: nat = (b@.len() + 4) as nat;
    if n < 5 {
        return Err(Error::generic("truncated".to_owned()));
    }
    let tag = v[4];
    match scan_key(&v, 5) {
        None => Err(Error::generic("field name".to_owned())),
        Some((key, ke)) => {
            let kc = crate::chars::to_char_vec(key.as_str());
            let is_align = kc.len() == 5 && kc[0] == 'a' && kc[1] == 'l' && kc[2] == 'i' && kc[3]
                == 'g' && kc[4] == 'n';
            proof {
                if is_align {
                    assert(key_chars(v@, 5, ke as int) =~= seq!['a', 'l', 'i', 'g', 'n']);
                } else {
                    assert(key_chars(v@, 5, ke as int) != seq!['a', 'l', 'i', 'g', 'n']) by {
                        let target = seq!['a', 'l', 'i', 'g', 'n'];
                        if key_chars(v@, 5, ke as int) == target {
                            assert(kc@.len() == 5);
                            assert(kc@[0] == 'a' && kc@[1] == 'l' && kc@[2] == 'i' && kc@[3] == 'g'
                                && kc@[4] == 'n');
                        }
                    }
                }
            }
            if is_align {
                if tag == TAG_U32 && n - ke >= 5 {
                    let al = read_u32_at(&v, ke + 1);
                    if al as usize <= base_align {
                        parse_root_field(&v, ke + 5, base_align, Ghost((f0 - 1) as nat))
                    } else {
                        Err(Error::lower_alignment_rank(al as usize, base_align))
                    }
                } else {
                    Err(Error::not_expected("alignment"))
                }
            } else {
                parse_root_field(&v, 4, base_align, Ghost((f0 - 1) as nat))
            }
        },
    }
}

} // verus!
