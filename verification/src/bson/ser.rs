//! The binary serializer: every emitted byte is pinned by
//! [`format::bson_root`].
//!
//! Documents are written with a length placeholder that is patched once
//! the document body is complete, as the wire format stores sizes ahead of
//! the data.

use vstd::prelude::*;

use crate::buffer::Buffer;
use crate::bson::format::{
    bin_round_ok, bson_arr_elems, bson_elem, bson_elems, bson_root, bson_value, bson_wf, pad_to,
    tag_of, TAG_ALIGNED, TAG_ARRAY, TAG_BINARY, TAG_BOOL, TAG_DOCUMENT, TAG_I64, TAG_NULL,
    TAG_STRING, TAG_U64,
};
use crate::value::{
    lemma_view_elements, lemma_view_fields, view_elements, view_fields, view_value, Number, Value,
    ValueModel,
};

verus! {

/// The tag this value is written with.
fn tag_byte(v: &Value) -> (r: u8)
    ensures
        r == tag_of(view_value(*v)),
{
    match v {
        Value::Null => TAG_NULL,
        Value::Bool(b) => TAG_BOOL,
        Value::Number(m) => match m {
            Number::U64(n) => TAG_U64,
            Number::I64(i) => TAG_I64,
        },
        Value::Str(s) => TAG_STRING,
        Value::Binary { bytes, align } => if *align == 1 {
            TAG_BINARY
        } else {
            TAG_ALIGNED
        },
        Value::Array(es) => TAG_ARRAY,
        Value::Object(fs) => TAG_DOCUMENT,
    }
}

/// Writes the payload of `v`, whose first byte lands at the current buffer
/// length.
fn emit_value(buf: &mut Buffer, v: &Value)
    requires
        bson_wf(view_value(*v)),
        old(buf)@.len() + bson_value(view_value(*v), old(buf)@.len() as int).len() <= u32::MAX,
    ensures
        final(buf)@ == old(buf)@ + bson_value(view_value(*v), old(buf)@.len() as int),
    decreases *v, 0int, 0int,
{
    let ghost pos = buf@.len() as int;
    match v {
        Value::Null => {
            proof {
                assert(final(buf)@ =~= old(buf)@ + bson_value(view_value(*v), pos));
            }
        },
        Value::Bool(b) => {
            buf.write_u8(if *b {
                1
            } else {
                0
            });
            proof {
                assert(final(buf)@ =~= old(buf)@ + bson_value(view_value(*v), pos));
            }
        },
        Value::Number(m) => {
            match m {
                Number::U64(n) => buf.write_u64(*n),
                Number::I64(i) => buf.write_i64(*i),
            }
        },
        Value::Str(s) => {
            let bytes = s.as_str().as_bytes();
            let blen = bytes.len();
            proof {
                assert(bytes@.len() + 1 <= u32::MAX);
            }
            buf.write_u32((blen + 1) as u32);
            buf.extend_from_slice(bytes);
            buf.write_u8(0);
            proof {
                assert(final(buf)@ =~= old(buf)@ + bson_value(view_value(*v), pos));
            }
        },
        Value::Binary { bytes, align } => {
            let blen = bytes.len();
            if *align == 1 {
                buf.write_u32(blen as u32);
                buf.extend_from_slice(bytes.as_slice());
                proof {
                    assert(final(buf)@ =~= old(buf)@ + bson_value(view_value(*v), pos));
                }
            } else {
                let start = buf.len();
                buf.write_u32(blen as u32);
                buf.write_u32(*align as u32);
                let offset = (*align - (start + 12) % *align) % *align;
                proof {
                    assert(offset as int == pad_to(pos + 12, *align as int));
                }
                buf.write_u32(offset as u32);
                buf.extend_repeating(0, offset);
                buf.extend_from_slice(bytes.as_slice());
                proof {
                    assert(final(buf)@ =~= old(buf)@ + bson_value(view_value(*v), pos));
                }
            }
        },
        Value::Array(es) => {
            proof {
                lemma_view_elements(es@);
            }
            let start = buf.len();
            buf.write_u32(0);
            proof {
                let body = bson_arr_elems(view_elements(es@), pos + 4);
                assert(view_elements(es@).skip(0) =~= view_elements(es@));
                assert(bson_value(view_value(*v), pos) == crate::bytes::u32_le_bytes(
                    (body.len() + 5) as u32,
                ) + body + seq![0u8]);
                assert(buf@.len() == pos + 4);
            }
            emit_arr_elems(buf, es, 0);
            buf.write_u8(0);
            let total = buf.len() - start;
            buf.replace_u32(start, total as u32);
            proof {
                let body = bson_arr_elems(view_elements(es@), pos + 4);
                assert(final(buf)@ =~= old(buf)@ + (crate::bytes::u32_le_bytes(
                    (body.len() + 5) as u32,
                ) + body + seq![0u8]));
            }
        },
        Value::Object(fs) => {
            proof {
                lemma_view_fields(fs@);
            }
            let start = buf.len();
            buf.write_u32(0);
            proof {
                let body = bson_elems(view_fields(fs@), pos + 4);
                assert(view_fields(fs@).skip(0) =~= view_fields(fs@));
                assert(bson_value(view_value(*v), pos) == crate::bytes::u32_le_bytes(
                    (body.len() + 5) as u32,
                ) + body + seq![0u8]);
                assert(buf@.len() == pos + 4);
            }
            emit_elems(buf, fs, 0);
            buf.write_u8(0);
            let total = buf.len() - start;
            buf.replace_u32(start, total as u32);
            proof {
                let body = bson_elems(view_fields(fs@), pos + 4);
                assert(final(buf)@ =~= old(buf)@ + (crate::bytes::u32_le_bytes(
                    (body.len() + 5) as u32,
                ) + body + seq![0u8]));
            }
        },
    }
}

/// Writes the elements of `fs` from index `i` on.
fn emit_elems(buf: &mut Buffer, fs: &Vec<(String, Value)>, i: usize)
    requires
        i <= fs@.len(),
        forall|j: int|
            i <= j < fs@.len() ==> crate::bson::format::bson_key_ok(
                #[trigger] view_fields(fs@)[j].0,
            ) && bson_wf(view_fields(fs@)[j].1),
        view_fields(fs@).len() == fs@.len(),
        forall|j: int|
            0 <= j < fs@.len() ==> #[trigger] view_fields(fs@)[j] == (fs@[j].0@, view_value(
                fs@[j].1,
            )),
        old(buf)@.len() + bson_elems(view_fields(fs@).skip(i as int), old(buf)@.len() as int).len()
            <= u32::MAX,
    ensures
        final(buf)@ == old(buf)@ + bson_elems(
            view_fields(fs@).skip(i as int),
            old(buf)@.len() as int,
        ),
    decreases fs, fs@.len() - i, 1int,
{
    let ghost pos = buf@.len() as int;
    let ghost gfs = view_fields(fs@);
    if i >= fs.len() {
        proof {
            assert(gfs.skip(i as int).len() == 0);
            assert(final(buf)@ =~= old(buf)@ + bson_elems(gfs.skip(i as int), pos));
        }
        return ;
    }
    proof {
        assert(gfs.skip(i as int)[0] == gfs[i as int]);
        assert(gfs.skip(i as int).drop_first() =~= gfs.skip(i as int + 1));
    }
    let key: &String = &fs[i].0;
    let child: &Value = &fs[i].1;
    let tag = tag_byte(child);
    buf.write_u8(tag);
    buf.extend_from_slice(key.as_str().as_bytes());
    buf.write_u8(0);
    let ghost elem = bson_elem(gfs[i as int].0, gfs[i as int].1, pos);
    proof {
        assert(buf@ =~= old(buf)@ + (seq![tag_of(gfs[i as int].1)] + vstd::utf8::encode_utf8(
            gfs[i as int].0,
        ) + seq![0u8]));
    }
    emit_value(buf, child);
    proof {
        assert(buf@ =~= old(buf)@ + elem);
    }
    emit_elems(buf, fs, i + 1);
    proof {
        assert(final(buf)@ =~= old(buf)@ + (elem + bson_elems(
            gfs.skip(i as int + 1),
            pos + elem.len(),
        )));
        assert(final(buf)@ =~= old(buf)@ + bson_elems(gfs.skip(i as int), pos));
    }
}

/// Writes the elements of `es` from index `i` on, with empty names.
fn emit_arr_elems(buf: &mut Buffer, es: &Vec<Value>, i: usize)
    requires
        i <= es@.len(),
        forall|j: int| i <= j < es@.len() ==> bson_wf(#[trigger] view_elements(es@)[j]),
        view_elements(es@).len() == es@.len(),
        forall|j: int| 0 <= j < es@.len() ==> #[trigger] view_elements(es@)[j] == view_value(es@[j]),
        old(buf)@.len() + bson_arr_elems(
            view_elements(es@).skip(i as int),
            old(buf)@.len() as int,
        ).len() <= u32::MAX,
    ensures
        final(buf)@ == old(buf)@ + bson_arr_elems(
            view_elements(es@).skip(i as int),
            old(buf)@.len() as int,
        ),
    decreases es, es@.len() - i, 1int,
{
    let ghost pos = buf@.len() as int;
    let ghost ges = view_elements(es@);
    if i >= es.len() {
        proof {
            assert(ges.skip(i as int).len() == 0);
            assert(final(buf)@ =~= old(buf)@ + bson_arr_elems(ges.skip(i as int), pos));
        }
        return ;
    }
    proof {
        assert(ges.skip(i as int)[0] == ges[i as int]);
        assert(ges.skip(i as int).drop_first() =~= ges.skip(i as int + 1));
    }
    let child: &Value = &es[i];
    let tag = tag_byte(child);
    buf.write_u8(tag);
    buf.write_u8(0);
    let ghost elem = seq![tag_of(ges[i as int]), 0u8] + bson_value(ges[i as int], pos + 2);
    proof {
        assert(buf@ =~= old(buf)@ + seq![tag_of(ges[i as int]), 0u8]);
    }
    emit_value(buf, child);
    proof {
        assert(buf@ =~= old(buf)@ + elem);
    }
    emit_arr_elems(buf, es, i + 1);
    proof {
        assert(final(buf)@ =~= old(buf)@ + (elem + bson_arr_elems(
            ges.skip(i as int + 1),
            pos + elem.len(),
        )));
        assert(final(buf)@ =~= old(buf)@ + bson_arr_elems(ges.skip(i as int), pos));
    }
}

/// Serializer for the binary format; wraps the aligned byte buffer.
pub struct BsonSer {
    buffer: Buffer,
}

impl BsonSer {
    /// A serializer that has not written anything yet.
    pub closed spec fn is_fresh(&self) -> bool {
        self.buffer@ == Seq::<u8>::empty()
    }

    pub fn new() -> (r: Self)
        ensures
            r.is_fresh(),
    {
        BsonSer { buffer: Buffer::new() }
    }

    /// Writes `value` wrapped in the root document and hands the bytes
    /// out.
    ///
    /// The output carries no root alignment metadata, so it decodes
    /// against the default base alignment: every alignment-tagged payload
    /// must declare a power of two no higher than
    /// [`crate::buffer::ALIGNMENT`].  Data asking for more is refused
    /// here, as emitting it would only produce a document the default
    /// reader rejects.
    pub fn serialize(self, value: &Value) -> (r: Vec<u8>)
        requires
            self.is_fresh(),
            bson_wf(view_value(*value)),
            bson_root(view_value(*value)).len() <= u32::MAX,
            bin_round_ok(view_value(*value), 6, crate::buffer::ALIGNMENT as int),
        ensures
            r@ == bson_root(view_value(*value)),
    {
        let mut buf = self.buffer;
        let ghost gv = view_value(*value);
        let ghost root_fields = Seq::<(Seq<char>, ValueModel)>::empty().push(
            (Seq::<char>::empty(), gv),
        );
        proof {
            assert(vstd::utf8::encode_utf8(Seq::<char>::empty()) =~= Seq::<u8>::empty());
            assert(root_fields.skip(0) =~= root_fields);
            assert(root_fields.drop_first() =~= Seq::<(Seq<char>, ValueModel)>::empty());
            assert(bson_elems(root_fields, 4) =~= bson_elem(Seq::<char>::empty(), gv, 4)
                + bson_elems(Seq::empty(), 4 + bson_elem(Seq::<char>::empty(), gv, 4).len() as int));
            assert(bson_elem(Seq::<char>::empty(), gv, 4) =~= seq![tag_of(gv), 0u8] + bson_value(
                gv,
                6,
            ));
        }
        let tag = tag_byte(value);
        buf.write_u32(0);
        buf.write_u8(tag);
        buf.write_u8(0);
        proof {
            assert(buf@ =~= seq![0u8, 0u8, 0u8, 0u8, tag_of(gv), 0u8]);
        }
        emit_value(&mut buf, value);
        buf.write_u8(0);
        let total = buf.len();
        buf.replace_u32(0, total as u32);
        proof {
            let body = bson_elems(root_fields, 4);
            assert(buf@ =~= crate::bytes::u32_le_bytes((body.len() + 5) as u32) + body
                + seq![0u8]);
            assert(buf@ =~= bson_root(gv));
        }
        buf.to_vec()
    }
}

/// Serialize any document value into the binary wire format.
///
/// The whole encoding must fit a document length field; keys must be
/// ASCII and every binary alignment representable.  Alignment-tagged
/// payloads must stay within the default base alignment
/// ([`crate::buffer::ALIGNMENT`]): the output carries no root alignment
/// metadata, so an over-aligned payload would only yield a document the
/// default-base reader rejects.
pub fn to_bin(value: &Value) -> (r: Vec<u8>)
    requires
        bson_wf(view_value(*value)),
        bson_root(view_value(*value)).len() <= u32::MAX,
        bin_round_ok(view_value(*value), 6, crate::buffer::ALIGNMENT as int),
    ensures
        r@ == bson_root(view_value(*value)),
{
    BsonSer::new().serialize(value)
}

} // verus!
