//! Memory-alignment-aware byte buffer for binary serialization.
//!
//! Padding is computed over offsets from the buffer start: the buffer
//! records the highest alignment any payload asked for, and a consumer that
//! places the finished bytes at an address of that alignment finds every
//! padded payload at its required alignment.

use vstd::pervasive::VecAdditionalExecFns;
use vstd::prelude::*;

verus! {

/// Buffer start alignment every binary document assumes by default.
pub const ALIGNMENT: usize = 4;

/// Like a byte `Vec`, with offset-based padding support: the buffer keeps
/// track of the maximum alignment requirement of anything written through
/// [`Buffer::extend_from_slice_aligned`].
pub struct Buffer {
    data: Vec<u8>,
    ptr_align: usize,
}

impl View for Buffer {
    type V = Seq<u8>;

    closed spec fn view(&self) -> Seq<u8> {
        self.data@
    }
}

impl Buffer {
    /// Highest alignment requirement recorded so far.
    pub closed spec fn spec_align(&self) -> usize {
        self.ptr_align
    }

    pub fn new() -> (r: Self)
        ensures
            r@ == Seq::<u8>::empty(),
            r.spec_align() == ALIGNMENT,
    {
        Buffer { data: Vec::new(), ptr_align: ALIGNMENT }
    }

    pub fn len(&self) -> (r: usize)
        ensures
            r == self@.len(),
    {
        self.data.len()
    }

    /// Highest alignment requirement recorded so far.
    pub fn align(&self) -> (r: usize)
        ensures
            r == self.spec_align(),
    {
        self.ptr_align
    }

    pub fn as_slice(&self) -> (r: &[u8])
        ensures
            r@ == self@,
    {
        self.data.as_slice()
    }

    pub fn to_vec(self) -> (r: Vec<u8>)
        ensures
            r@ == self@,
    {
        self.data
    }

    pub fn extend_from_slice(&mut self, slice: &[u8])
        ensures
            final(self)@ == old(self)@ + slice@,
            final(self).spec_align() == old(self).spec_align(),
    {
        self.data.extend_from_slice(slice);
    }

    /// Extends the buffer repeating the byte `val` `times` times.
    pub fn extend_repeating(&mut self, val: u8, times: usize)
        requires
            old(self)@.len() + times <= usize::MAX,
        ensures
            final(self)@ == old(self)@ + Seq::new(times as nat, |i: int| val),
            final(self).spec_align() == old(self).spec_align(),
    {
        let mut i: usize = 0;
        while i < times
            invariant
                i <= times,
                self@ == old(self)@ + Seq::new(i as nat, |j: int| val),
                self.spec_align() == old(self).spec_align(),
            decreases times - i,
        {
            let ghost pre = self@;
            self.data.push(val);
            i = i + 1;
            proof {
                assert(self@ =~= old(self)@ + Seq::new(i as nat, |j: int| val));
            }
        }
        proof {
            assert(final(self)@ =~= old(self)@ + Seq::new(times as nat, |i: int| val));
        }
    }

    /// Extends the buffer with `slice`, padded with zero bytes so that the
    /// written bytes start at an offset that is a multiple of `align`
    /// (counted from the buffer start).  Records `align` as the buffer's
    /// requirement when it exceeds the current one, and returns the offset
    /// at which `slice` begins.
    pub fn extend_from_slice_aligned(&mut self, slice: &[u8], align: usize) -> (start: usize)
        requires
            align >= 1,
            old(self)@.len() + align + slice@.len() <= usize::MAX,
        ensures
            start as int % align as int == 0,
            old(self)@.len() <= start < old(self)@.len() + align,
            final(self)@ == old(self)@ + Seq::new((start - old(self)@.len()) as nat, |i: int| 0u8)
                + slice@,
            final(self).spec_align() == if align > old(self).spec_align() {
                align
            } else {
                old(self).spec_align()
            },
    {
        let len = self.data.len();
        let padding = (align - len % align) % align;
        proof {
            let l = len as int;
            let a = align as int;
            vstd::arithmetic::div_mod::lemma_fundamental_div_mod(l, a);
            let q = l / a;
            let r = l % a;
            vstd::arithmetic::div_mod::lemma_mod_bound(l, a);
            if r == 0 {
                vstd::arithmetic::div_mod::lemma_mod_self_0(a);
                assert(padding == 0);
                assert((l + padding) % a == 0) by {
                    vstd::arithmetic::div_mod::lemma_mod_multiples_basic(q, a);
                }
            } else {
                vstd::arithmetic::div_mod::lemma_small_mod((a - r) as nat, a as nat);
                assert(padding == a - r);
                assert(l + padding == (q + 1) * a) by {
                    assert((q + 1) * a == q * a + a) by (nonlinear_arith);
                }
                assert((l + padding) % a == 0) by {
                    vstd::arithmetic::div_mod::lemma_mod_multiples_basic(q + 1, a);
                }
            }
        }
        if align > self.ptr_align {
            self.ptr_align = align;
        }
        self.extend_repeating(0, padding);
        let start = self.data.len();
        self.extend_from_slice(slice);
        start
    }

    /// Appends the little-endian bytes of `value`.
    pub fn write_u8(&mut self, value: u8)
        ensures
            final(self)@ == old(self)@.push(value),
            final(self).spec_align() == old(self).spec_align(),
    {
        self.data.push(value);
    }

    /// Appends the little-endian bytes of `value`.
    pub fn write_u32(&mut self, value: u32)
        ensures
            final(self)@ == old(self)@ + crate::bytes::u32_le_bytes(value),
            final(self).spec_align() == old(self).spec_align(),
    {
        self.data.push((value % 256) as u8);
        self.data.push((value / 256 % 256) as u8);
        self.data.push((value / 65536 % 256) as u8);
        self.data.push((value / 16777216 % 256) as u8);
        proof {
            assert(final(self)@ =~= old(self)@ + crate::bytes::u32_le_bytes(value));
        }
    }

    /// Appends the little-endian bytes of `value`.
    pub fn write_i32(&mut self, value: i32)
        ensures
            final(self)@ == old(self)@ + crate::bytes::i32_le_bytes(value),
            final(self).spec_align() == old(self).spec_align(),
    {
        let wide: i64 = value as i64;
        let bits: u32 = if wide >= 0 {
            wide as u32
        } else {
            (wide + 0x100000000) as u32
        };
        self.write_u32(bits);
    }

    /// Appends the little-endian bytes of `value`.
    pub fn write_u64(&mut self, value: u64)
        ensures
            final(self)@ == old(self)@ + crate::bytes::u64_le_bytes(value),
            final(self).spec_align() == old(self).spec_align(),
    {
        self.data.push((value % 256) as u8);
        self.data.push((value / 256 % 256) as u8);
        self.data.push((value / 65536 % 256) as u8);
        self.data.push((value / 16777216 % 256) as u8);
        self.data.push((value / 0x100000000 % 256) as u8);
        self.data.push((value / 0x10000000000 % 256) as u8);
        self.data.push((value / 0x1000000000000 % 256) as u8);
        self.data.push((value / 0x100000000000000 % 256) as u8);
        proof {
            assert(final(self)@ =~= old(self)@ + crate::bytes::u64_le_bytes(value));
        }
    }

    /// Appends the little-endian bytes of `value`.
    pub fn write_i64(&mut self, value: i64)
        ensures
            final(self)@ == old(self)@ + crate::bytes::i64_le_bytes(value),
            final(self).spec_align() == old(self).spec_align(),
    {
        let bits: u64 = if value >= 0 {
            value as u64
        } else {
            let wide: u64 = (value + 0x4000000000000000 + 0x4000000000000000) as u64;
            wide + 0x8000000000000000
        };
        assert(bits == crate::bytes::u64_of_i64(value));
        self.write_u64(bits);
    }

    /// Overwrites the four bytes at `index` with the little-endian bytes of
    /// `value`; bytes past the end of the buffer are not written.
    pub fn replace_u32(&mut self, index: usize, value: u32)
        requires
            index + 4 <= old(self)@.len(),
        ensures
            final(self)@.len() == old(self)@.len(),
            final(self).spec_align() == old(self).spec_align(),
            forall|i: int|
                0 <= i < old(self)@.len() ==> final(self)@[i] == if index <= i < index + 4 {
                    crate::bytes::u32_le_bytes(value)[i - index]
                } else {
                    old(self)@[i]
                },
    {
        let n = self.data.len();
        assert(index + 4 <= n);
        self.data.set(index, (value % 256) as u8);
        self.data.set(index + 1, (value / 256 % 256) as u8);
        self.data.set(index + 2, (value / 65536 % 256) as u8);
        self.data.set(index + 3, (value / 16777216 % 256) as u8);
    }
}

} // verus!
