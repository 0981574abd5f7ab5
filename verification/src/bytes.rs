//! Binary-alignment utilities and the byte-oriented wrapper types.
//!
//! Addresses are handled as plain `usize` values here: the caller that owns
//! a real pointer turns it into its address and the verified logic decides
//! what alignment that address can guarantee.

use vstd::prelude::*;

verus! {

/// Wrapper around a slice-like or vector-like payload that should travel
/// over the wire as raw bytes rather than as a sequence of numbers.
#[derive(Debug, PartialEq)]
pub struct Bytes<T>(pub T);

impl<T> Bytes<T> {
    pub fn new(val: T) -> (r: Self)
        ensures
            r.0 == val,
    {
        Bytes(val)
    }
}

/// Binary data together with the alignment its consumer requires.
///
/// The textual format carries it as a sigil-prefixed hex string, the binary
/// format as a plain or alignment-tagged binary element.
#[derive(Debug, PartialEq)]
pub struct Bin(pub Vec<u8>);

impl Bin {
    /// Turns the payload into a document value that asks for `align`.
    pub fn into_value(self, align: usize) -> (r: crate::value::Value)
        ensures
            crate::value::view_value(r) == (crate::value::ValueModel::Binary {
                bytes: self.0@,
                align,
            }),
    {
        crate::value::Value::Binary { bytes: self.0, align }
    }
}

/// Best alignment guess for the address `p`.
///
/// The largest power of two out of the fixed set 1, 2, 4, 8, 16, 32 that
/// divides the address.  A higher rank means the memory can hold any type
/// with a lower alignment requirement; the guess is conservative, so an
/// address divisible by more than 32 still answers 32.
pub open spec fn spec_guess_align_of(p: usize) -> usize {
    if p & 1 != 0 {
        1
    } else if p & 2 != 0 {
        2
    } else if p & 4 != 0 {
        4
    } else if p & 8 != 0 {
        8
    } else if p & 16 != 0 {
        16
    } else {
        32
    }
}

/// Best memory alignment guess for the address `p`: the highest rank of
/// the fixed set 1, 2, 4, 8, 16, 32 such that `p` is a multiple of it.
pub fn guess_align_of(p: usize) -> (r: usize)
    ensures
        r == spec_guess_align_of(p),
{
    if p & 1 != 0 {
        1
    } else if p & 2 != 0 {
        2
    } else if p & 4 != 0 {
        4
    } else if p & 8 != 0 {
        8
    } else if p & 16 != 0 {
        16
    } else {
        32
    }
}

/// The guessed alignment really divides the address, and is exact within
/// the fixed set: below its top, twice the guess does not divide the
/// address.
pub proof fn lemma_guess_align_of_exact(p: usize)
    ensures
        p as int % spec_guess_align_of(p) as int == 0,
        spec_guess_align_of(p) < 32 ==> p as int % (2 * spec_guess_align_of(p) as int) != 0,
{
    let r = spec_guess_align_of(p);
    if p & 1 != 0 {
        assert(p as int % 1int == 0);
        assert(p as int % 2int != 0) by (bit_vector)
            requires
                p & 1 != 0,
        ;
    } else if p & 2 != 0 {
        assert(p as int % 2int == 0 && p as int % 4int != 0) by (bit_vector)
            requires
                p & 1 == 0 && p & 2 != 0,
        ;
    } else if p & 4 != 0 {
        assert(p as int % 4int == 0 && p as int % 8int != 0) by (bit_vector)
            requires
                p & 1 == 0 && p & 2 == 0 && p & 4 != 0,
        ;
    } else if p & 8 != 0 {
        assert(p as int % 8int == 0 && p as int % 16int != 0) by (bit_vector)
            requires
                p & 1 == 0 && p & 2 == 0 && p & 4 == 0 && p & 8 != 0,
        ;
    } else if p & 16 != 0 {
        assert(p as int % 16int == 0 && p as int % 32int != 0) by (bit_vector)
            requires
                p & 1 == 0 && p & 2 == 0 && p & 4 == 0 && p & 8 == 0 && p & 16 != 0,
        ;
    } else {
        assert(p as int % 32int == 0) by (bit_vector)
            requires
                p & 1 == 0 && p & 2 == 0 && p & 4 == 0 && p & 8 == 0 && p & 16 == 0,
        ;
    }
}

/// Little-endian bytes of a `u32`.
pub open spec fn u32_le_bytes(n: u32) -> Seq<u8> {
    seq![
        (n as int % 256) as u8,
        (n as int / 256 % 256) as u8,
        (n as int / 65536 % 256) as u8,
        (n as int / 16777216 % 256) as u8,
    ]
}

/// Little-endian bytes of a `u64`.
pub open spec fn u64_le_bytes(n: u64) -> Seq<u8> {
    seq![
        (n as int % 256) as u8,
        (n as int / 256 % 256) as u8,
        (n as int / 65536 % 256) as u8,
        (n as int / 16777216 % 256) as u8,
        (n as int / 0x100000000 % 256) as u8,
        (n as int / 0x10000000000 % 256) as u8,
        (n as int / 0x1000000000000 % 256) as u8,
        (n as int / 0x100000000000000 % 256) as u8,
    ]
}

/// The `u32` whose two's-complement bits equal those of `n`.
pub open spec fn u32_of_i32(n: i32) -> u32 {
    if n >= 0 {
        n as u32
    } else {
        (n as int + 0x100000000) as u32
    }
}

/// The `u64` whose two's-complement bits equal those of `n`.
pub open spec fn u64_of_i64(n: i64) -> u64 {
    if n >= 0 {
        n as u64
    } else {
        (n as int + 0x10000000000000000) as u64
    }
}

/// Little-endian bytes of an `i32` (two's complement).
pub open spec fn i32_le_bytes(n: i32) -> Seq<u8> {
    u32_le_bytes(u32_of_i32(n))
}

/// Little-endian bytes of an `i64` (two's complement).
pub open spec fn i64_le_bytes(n: i64) -> Seq<u8> {
    u64_le_bytes(u64_of_i64(n))
}

/// The `u32` stored little-endian at index `i` of `b`.
pub open spec fn u32_at(b: Seq<u8>, i: int) -> u32 {
    (b[i] as int + 256 * b[i + 1] as int + 65536 * b[i + 2] as int + 16777216 * b[i + 3] as int)
        as u32
}

/// The `u64` stored little-endian at index `i` of `b`.
pub open spec fn u64_at(b: Seq<u8>, i: int) -> u64 {
    (b[i] as int + 0x100 * b[i + 1] as int + 0x10000 * b[i + 2] as int + 0x1000000 * b[i
        + 3] as int + 0x100000000 * b[i + 4] as int + 0x10000000000 * b[i + 5] as int
        + 0x1000000000000 * b[i + 6] as int + 0x100000000000000 * b[i + 7] as int) as u64
}

/// The `i64` whose two's-complement bits equal those of `n`.
pub open spec fn i64_of_u64(n: u64) -> i64 {
    if n < 0x8000000000000000 {
        n as i64
    } else {
        (n as int - 0x10000000000000000) as i64
    }
}

/// The `i32` whose two's-complement bits equal those of `n`.
pub open spec fn i32_of_u32(n: u32) -> i32 {
    if n < 0x80000000 {
        n as i32
    } else {
        (n as int - 0x100000000) as i32
    }
}

/// A positive power of two.
pub open spec fn is_pow2(a: int) -> bool
    decreases a,
{
    if a <= 0 {
        false
    } else if a == 1 {
        true
    } else {
        a % 2 == 0 && is_pow2(a / 2)
    }
}

} // verus!
