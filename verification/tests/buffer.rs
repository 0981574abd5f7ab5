//! The aligned byte buffer: plain writes and offset-based alignment.

use toctoc::buffer::Buffer;

#[test]
fn write_data() {
    let mut buf = Buffer::new();
    assert_eq!(buf.len(), 0);

    let d = &[0u8, 1, 2, 3, 4, 5][..];
    buf.extend_from_slice(d);
    assert_eq!(buf.len(), 6);

    let v = buf.to_vec();
    assert_eq!(v, d.to_vec());
}

#[test]
fn write_data_aligned() {
    let mut buf = Buffer::new();
    let b = &[1u8, 2, 3, 4, 5, 6, 7, 8][..];
    buf.write_u8(1);
    let i = buf.extend_from_slice_aligned(b, 4);
    assert_eq!(i % 4, 0);
    assert_eq!(buf.align(), 4);
    assert_eq!(&buf.to_vec()[i..i + b.len()], b);
}

#[test]
fn write_data_with_mutiple_alignments() {
    let mut buf = Buffer::new();

    // An odd number of bytes on purpose.
    let v: Vec<u8> = vec![0xA5; 53];

    let a = buf.extend_from_slice_aligned(&v, 2);
    let b = buf.extend_from_slice_aligned(&v, 8);
    let c = buf.extend_from_slice_aligned(&v, 16);
    let d = buf.extend_from_slice_aligned(&v, 1);

    assert_eq!(a % 2, 0);
    assert_eq!(b % 8, 0);
    assert_eq!(c % 16, 0);
    assert_eq!(d % 1, 0);
    assert_eq!(buf.align(), 16);

    let out = buf.to_vec();
    assert_eq!(&out[a..a + v.len()], &v[..]);
    assert_eq!(&out[b..b + v.len()], &v[..]);
    assert_eq!(&out[c..c + v.len()], &v[..]);
    assert_eq!(&out[d..d + v.len()], &v[..]);
}

#[test]
fn write_words() {
    let mut buf = Buffer::new();
    buf.write_u32(0x04030201);
    buf.write_i32(-1);
    buf.write_u64(0x0807060504030201);
    buf.write_i64(-2);
    let out = buf.to_vec();
    assert_eq!(&out[0..4], &[1, 2, 3, 4]);
    assert_eq!(&out[4..8], &[0xFF, 0xFF, 0xFF, 0xFF]);
    assert_eq!(&out[8..16], &[1, 2, 3, 4, 5, 6, 7, 8]);
    assert_eq!(&out[16..24], &[0xFE, 0xFF, 0xFF, 0xFF, 0xFF, 0xFF, 0xFF, 0xFF]);
}

#[test]
fn replace_word() {
    let mut buf = Buffer::new();
    buf.write_u32(0);
    buf.write_u8(9);
    buf.replace_u32(0, 0x11223344);
    let out = buf.to_vec();
    assert_eq!(out, vec![0x44, 0x33, 0x22, 0x11, 9]);
}
