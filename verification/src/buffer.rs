//! The growable byte buffer that frames are read from and written to
//! (`bytes::BytesMut`), and the big-endian integer readers of `byteorder`,
//! as the framing code sees them.

use byteorder::ByteOrder;
use bytes::BytesMut;
use vstd::prelude::*;

verus! {

#[verifier::external_type_specification]
#[verifier::external_body]
pub struct ExBytesMut(BytesMut);

/// The bytes that a buffer holds, front first.
pub uninterp spec fn buffer_bytes(b: BytesMut) -> Seq<u8>;

/// The two bytes of `v`, most significant first.
pub open spec fn u16_be_bytes(v: u16) -> Seq<u8> {
    seq![(v / 0x100) as u8, (v % 0x100) as u8]
}

/// The four bytes of `v`, most significant first.
pub open spec fn u32_be_bytes(v: u32) -> Seq<u8> {
    seq![
        (v / 0x100_0000) as u8,
        ((v / 0x1_0000) % 0x100) as u8,
        ((v / 0x100) % 0x100) as u8,
        (v % 0x100) as u8,
    ]
}

/// The number that the first two bytes of `s` spell, most significant first.
pub open spec fn be_u16_value(s: Seq<u8>) -> int {
    s[0] * 0x100 + s[1]
}

/// The number that the first four bytes of `s` spell, most significant first.
pub open spec fn be_u32_value(s: Seq<u8>) -> int {
    s[0] * 0x100_0000 + s[1] * 0x1_0000 + s[2] * 0x100 + s[3]
}

/// `BytesMut::len`: the number of bytes held.
#[verifier::external_body]
pub(crate) fn buffer_len(b: &BytesMut) -> (n: usize)
    ensures
        n == buffer_bytes(*b).len(),
{
    b.len()
}

/// The number of bytes a buffer holds, for callers that must show the
/// bounds that the framing functions require.
pub fn buffered_len(b: &BytesMut) -> (n: usize)
    ensures
        n == buffer_bytes(*b).len(),
{
    buffer_len(b)
}

/// `<BytesMut as AsRef<[u8]>>::as_ref`: the bytes held, as a slice.
#[verifier::external_body]
pub(crate) fn buffer_as_slice(b: &BytesMut) -> (s: &[u8])
    ensures
        s@ == buffer_bytes(*b),
{
    b.as_ref()
}

/// `BytesMut::split_to`: takes the first `at` bytes off the front and hands
/// them back as a buffer of their own (it panics when `at` exceeds the
/// length, which `requires` rules out).
#[verifier::external_body]
pub(crate) fn buffer_split_to(b: &mut BytesMut, at: usize) -> (head: BytesMut)
    requires
        at <= buffer_bytes(*old(b)).len(),
    ensures
        buffer_bytes(head) == buffer_bytes(*old(b)).take(at as int),
        buffer_bytes(*final(b)) == buffer_bytes(*old(b)).skip(at as int),
{
    b.split_to(at)
}

/// `<BytesMut as Buf>::advance`: drops the first `cnt` bytes (it panics when
/// `cnt` exceeds the length, which `requires` rules out).
#[verifier::external_body]
pub(crate) fn buffer_advance(b: &mut BytesMut, cnt: usize)
    requires
        cnt <= buffer_bytes(*old(b)).len(),
    ensures
        buffer_bytes(*final(b)) == buffer_bytes(*old(b)).skip(cnt as int),
{
    bytes::Buf::advance(b, cnt)
}

/// `BytesMut::reserve`: makes room for `additional` more bytes without
/// changing what is held (it panics when the capacity would pass
/// `isize::MAX`, which `requires` rules out).
#[verifier::external_body]
pub(crate) fn buffer_reserve(b: &mut BytesMut, additional: usize)
    requires
        buffer_bytes(*old(b)).len() + additional <= isize::MAX,
    ensures
        buffer_bytes(*final(b)) == buffer_bytes(*old(b)),
{
    b.reserve(additional)
}

/// `BytesMut::extend_from_slice`: appends the bytes of `s`.
#[verifier::external_body]
pub(crate) fn buffer_extend_from_slice(b: &mut BytesMut, s: &[u8])
    requires
        buffer_bytes(*old(b)).len() + s@.len() <= isize::MAX,
    ensures
        buffer_bytes(*final(b)) == buffer_bytes(*old(b)) + s@,
{
    b.extend_from_slice(s)
}

/// `<BytesMut as BufMut>::put` with a byte slice as the source: appends its
/// bytes.
#[verifier::external_body]
pub(crate) fn buffer_put(b: &mut BytesMut, s: &[u8])
    requires
        buffer_bytes(*old(b)).len() + s@.len() <= isize::MAX,
    ensures
        buffer_bytes(*final(b)) == buffer_bytes(*old(b)) + s@,
{
    bytes::BufMut::put(b, s)
}

/// `<BytesMut as BufMut>::put_u16`: appends `v` in big-endian order.
#[verifier::external_body]
pub(crate) fn buffer_put_u16(b: &mut BytesMut, v: u16)
    requires
        buffer_bytes(*old(b)).len() + 2 <= isize::MAX,
    ensures
        buffer_bytes(*final(b)) == buffer_bytes(*old(b)) + u16_be_bytes(v),
{
    bytes::BufMut::put_u16(b, v)
}

/// `<&mut [u8] as BufMut>::put_u32` on the held bytes from `pos` on:
/// overwrites the four bytes at `pos` with `v` in big-endian order (it
/// panics when fewer than four bytes follow `pos`, which `requires` rules
/// out).
#[verifier::external_body]
pub(crate) fn buffer_put_u32_at(b: &mut BytesMut, pos: usize, v: u32)
    requires
        pos + 4 <= buffer_bytes(*old(b)).len(),
    ensures
        buffer_bytes(*final(b)) == buffer_bytes(*old(b)).take(pos as int) + u32_be_bytes(v)
            + buffer_bytes(*old(b)).skip(pos + 4),
{
    let mut window: &mut [u8] = &mut b[pos..];
    bytes::BufMut::put_u32(&mut window, v)
}

/// `<byteorder::BigEndian as ByteOrder>::read_u16`: the number that the
/// first two bytes spell, most significant first (it panics on fewer than
/// two bytes, which `requires` rules out).
#[verifier::external_body]
pub(crate) fn read_u16_be(buf: &[u8]) -> (v: u16)
    requires
        buf@.len() >= 2,
    ensures
        v == be_u16_value(buf@),
{
    byteorder::BigEndian::read_u16(buf)
}

/// `<byteorder::BigEndian as ByteOrder>::read_u32`: the number that the
/// first four bytes spell, most significant first (it panics on fewer than
/// four bytes, which `requires` rules out).
#[verifier::external_body]
pub(crate) fn read_u32_be(buf: &[u8]) -> (v: u32)
    requires
        buf@.len() >= 4,
    ensures
        v == be_u32_value(buf@),
{
    byteorder::BigEndian::read_u32(buf)
}

} // verus!
