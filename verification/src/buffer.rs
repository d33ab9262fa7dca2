//! The byte buffers of the `bytes` crate, as the rest of the library sees them.
//!
//! The two buffer types are opaque. What each of them holds is given a name, and
//! every operation that the library uses states its effect over that name.

use bytes::{Buf, BufMut, Bytes, BytesMut};
use vstd::prelude::*;

verus! {

/// `bytes::Bytes`: an immutable, cheaply sliced run of bytes.
#[verifier::external_type_specification]
#[verifier::external_body]
pub struct ExBytes(bytes::Bytes);

/// `bytes::BytesMut`: a growable buffer that bytes are appended to.
#[verifier::external_type_specification]
#[verifier::external_body]
pub struct ExBytesMut(bytes::BytesMut);

/// The bytes that a `bytes::Bytes` holds, in order.
pub uninterp spec fn bytes_content(b: bytes::Bytes) -> Seq<u8>;

/// The bytes that a `bytes::BytesMut` holds, in order.
pub uninterp spec fn buffer_content(b: bytes::BytesMut) -> Seq<u8>;

/// `bytes::Bytes::len`: the number of bytes held.
#[verifier::external_body]
pub(crate) fn bytes_len(b: &Bytes) -> (n: usize)
    ensures
        n == bytes_content(*b).len(),
        n <= isize::MAX,
{
    b.len()
}

/// `<bytes::Bytes as Clone>::clone`: another handle on the same bytes.
pub assume_specification[ <bytes::Bytes as Clone>::clone ](b: &bytes::Bytes) -> (r: bytes::Bytes)
    ensures
        bytes_content(r) == bytes_content(*b),
;

/// `bytes::Bytes::slice` on a half-open range: the bytes at the positions
/// `start..end`. It panics unless `start <= end <= len`.
#[verifier::external_body]
pub(crate) fn bytes_slice(b: &Bytes, start: usize, end: usize) -> (r: Bytes)
    requires
        start <= end <= bytes_content(*b).len(),
    ensures
        bytes_content(r) == bytes_content(*b).subrange(start as int, end as int),
{
    b.slice(start..end)
}

/// `bytes::Bytes::copy_from_slice`: a new buffer that holds a copy of `data`.
#[verifier::external_body]
pub(crate) fn bytes_from_slice(data: &[u8]) -> (r: Bytes)
    ensures
        bytes_content(r) == data@,
{
    Bytes::copy_from_slice(data)
}

/// `<bytes::Bytes as AsRef<[u8]>>::as_ref`: the bytes held, as a slice.
#[verifier::external_body]
pub(crate) fn bytes_as_slice(b: &Bytes) -> (r: &[u8])
    ensures
        r@ == bytes_content(*b),
        r@.len() <= isize::MAX,
{
    b.as_ref()
}

/// `bytes::BytesMut::with_capacity`: an empty buffer. It panics when the
/// capacity is over `isize::MAX`.
#[verifier::external_body]
pub(crate) fn buffer_with_capacity(capacity: usize) -> (r: BytesMut)
    requires
        capacity <= isize::MAX,
    ensures
        buffer_content(r) == Seq::<u8>::empty(),
{
    BytesMut::with_capacity(capacity)
}

/// `<bytes::BytesMut as BufMut>::put_u8`: appends one byte. It panics when the
/// buffer would grow over `isize::MAX` bytes.
#[verifier::external_body]
pub(crate) fn buffer_put_u8(buf: &mut BytesMut, byte: u8)
    requires
        buffer_content(*old(buf)).len() < isize::MAX,
    ensures
        buffer_content(*final(buf)) == buffer_content(*old(buf)).push(byte),
{
    buf.put_u8(byte)
}

/// `<bytes::BytesMut as BufMut>::put_slice`: appends `data`. It panics when the
/// buffer would grow over `isize::MAX` bytes.
#[verifier::external_body]
pub(crate) fn buffer_put_slice(buf: &mut BytesMut, data: &[u8])
    requires
        buffer_content(*old(buf)).len() + data@.len() <= isize::MAX,
    ensures
        buffer_content(*final(buf)) == buffer_content(*old(buf)) + data@,
{
    buf.put_slice(data)
}

/// `bytes::BytesMut::freeze`: the same bytes in an immutable buffer.
#[verifier::external_body]
pub(crate) fn buffer_freeze(buf: BytesMut) -> (r: Bytes)
    ensures
        bytes_content(r) == buffer_content(buf),
{
    buf.freeze()
}

/// `<&[u8] as Buf>::has_remaining`: whether a byte is left to read.
#[verifier::external_body]
pub(crate) fn reader_has_remaining(buf: &[u8]) -> (r: bool)
    ensures
        r == (buf@.len() > 0),
{
    buf.has_remaining()
}

/// `<&[u8] as Buf>::remaining`: the number of bytes left to read.
#[verifier::external_body]
pub(crate) fn reader_remaining(buf: &[u8]) -> (n: usize)
    ensures
        n == buf@.len(),
{
    buf.remaining()
}

/// `<&[u8] as Buf>::get_u8`: takes the next byte. It panics when none is left.
#[verifier::external_body]
pub(crate) fn reader_get_u8(buf: &mut &[u8]) -> (byte: u8)
    requires
        old(buf)@.len() > 0,
    ensures
        byte == old(buf)@[0],
        final(buf)@ == old(buf)@.subrange(1, old(buf)@.len() as int),
{
    buf.get_u8()
}

/// `<&[u8] as Buf>::advance`: skips the next `cnt` bytes. It panics when fewer
/// are left.
#[verifier::external_body]
pub(crate) fn reader_advance(buf: &mut &[u8], cnt: usize)
    requires
        cnt <= old(buf)@.len(),
    ensures
        final(buf)@ == old(buf)@.subrange(cnt as int, old(buf)@.len() as int),
{
    buf.advance(cnt)
}

/// `<&[u8] as Buf>::copy_to_bytes`: takes the next `len` bytes as a buffer of
/// their own. It panics when fewer are left.
#[verifier::external_body]
pub(crate) fn reader_copy_to_bytes(buf: &mut &[u8], len: usize) -> (r: Bytes)
    requires
        len <= old(buf)@.len(),
    ensures
        bytes_content(r) == old(buf)@.subrange(0, len as int),
        final(buf)@ == old(buf)@.subrange(len as int, old(buf)@.len() as int),
{
    buf.copy_to_bytes(len)
}

} // verus!
