//! The byte buffers of connections.
use bytes::{Buf, BufMut, BytesMut};
use vstd::prelude::*;

use crate::codec::{be_bytes, i64_bits};

verus! {

/// `bytes::BytesMut`: a growing buffer of bytes.
#[verifier::external_type_specification]
#[verifier::external_body]
pub struct ExBytesMut(bytes::BytesMut);

/// The bytes that a buffer holds.
pub uninterp spec fn buffered(b: BytesMut) -> Seq<u8>;

/// `BytesMut::len`: how many bytes the buffer holds.
#[verifier::external_body]
pub(crate) fn buffer_len(b: &BytesMut) -> (n: usize)
    ensures
        n == buffered(*b).len(),
{
    b.len()
}

/// `AsRef::as_ref` of `BytesMut`: the bytes of the buffer.
#[verifier::external_body]
pub(crate) fn buffer_bytes(b: &BytesMut) -> (s: &[u8])
    ensures
        s@ == buffered(*b),
{
    b.as_ref()
}

/// `BufMut::put_u8` of `BytesMut`: appends a byte.
#[verifier::external_body]
pub(crate) fn put_u8(b: &mut BytesMut, n: u8)
    ensures
        buffered(*final(b)) == buffered(*old(b)).push(n),
{
    b.put_u8(n)
}

/// `BufMut::put_u32` of `BytesMut`: appends the four bytes of the number, most significant
/// first.
#[verifier::external_body]
pub(crate) fn put_u32(b: &mut BytesMut, n: u32)
    ensures
        buffered(*final(b)) == buffered(*old(b)) + be_bytes(n as nat, 4),
{
    b.put_u32(n)
}

/// `BufMut::put_u64` of `BytesMut`: appends the eight bytes of the number, most significant
/// first.
#[verifier::external_body]
pub(crate) fn put_u64(b: &mut BytesMut, n: u64)
    ensures
        buffered(*final(b)) == buffered(*old(b)) + be_bytes(n as nat, 8),
{
    b.put_u64(n)
}

/// `BufMut::put_i64` of `BytesMut`: appends the eight bytes of the two's complement of the
/// number, most significant first.
#[verifier::external_body]
pub(crate) fn put_i64(b: &mut BytesMut, n: i64)
    ensures
        buffered(*final(b)) == buffered(*old(b)) + be_bytes(i64_bits(n), 8),
{
    b.put_i64(n)
}

/// `BufMut::put_slice` of `BytesMut`: appends the bytes.
#[verifier::external_body]
pub(crate) fn put_slice(b: &mut BytesMut, s: &[u8])
    ensures
        buffered(*final(b)) == buffered(*old(b)) + s@,
{
    b.put_slice(s)
}

/// `DerefMut::deref_mut` of `BytesMut`: the bytes of the buffer can be written over; here those
/// from `at` on and before `end` with `s`.
#[verifier::external_body]
pub(crate) fn overwrite(b: &mut BytesMut, at: usize, end: usize, s: &[u8])
    requires
        at <= end <= buffered(*old(b)).len(),
        s@.len() == end - at,
    ensures
        buffered(*final(b)) == buffered(*old(b)).take(at as int) + s@ + buffered(*old(b)).skip(
            end as int,
        ),
{
    b[at..end].copy_from_slice(s)
}

/// `BytesMut::reserve`: makes room for further bytes and changes none.
#[verifier::external_body]
pub(crate) fn reserve(b: &mut BytesMut, additional: usize)
    requires
        buffered(*old(b)).len() + additional <= usize::MAX / 2,
    ensures
        buffered(*final(b)) == buffered(*old(b)),
{
    b.reserve(additional)
}

/// `BytesMut::split_to`: takes the first `at` bytes out into a buffer of their own.
#[verifier::external_body]
pub(crate) fn split_to(b: &mut BytesMut, at: usize) -> (front: BytesMut)
    requires
        at <= buffered(*old(b)).len(),
    ensures
        buffered(front) == buffered(*old(b)).take(at as int),
        buffered(*final(b)) == buffered(*old(b)).skip(at as int),
{
    b.split_to(at)
}

/// `Buf::advance` of `BytesMut`: drops the first `n` bytes.
#[verifier::external_body]
pub(crate) fn advance(b: &mut BytesMut, n: usize)
    requires
        n <= buffered(*old(b)).len(),
    ensures
        buffered(*final(b)) == buffered(*old(b)).skip(n as int),
{
    b.advance(n)
}

} // verus!
