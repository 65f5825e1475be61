//! The byte buffers of the `bytes` crate, and what the library relies on them
//! to do. Everything declared here is believed, not proved.

use bytes::{Buf, BufMut, Bytes, BytesMut};
use vstd::prelude::*;

verus! {

/// The immutable, cheaply cloned buffer type `bytes::Bytes`.
#[verifier::external_type_specification]
#[verifier::external_body]
pub struct ExBytes(bytes::Bytes);

/// The growable buffer type `bytes::BytesMut`.
#[verifier::external_type_specification]
#[verifier::external_body]
pub struct ExBytesMut(bytes::BytesMut);

/// The bytes that a `Bytes` holds.
pub uninterp spec fn bytes_view(b: Bytes) -> Seq<u8>;

/// The bytes that a `BytesMut` holds and has not given away yet.
pub uninterp spec fn buf_view(b: BytesMut) -> Seq<u8>;

/// `Bytes::copy_from_slice`: a new buffer that holds a copy of the slice.
pub assume_specification[ Bytes::copy_from_slice ](data: &[u8]) -> (r: Bytes)
    ensures
        bytes_view(r) == data@,
;

/// `Bytes::from_static`: a buffer that holds exactly the static slice.
pub assume_specification[ Bytes::from_static ](bytes: &'static [u8]) -> (r: Bytes)
    ensures
        bytes_view(r) == bytes@,
;

/// `Bytes::clone`: another handle on the same bytes.
pub assume_specification[ <Bytes as Clone>::clone ](b: &Bytes) -> (r: Bytes)
    ensures
        bytes_view(r) == bytes_view(*b),
;

/// `Bytes::len`: the number of bytes held.
pub assume_specification[ Bytes::len ](b: &Bytes) -> (n: usize)
    ensures
        n == bytes_view(*b).len(),
;

/// `<Bytes as Deref>::deref`: the held bytes as a slice.
#[verifier::external_body]
pub(crate) fn as_slice(b: &Bytes) -> (r: &[u8])
    ensures
        r@ == bytes_view(*b),
{
    b
}

/// `<Bytes as From<Vec<u8>>>::from`: a buffer that takes over the vector's bytes.
#[verifier::external_body]
pub(crate) fn bytes_from_vec(v: Vec<u8>) -> (r: Bytes)
    ensures
        bytes_view(r) == v@,
{
    Bytes::from(v)
}

/// `BytesMut::len`: the number of bytes held.
pub assume_specification[ BytesMut::len ](b: &BytesMut) -> (n: usize)
    ensures
        n == buf_view(*b).len(),
;

/// `<BytesMut as Deref>::deref`: the held bytes as a slice.
#[verifier::external_body]
pub(crate) fn buf_slice(b: &BytesMut) -> (r: &[u8])
    ensures
        r@ == buf_view(*b),
{
    b
}

/// `<BytesMut as Buf>::advance`: drops the first `cnt` bytes. The call panics
/// when there are fewer.
#[verifier::external_body]
pub(crate) fn buf_advance(b: &mut BytesMut, cnt: usize)
    requires
        cnt <= buf_view(*old(b)).len(),
    ensures
        buf_view(*final(b)) == buf_view(*old(b)).skip(cnt as int),
{
    b.advance(cnt)
}

/// `BytesMut::split_to`: hands out the first `at` bytes and keeps the rest. The
/// call panics when there are fewer.
pub assume_specification[ BytesMut::split_to ](b: &mut BytesMut, at: usize) -> (r: BytesMut)
    requires
        at <= buf_view(*old(b)).len(),
    ensures
        buf_view(r) == buf_view(*old(b)).take(at as int),
        buf_view(*final(b)) == buf_view(*old(b)).skip(at as int),
;

/// `BytesMut::freeze`: the same bytes, no longer mutable.
pub assume_specification[ BytesMut::freeze ](b: BytesMut) -> (r: Bytes)
    ensures
        bytes_view(r) == buf_view(b),
;

/// `BytesMut::extend_from_slice`: appends the slice. A buffer cannot grow past
/// `isize::MAX` bytes; the call panics there.
pub assume_specification[ BytesMut::extend_from_slice ](b: &mut BytesMut, extend: &[u8])
    requires
        buf_view(*old(b)).len() + extend@.len() <= isize::MAX,
    ensures
        buf_view(*final(b)) == buf_view(*old(b)) + extend@,
;

/// `<BytesMut as BufMut>::put_u8`: appends one byte. A buffer cannot grow past
/// `isize::MAX` bytes; the call panics there.
#[verifier::external_body]
pub(crate) fn buf_put_u8(b: &mut BytesMut, n: u8)
    requires
        buf_view(*old(b)).len() + 1 <= isize::MAX,
    ensures
        buf_view(*final(b)) == buf_view(*old(b)).push(n),
{
    b.put_u8(n)
}

/// `<BytesMut as BufMut>::put_u16`: appends the two bytes of `n`, most
/// significant first. A buffer cannot grow past `isize::MAX` bytes; the call
/// panics there.
#[verifier::external_body]
pub(crate) fn buf_put_u16(b: &mut BytesMut, n: u16)
    requires
        buf_view(*old(b)).len() + 2 <= isize::MAX,
    ensures
        buf_view(*final(b)) == buf_view(*old(b)) + crate::wire::be_bytes(n as nat, 2),
{
    b.put_u16(n)
}

/// `<BytesMut as BufMut>::put_u32`: appends the four bytes of `n`, most
/// significant first. A buffer cannot grow past `isize::MAX` bytes; the call
/// panics there.
#[verifier::external_body]
pub(crate) fn buf_put_u32(b: &mut BytesMut, n: u32)
    requires
        buf_view(*old(b)).len() + 4 <= isize::MAX,
    ensures
        buf_view(*final(b)) == buf_view(*old(b)) + crate::wire::be_bytes(n as nat, 4),
{
    b.put_u32(n)
}

} // verus!
