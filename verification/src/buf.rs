//! What this crate takes from the `bytes` crate, with the contracts it relies on.
//!
//! A [`Bytes`] is a cheaply cloned, immutable run of bytes; a [`BytesMut`] is a
//! buffer that grows at its end and is cut off at its front. Both are opaque to
//! proofs, so their contents go by a name.

use crate::wire::be_bytes;
use bytes::{BufMut, Bytes, BytesMut};
use vstd::prelude::*;

verus! {

/// A buffer is never grown past this many bytes. To grow a [`BytesMut`] can take an
/// allocation a few times as large as what it holds, and none may be larger than half
/// of the address space.
pub const MAX_BUFFER: usize = usize::MAX / 16;

#[verifier::external_type_specification]
#[verifier::external_body]
pub struct ExBytes(Bytes);

#[verifier::external_type_specification]
#[verifier::external_body]
pub struct ExBytesMut(BytesMut);

/// The bytes that a `Bytes` holds.
pub uninterp spec fn bytes_content(b: Bytes) -> Seq<u8>;

/// The bytes that a `BytesMut` holds, not counting its spare capacity.
pub uninterp spec fn bytes_mut_content(b: BytesMut) -> Seq<u8>;

/// `Bytes::new` holds nothing.
pub assume_specification[ Bytes::new ]() -> (r: Bytes)
    ensures
        bytes_content(r) == Seq::<u8>::empty(),
;

/// `Bytes::len` counts the bytes held.
pub assume_specification[ Bytes::len ](b: &Bytes) -> (n: usize)
    ensures
        n == bytes_content(*b).len(),
;

/// `Bytes::copy_from_slice` holds a copy of the slice.
pub assume_specification[ Bytes::copy_from_slice ](data: &[u8]) -> (r: Bytes)
    ensures
        bytes_content(r) == data@,
;

/// `Bytes::clone` is another handle on the same bytes.
pub assume_specification[ <Bytes as Clone>::clone ](b: &Bytes) -> (r: Bytes)
    ensures
        bytes_content(r) == bytes_content(*b),
;

/// `Bytes::as_ref` lends the bytes held as a slice.
#[verifier::external_body]
pub(crate) fn bytes_as_slice(b: &Bytes) -> (r: &[u8])
    ensures
        r@ == bytes_content(*b),
{
    b.as_ref()
}

/// `BytesMut::with_capacity` holds nothing at first.
#[verifier::external_body]
pub(crate) fn buffer_with_capacity(capacity: usize) -> (r: BytesMut)
    requires
        capacity <= MAX_BUFFER,
    ensures
        bytes_mut_content(r) == Seq::<u8>::empty(),
{
    BytesMut::with_capacity(capacity)
}

/// `BytesMut::reserve` makes room and leaves the bytes as they are.
#[verifier::external_body]
pub(crate) fn buffer_reserve(b: &mut BytesMut, additional: usize)
    requires
        bytes_mut_content(*old(b)).len() + additional <= MAX_BUFFER,
    ensures
        bytes_mut_content(*final(b)) == bytes_mut_content(*old(b)),
{
    b.reserve(additional)
}

/// `BytesMut::clear` drops the bytes.
#[verifier::external_body]
pub(crate) fn buffer_clear(b: &mut BytesMut)
    ensures
        bytes_mut_content(*final(b)) == Seq::<u8>::empty(),
{
    b.clear()
}

/// `BufMut::put_u8` appends one byte.
#[verifier::external_body]
pub(crate) fn buffer_put_u8(b: &mut BytesMut, n: u8)
    requires
        bytes_mut_content(*old(b)).len() + 1 <= MAX_BUFFER,
    ensures
        bytes_mut_content(*final(b)) == bytes_mut_content(*old(b)).push(n),
{
    b.put_u8(n)
}

/// `BufMut::put_u16` appends two bytes, most significant first.
#[verifier::external_body]
pub(crate) fn buffer_put_u16(b: &mut BytesMut, n: u16)
    requires
        bytes_mut_content(*old(b)).len() + 2 <= MAX_BUFFER,
    ensures
        bytes_mut_content(*final(b)) == bytes_mut_content(*old(b)) + be_bytes(n as nat, 2),
{
    b.put_u16(n)
}

/// `BufMut::put_u32` appends four bytes, most significant first.
#[verifier::external_body]
pub(crate) fn buffer_put_u32(b: &mut BytesMut, n: u32)
    requires
        bytes_mut_content(*old(b)).len() + 4 <= MAX_BUFFER,
    ensures
        bytes_mut_content(*final(b)) == bytes_mut_content(*old(b)) + be_bytes(n as nat, 4),
{
    b.put_u32(n)
}

/// `BufMut::put_u64` appends eight bytes, most significant first.
#[verifier::external_body]
pub(crate) fn buffer_put_u64(b: &mut BytesMut, n: u64)
    requires
        bytes_mut_content(*old(b)).len() + 8 <= MAX_BUFFER,
    ensures
        bytes_mut_content(*final(b)) == bytes_mut_content(*old(b)) + be_bytes(n as nat, 8),
{
    b.put_u64(n)
}

/// `BufMut::put_slice` appends a copy of the slice.
#[verifier::external_body]
pub(crate) fn buffer_put_slice(b: &mut BytesMut, src: &[u8])
    requires
        bytes_mut_content(*old(b)).len() + src@.len() <= MAX_BUFFER,
    ensures
        bytes_mut_content(*final(b)) == bytes_mut_content(*old(b)) + src@,
{
    b.put_slice(src)
}

/// `BytesMut::as_ref` lends the bytes held as a slice.
#[verifier::external_body]
pub(crate) fn buffer_as_slice(b: &BytesMut) -> (r: &[u8])
    ensures
        r@ == bytes_mut_content(*b),
{
    b.as_ref()
}

/// `BytesMut::split_to` cuts the first `at` bytes off and returns them.
#[verifier::external_body]
pub(crate) fn buffer_split_to(b: &mut BytesMut, at: usize) -> (r: BytesMut)
    requires
        at <= bytes_mut_content(*old(b)).len(),
    ensures
        bytes_mut_content(r) == bytes_mut_content(*old(b)).take(at as int),
        bytes_mut_content(*final(b)) == bytes_mut_content(*old(b)).skip(at as int),
{
    b.split_to(at)
}

/// `BytesMut::freeze` keeps the bytes and gives up growing them.
#[verifier::external_body]
pub(crate) fn buffer_freeze(b: BytesMut) -> (r: Bytes)
    ensures
        bytes_content(r) == bytes_mut_content(b),
{
    b.freeze()
}

} // verus!
