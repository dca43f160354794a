//! Byte buffers of the `bytes` crate.
//!
//! `Bytes` is a cheaply cloneable, immutable run of bytes and `BytesMut` a
//! growing one. Neither is looked into: what each holds is given by a name, and
//! the functions below say over those names what the crate's methods do.
//! Running out of memory ends the process, here as for every `Vec`, and no
//! contract speaks of it.

use bytes::{BufMut, Bytes, BytesMut};
use vstd::prelude::*;

use crate::protocol::wire::{be, unsigned16, unsigned32, unsigned64, unsigned8};

verus! {

#[verifier::external_type_specification]
#[verifier::external_body]
pub struct ExBytes(bytes::Bytes);

#[verifier::external_type_specification]
#[verifier::external_body]
pub struct ExBytesMut(bytes::BytesMut);

/// The bytes that a `Bytes` holds.
pub uninterp spec fn bytes_view(b: Bytes) -> Seq<u8>;

/// The bytes written so far to a `BytesMut`.
pub uninterp spec fn bytes_mut_view(b: BytesMut) -> Seq<u8>;

/// `Bytes::new`: holds nothing.
#[verifier::external_body]
pub(crate) fn bytes_new() -> (r: Bytes)
    ensures
        bytes_view(r) == Seq::<u8>::empty(),
{
    Bytes::new()
}

/// `Bytes::len`: the number of bytes held, which no allocation takes beyond
/// `isize::MAX`.
#[verifier::external_body]
pub(crate) fn bytes_len(b: &Bytes) -> (n: usize)
    ensures
        n <= isize::MAX,
        n == bytes_view(*b).len(),
{
    b.len()
}

/// `Bytes::as_ref`: the bytes held, as a slice.
#[verifier::external_body]
pub(crate) fn bytes_slice(b: &Bytes) -> (r: &[u8])
    ensures
        r@ == bytes_view(*b),
{
    b.as_ref()
}

/// `Bytes::clone`: another handle on the same bytes.
pub assume_specification[ <bytes::Bytes as Clone>::clone ](b: &bytes::Bytes) -> (r: bytes::Bytes)
    ensures
        bytes_view(r) == bytes_view(*b),
;

/// `Bytes::slice`: the bytes from `lo` up to but not including `hi`. It panics
/// on a range that is not within the bytes held.
#[verifier::external_body]
pub(crate) fn bytes_range(b: &Bytes, lo: usize, hi: usize) -> (r: Bytes)
    requires
        lo <= hi <= bytes_view(*b).len(),
    ensures
        bytes_view(r) == bytes_view(*b).subrange(lo as int, hi as int),
{
    b.slice(lo..hi)
}

/// `Bytes::copy_from_slice`: holds a copy of the slice.
#[verifier::external_body]
pub(crate) fn bytes_copy(s: &[u8]) -> (r: Bytes)
    ensures
        bytes_view(r) == s@,
{
    Bytes::copy_from_slice(s)
}

/// `Bytes::from` on a vector: holds the vector's bytes.
#[verifier::external_body]
pub(crate) fn bytes_from_vec(v: Vec<u8>) -> (r: Bytes)
    ensures
        bytes_view(r) == v@,
{
    Bytes::from(v)
}

/// `BytesMut::new`: nothing written yet.
#[verifier::external_body]
pub(crate) fn bytes_mut_new() -> (r: BytesMut)
    ensures
        bytes_mut_view(r) == Seq::<u8>::empty(),
{
    BytesMut::new()
}

/// `BytesMut::with_capacity`: nothing written yet. It panics on a capacity
/// beyond `isize::MAX`.
#[verifier::external_body]
pub(crate) fn bytes_mut_with_capacity(cap: usize) -> (r: BytesMut)
    requires
        cap <= isize::MAX,
    ensures
        bytes_mut_view(r) == Seq::<u8>::empty(),
{
    BytesMut::with_capacity(cap)
}

/// `BytesMut::len`: the number of bytes written, which no allocation takes
/// beyond `isize::MAX`.
#[verifier::external_body]
pub(crate) fn bytes_mut_len(b: &BytesMut) -> (n: usize)
    ensures
        n <= isize::MAX,
        n == bytes_mut_view(*b).len(),
{
    b.len()
}

/// `BytesMut::freeze`: the bytes written, no longer growing.
#[verifier::external_body]
pub(crate) fn bytes_mut_freeze(b: BytesMut) -> (r: Bytes)
    ensures
        bytes_view(r) == bytes_mut_view(b),
{
    b.freeze()
}

/// `BufMut::put_slice`: appends the slice.
#[verifier::external_body]
pub(crate) fn put_slice(b: &mut BytesMut, s: &[u8])
    ensures
        bytes_mut_view(*final(b)) == bytes_mut_view(*old(b)) + s@,
{
    b.put_slice(s)
}

/// `BufMut::put_u8`: appends one byte.
#[verifier::external_body]
pub(crate) fn put_u8(b: &mut BytesMut, v: u8)
    ensures
        bytes_mut_view(*final(b)) == bytes_mut_view(*old(b)).push(v),
{
    b.put_u8(v)
}

/// `BufMut::put_i8`: appends one byte, negative numbers in two's complement.
#[verifier::external_body]
pub(crate) fn put_i8(b: &mut BytesMut, v: i8)
    ensures
        bytes_mut_view(*final(b)) == bytes_mut_view(*old(b)) + be(unsigned8(v), 1),
{
    b.put_i8(v)
}

/// `BufMut::put_i16`: appends two bytes, most significant first.
#[verifier::external_body]
pub(crate) fn put_i16(b: &mut BytesMut, v: i16)
    ensures
        bytes_mut_view(*final(b)) == bytes_mut_view(*old(b)) + be(unsigned16(v), 2),
{
    b.put_i16(v)
}

/// `BufMut::put_i32`: appends four bytes, most significant first.
#[verifier::external_body]
pub(crate) fn put_i32(b: &mut BytesMut, v: i32)
    ensures
        bytes_mut_view(*final(b)) == bytes_mut_view(*old(b)) + be(unsigned32(v), 4),
{
    b.put_i32(v)
}

/// `BufMut::put_i64`: appends eight bytes, most significant first.
#[verifier::external_body]
pub(crate) fn put_i64(b: &mut BytesMut, v: i64)
    ensures
        bytes_mut_view(*final(b)) == bytes_mut_view(*old(b)) + be(unsigned64(v), 8),
{
    b.put_i64(v)
}

/// `BufMut::put_u32`: appends four bytes, most significant first.
#[verifier::external_body]
pub(crate) fn put_u32(b: &mut BytesMut, v: u32)
    ensures
        bytes_mut_view(*final(b)) == bytes_mut_view(*old(b)) + be(v as nat, 4),
{
    b.put_u32(v)
}

/// `BufMut::put_u64`: appends eight bytes, most significant first.
#[verifier::external_body]
pub(crate) fn put_u64(b: &mut BytesMut, v: u64)
    ensures
        bytes_mut_view(*final(b)) == bytes_mut_view(*old(b)) + be(v as nat, 8),
{
    b.put_u64(v)
}

} // verus!
