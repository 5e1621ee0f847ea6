//! The accumulation buffer: `bytes::BytesMut`, seen as the sequence of bytes it holds.
//!
//! Nothing in this file is proved. Each function makes one call into the
//! `bytes` crate and states what that call does to the buffer's contents; the
//! codecs are verified against these statements. As with `Vec`, they say
//! nothing of an allocator that has no memory left to give.

use bytes::{Buf, BufMut, BytesMut};
use vstd::prelude::*;

use crate::wire::{be_bytes, be_u32};

verus! {

/// `bytes::BytesMut`, of which the verifier sees nothing but `buffered`.
#[verifier::external_type_specification]
#[verifier::external_body]
pub struct ExBytesMut(BytesMut);

/// The bytes that `b` holds, first to last.
pub uninterp spec fn buffered(b: BytesMut) -> Seq<u8>;

/// The most bytes that a buffer is ever asked to hold here. `BytesMut` counts
/// its `BufMut::remaining_mut` down from this number, the largest allocation
/// there is; beyond it the crate panics on overflow of the capacity.
pub open spec fn max_buffered() -> nat {
    isize::MAX as nat
}

/// `<BytesMut as AsRef<[u8]>>::as_ref`: the contents as a borrowed slice.
#[verifier::external_body]
pub(crate) fn buf_view(b: &BytesMut) -> (view: &[u8])
    ensures
        view@ == buffered(*b),
{
    b.as_ref()
}

/// `BytesMut::len`: the number of bytes held.
#[verifier::external_body]
pub(crate) fn buf_len(b: &BytesMut) -> (n: usize)
    ensures
        n == buffered(*b).len(),
{
    b.len()
}

/// `Buf::get_u32` on `BytesMut`: takes the first four bytes out and returns
/// their big-endian value. The crate panics on fewer than four bytes.
#[verifier::external_body]
pub(crate) fn buf_get_u32(b: &mut BytesMut) -> (n: u32)
    requires
        buffered(*old(b)).len() >= 4,
    ensures
        n == be_u32(buffered(*old(b)).take(4)),
        buffered(*final(b)) == buffered(*old(b)).skip(4),
{
    b.get_u32()
}

/// `BytesMut::split_to`: takes the first `at` bytes out and returns them as a
/// buffer of their own. The crate panics when `at` is beyond the length.
#[verifier::external_body]
pub(crate) fn buf_split_to(b: &mut BytesMut, at: usize) -> (head: BytesMut)
    requires
        at <= buffered(*old(b)).len(),
    ensures
        buffered(head) == buffered(*old(b)).take(at as int),
        buffered(*final(b)) == buffered(*old(b)).skip(at as int),
{
    b.split_to(at)
}

/// `From<BytesMut> for Vec<u8>`: the contents as a vector.
#[verifier::external_body]
pub(crate) fn buf_into_vec(b: BytesMut) -> (v: Vec<u8>)
    ensures
        v@ == buffered(b),
{
    Vec::from(b)
}

/// `BytesMut::reserve`: makes room for `additional` more bytes; the contents
/// stay. The total asked for must be within `max_buffered()`.
#[verifier::external_body]
pub(crate) fn buf_reserve(b: &mut BytesMut, additional: usize)
    requires
        buffered(*old(b)).len() + additional <= max_buffered(),
    ensures
        buffered(*final(b)) == buffered(*old(b)),
{
    b.reserve(additional)
}

/// `BufMut::put_u32` on `BytesMut`: appends the four big-endian bytes of `n`.
/// The new length must be within `max_buffered()`.
#[verifier::external_body]
pub(crate) fn buf_put_u32(b: &mut BytesMut, n: u32)
    requires
        buffered(*old(b)).len() + 4 <= max_buffered(),
    ensures
        buffered(*final(b)) == buffered(*old(b)) + be_bytes(n),
{
    b.put_u32(n)
}

/// `BufMut::put_slice` on `BytesMut`: appends the bytes of `src`. The new
/// length must be within `max_buffered()`.
#[verifier::external_body]
pub(crate) fn buf_put_slice(b: &mut BytesMut, src: &[u8])
    requires
        buffered(*old(b)).len() + src@.len() <= max_buffered(),
    ensures
        buffered(*final(b)) == buffered(*old(b)) + src@,
{
    b.put_slice(src)
}

} // verus!
