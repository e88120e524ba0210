//! The frame buffer: a `bytes::BytesMut`, seen through what it holds.

use bytes::{Buf, BytesMut};
use vstd::prelude::*;

verus! {

#[verifier::external_type_specification]
#[verifier::external_body]
pub struct ExBytesMut(BytesMut);

/// The bytes that a buffer holds, front to back.
pub uninterp spec fn held(b: BytesMut) -> Seq<u8>;

/// Relies on `BytesMut::new`: a new buffer holds nothing.
#[verifier::external_body]
pub(crate) fn buffer_new() -> (r: BytesMut)
    ensures
        held(r) == Seq::<u8>::empty(),
{
    BytesMut::new()
}

/// Relies on `<BytesMut as AsRef<[u8]>>::as_ref`: the slice of the bytes held.
#[verifier::external_body]
pub(crate) fn buffer_bytes(b: &BytesMut) -> (r: &[u8])
    ensures
        r@ == held(*b),
{
    b.as_ref()
}

/// Relies on `<BytesMut as Buf>::advance`: drops the first `n` bytes; it
/// panics past the end, which `requires` leaves out.
#[verifier::external_body]
pub(crate) fn buffer_advance(b: &mut BytesMut, n: usize)
    requires
        n <= held(*old(b)).len(),
    ensures
        held(*final(b)) == held(*old(b)).skip(n as int),
{
    b.advance(n)
}

/// Relies on `BytesMut::extend_from_slice`: appends the bytes of `data`.
#[verifier::external_body]
pub(crate) fn buffer_extend(b: &mut BytesMut, data: &[u8])
    ensures
        held(*final(b)) == held(*old(b)) + data@,
{
    b.extend_from_slice(data)
}

} // verus!
