//! The byte buffer that the streaming driver shares with its caller.

use bytes::{Buf, BytesMut};
use vstd::prelude::*;

verus! {

/// The buffer type of the `bytes` crate, of which nothing is known here but
/// what the functions below state.
#[verifier::external_type_specification]
#[verifier::external_body]
pub struct ExBytesMut(BytesMut);

/// The bytes that a buffer holds, from the first that was not yet consumed.
pub uninterp spec fn buffered(b: BytesMut) -> Seq<u8>;

/// `BytesMut` as a slice (its `Deref`): the bytes that the buffer holds.
#[verifier::external_body]
pub(crate) fn buffer_bytes(b: &BytesMut) -> (s: &[u8])
    ensures
        s@ == buffered(*b),
{
    &b[..]
}

/// `Buf::advance` of `BytesMut`: the first `n` bytes leave the buffer and the
/// others stay as they are. It panics where the buffer holds fewer than `n`.
#[verifier::external_body]
pub(crate) fn buffer_advance(b: &mut BytesMut, n: usize)
    requires
        n <= buffered(*old(b)).len(),
    ensures
        buffered(*final(b)) == buffered(*old(b)).skip(n as int),
{
    b.advance(n)
}

/// `BytesMut::extend_from_slice`: the bytes of `more` join the buffer at its
/// end.
#[verifier::external_body]
pub(crate) fn buffer_extend(b: &mut BytesMut, more: &[u8])
    ensures
        buffered(*final(b)) == buffered(*old(b)) + more@,
{
    b.extend_from_slice(more)
}

} // verus!
