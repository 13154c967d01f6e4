//! The packet buffer, `bytes::BytesMut`, as the session reads and fills it.
//!
//! The buffer is opaque to the verifier. [`buffer_bytes`] names the bytes it
//! holds, and each operation used on it is given a contract over that name.

use bytes::BytesMut;
use vstd::prelude::*;

verus! {

/// Declares `bytes::BytesMut` as a type whose inside the verifier does not
/// see.
#[verifier::external_type_specification]
#[verifier::external_body]
pub struct ExBytesMut(BytesMut);

/// The bytes that a buffer holds, first to last.
pub uninterp spec fn buffer_bytes(buffer: BytesMut) -> Seq<u8>;

/// `BytesMut::new`. Trusted: the new buffer holds no bytes.
pub assume_specification[ BytesMut::new ]() -> (buffer: BytesMut)
    ensures
        buffer_bytes(buffer) == Seq::<u8>::empty(),
;

/// `BytesMut::clear`. Trusted: the buffer holds no bytes afterwards.
pub assume_specification[ BytesMut::clear ](buffer: &mut BytesMut)
    ensures
        buffer_bytes(*final(buffer)) == Seq::<u8>::empty(),
;

/// `BytesMut::extend_from_slice`. Trusted: the buffer holds afterwards what
/// it held before, followed by the bytes of the slice.
pub assume_specification[ BytesMut::extend_from_slice ](buffer: &mut BytesMut, extend: &[u8])
    ensures
        buffer_bytes(*final(buffer)) == buffer_bytes(*old(buffer)) + extend@,
;

/// Copies the buffer out through its `Deref` to a byte slice and
/// `<[u8]>::to_vec`. Trusted: the copy holds the buffer's bytes.
#[verifier::external_body]
pub(crate) fn to_vec(buffer: &BytesMut) -> (out: Vec<u8>)
    ensures
        out@ == buffer_bytes(*buffer),
{
    buffer.to_vec()
}

} // verus!
