//! The buffers in which packed lists are taken apart.
use bytes::BytesMut;
use vstd::prelude::*;

verus! {

/// A growable buffer of `bytes`.
#[verifier::external_type_specification]
#[verifier::external_body]
pub struct ExBytesMut(BytesMut);

/// The bytes that a buffer holds.
pub uninterp spec fn buffer_bytes(buffer: BytesMut) -> Seq<u8>;

/// `BytesMut::len`: how many bytes the buffer holds.
pub assume_specification[ BytesMut::len ](buffer: &BytesMut) -> (len: usize)
    ensures
        len == buffer_bytes(*buffer).len(),
;

/// `BytesMut::split_to`: takes the first `at` bytes out of the buffer.
pub assume_specification[ BytesMut::split_to ](buffer: &mut BytesMut, at: usize) -> (front: BytesMut)
    requires
        at <= buffer_bytes(*old(buffer)).len(),
    ensures
        buffer_bytes(front) == buffer_bytes(*old(buffer)).take(at as int),
        buffer_bytes(*final(buffer)) == buffer_bytes(*old(buffer)).skip(at as int),
;

/// `BytesMut::from` a slice: a buffer that holds a copy of it.
#[verifier::external_body]
pub(crate) fn buffer_from(contents: &[u8]) -> (buffer: BytesMut)
    ensures
        buffer_bytes(buffer) == contents@,
{
    BytesMut::from(contents)
}

/// `to_vec` on the slice that a `BytesMut` dereferences to: a copy of what it holds.
#[verifier::external_body]
pub(crate) fn buffer_to_vec(buffer: &BytesMut) -> (contents: Vec<u8>)
    ensures
        contents@ == buffer_bytes(*buffer),
{
    buffer.to_vec()
}

} // verus!
