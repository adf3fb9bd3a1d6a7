//! The `bytes` crate's buffers, as far as the server uses them.

use bytes::{Bytes, BytesMut};
use vstd::prelude::*;

verus! {

/// `bytes::Bytes`: a run of octets that does not change.
#[verifier::external_type_specification]
#[verifier::external_body]
pub struct ExBytes(bytes::Bytes);

/// `bytes::BytesMut`: a run of octets that can be refilled and split.
#[verifier::external_type_specification]
#[verifier::external_body]
pub struct ExBytesMut(bytes::BytesMut);

/// The octets that a `Bytes` holds.
pub uninterp spec fn bytes_content(b: bytes::Bytes) -> Seq<u8>;

/// The octets that a `BytesMut` holds.
pub uninterp spec fn buffer_content(b: bytes::BytesMut) -> Seq<u8>;

/// `bytes::Bytes::len` counts the octets.
pub assume_specification[ bytes::Bytes::len ](b: &Bytes) -> (n: usize)
    ensures
        n == bytes_content(*b).len(),
;

/// `bytes::BytesMut::len` counts the octets.
pub assume_specification[ bytes::BytesMut::len ](b: &BytesMut) -> (n: usize)
    ensures
        n == buffer_content(*b).len(),
;

/// `bytes::BytesMut::is_empty` tells whether there are no octets.
pub assume_specification[ bytes::BytesMut::is_empty ](b: &BytesMut) -> (r: bool)
    ensures
        r == (buffer_content(*b).len() == 0),
;

/// `bytes::BytesMut::clear` removes every octet.
pub assume_specification[ bytes::BytesMut::clear ](b: &mut BytesMut)
    ensures
        buffer_content(*final(b)) == Seq::<u8>::empty(),
;

/// `bytes::BytesMut::split_to` takes the first `at` octets out of the buffer and hands them back;
/// it panics where there are fewer.
pub assume_specification[ bytes::BytesMut::split_to ](b: &mut BytesMut, at: usize) -> (head:
    BytesMut)
    requires
        at <= buffer_content(*old(b)).len(),
    ensures
        buffer_content(head) == buffer_content(*old(b)).take(at as int),
        buffer_content(*final(b)) == buffer_content(*old(b)).skip(at as int),
;

/// `bytes::BytesMut::freeze` keeps the octets and gives up changing them.
pub assume_specification[ bytes::BytesMut::freeze ](b: BytesMut) -> (r: Bytes)
    ensures
        bytes_content(r) == buffer_content(b),
;

/// `BytesMut::from` of a slice makes a buffer that holds a copy of the slice's octets.
#[verifier::external_body]
pub(crate) fn buffer_from_slice(octets: &[u8]) -> (r: BytesMut)
    ensures
        buffer_content(r) == octets@,
{
    BytesMut::from(octets)
}

/// `Bytes::as_ref` lends the octets as a slice.
#[verifier::external_body]
pub(crate) fn bytes_as_slice(b: &Bytes) -> (r: &[u8])
    ensures
        r@ == bytes_content(*b),
{
    b.as_ref()
}

} // verus!
