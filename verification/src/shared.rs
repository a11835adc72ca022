//! Reference-counted views of immutable bytes, as the `bytes` crate gives them.
use bytes::{Bytes, BytesMut};
use vstd::prelude::*;

verus! {

/// `bytes::Bytes`: a shared view of immutable bytes.
#[verifier::external_type_specification]
#[verifier::external_body]
pub struct ExBytes(bytes::Bytes);

/// `bytes::BytesMut`: a uniquely owned view of bytes that can grow.
#[verifier::external_type_specification]
#[verifier::external_body]
pub struct ExBytesMut(bytes::BytesMut);

/// The bytes that a view shows.
pub uninterp spec fn contents(bytes: Bytes) -> Seq<u8>;

/// The bytes that a growing view holds.
pub uninterp spec fn mut_contents(bytes: BytesMut) -> Seq<u8>;

/// `Bytes::len`: how many bytes the view shows.
pub assume_specification[ bytes::Bytes::len ](bytes: &Bytes) -> (r: usize)
    ensures
        r == contents(*bytes).len(),
;

/// `Bytes::split_to`: the first `at` bytes leave the view and are returned as
/// one of their own. It panics beyond the end.
pub assume_specification[ bytes::Bytes::split_to ](bytes: &mut Bytes, at: usize) -> (r: Bytes)
    requires
        at <= contents(*old(bytes)).len(),
    ensures
        contents(r) == contents(*old(bytes)).take(at as int),
        contents(*final(bytes)) == contents(*old(bytes)).skip(at as int),
;

/// `BytesMut::new`: no bytes.
pub assume_specification[ bytes::BytesMut::new ]() -> (r: BytesMut)
    ensures
        mut_contents(r) == Seq::<u8>::empty(),
;

/// `BytesMut::with_capacity`: no bytes, and room for some.
pub assume_specification[ bytes::BytesMut::with_capacity ](capacity: usize) -> (r: BytesMut)
    requires
        capacity <= isize::MAX,
    ensures
        mut_contents(r) == Seq::<u8>::empty(),
;

/// `BytesMut::capacity`: how much fits without another allocation, which the
/// allocator decides.
pub assume_specification[ bytes::BytesMut::capacity ](bytes: &BytesMut) -> (r: usize);

/// `BytesMut::extend_from_slice`: the bytes are copied to the end.
pub assume_specification[ bytes::BytesMut::extend_from_slice ](bytes: &mut BytesMut, extend: &[u8])
    requires
        mut_contents(*old(bytes)).len() + extend@.len() <= isize::MAX,
    ensures
        mut_contents(*final(bytes)) == mut_contents(*old(bytes)) + extend@,
;

/// `BytesMut::split`: everything held is returned and nothing is left.
pub assume_specification[ bytes::BytesMut::split ](bytes: &mut BytesMut) -> (r: BytesMut)
    ensures
        mut_contents(r) == mut_contents(*old(bytes)),
        mut_contents(*final(bytes)) == Seq::<u8>::empty(),
;

/// `BytesMut::freeze`: the same bytes, immutable from now on.
pub assume_specification[ bytes::BytesMut::freeze ](bytes: BytesMut) -> (r: Bytes)
    ensures
        contents(r) == mut_contents(bytes),
;

/// `Bytes::from` on a vector: a view of all its bytes.
#[verifier::external_body]
pub(crate) fn from_vec(data: Vec<u8>) -> (r: Bytes)
    ensures
        contents(r) == data@,
{
    Bytes::from(data)
}

/// `Bytes::as_ref`: the bytes as a slice.
#[verifier::external_body]
pub(crate) fn as_slice(bytes: &Bytes) -> (r: &[u8])
    ensures
        r@ == contents(*bytes),
{
    bytes.as_ref()
}

/// `Bytes::slice`: a view of the bytes from `start` up to `end`. It panics
/// beyond the end.
#[verifier::external_body]
pub(crate) fn slice(bytes: &Bytes, start: usize, end: usize) -> (r: Bytes)
    requires
        start <= end <= contents(*bytes).len(),
    ensures
        contents(r) == contents(*bytes).subrange(start as int, end as int),
{
    bytes.slice(start..end)
}

} // verus!
