//! Conversions between frozen bytes and owned storage.
use vstd::prelude::*;
use bytes::{Bytes, BytesMut};

verus! {

#[verifier::external_type_specification]
#[verifier::external_body]
pub struct ExBytes(bytes::Bytes);

#[verifier::external_type_specification]
#[verifier::external_body]
pub struct ExBytesMut(bytes::BytesMut);

/// The bytes that a `Bytes` holds.
pub uninterp spec fn bytes_contents(b: Bytes) -> Seq<u8>;

/// The bytes that a `BytesMut` holds.
pub uninterp spec fn bytes_mut_contents(b: BytesMut) -> Seq<u8>;

/// Calls `bytes::Bytes::from` on a vector: the result holds the vector's
/// bytes.
#[verifier::external_body]
pub(crate) fn bytes_from_vec(v: Vec<u8>) -> (r: Bytes)
    ensures
        bytes_contents(r) == v@,
{
    Bytes::from(v)
}

/// Calls `AsRef::as_ref` of `bytes::Bytes`: the slice of the bytes that it
/// holds.
#[verifier::external_body]
pub(crate) fn bytes_as_slice(b: &Bytes) -> (r: &[u8])
    ensures
        r@ == bytes_contents(*b),
{
    b.as_ref()
}

/// Calls `bytes::BytesMut::from` on a slice: a copy of the slice's bytes.
#[verifier::external_body]
pub(crate) fn bytes_mut_from_slice(s: &[u8]) -> (r: BytesMut)
    ensures
        bytes_mut_contents(r) == s@,
{
    BytesMut::from(s)
}

/// Extension methods for converting `Bytes` into owned mutable storage.
pub trait BytesExt: Sized {
    /// The bytes that the value holds.
    spec fn held_bytes(&self) -> Seq<u8>;

    /// Copies the contents to a new heap-backed `BytesMut`, consuming `self`.
    fn into_owned(self) -> (r: BytesMut)
        ensures
            bytes_mut_contents(r) == self.held_bytes(),
    ;
}

impl BytesExt for Bytes {
    open spec fn held_bytes(&self) -> Seq<u8> {
        bytes_contents(*self)
    }

    fn into_owned(self) -> (r: BytesMut) {
        bytes_mut_from_slice(bytes_as_slice(&self))
    }
}

} // verus!
