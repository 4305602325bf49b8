//! Reference-counted byte strings: what `bytes::Bytes` holds, and the few of
//! its functions that keys are made with.
use bytes::Bytes;
use vstd::prelude::*;

verus! {

#[verifier::external_type_specification]
#[verifier::external_body]
pub struct ExBytes(bytes::Bytes);

/// The bytes that a `Bytes` holds.
pub uninterp spec fn contents(b: bytes::Bytes) -> Seq<u8>;

/// `Bytes::from(Vec<u8>)` takes over the bytes of the vector.
#[verifier::external_body]
pub(crate) fn from_vec(v: Vec<u8>) -> (r: Bytes)
    ensures
        contents(r) == v@,
{
    Bytes::from(v)
}

/// `Bytes::copy_from_slice` holds a copy of the slice.
#[verifier::external_body]
pub(crate) fn copy_from_slice(s: &[u8]) -> (r: Bytes)
    ensures
        contents(r) == s@,
{
    Bytes::copy_from_slice(s)
}

/// `Bytes::deref` gives the bytes held, in order.
#[verifier::external_body]
pub(crate) fn as_slice(b: &Bytes) -> (r: &[u8])
    ensures
        r@ == contents(*b),
{
    &b[..]
}

/// `Bytes::clone` shares the same bytes.
#[verifier::external_body]
pub(crate) fn share(b: &Bytes) -> (r: Bytes)
    ensures
        contents(r) == contents(*b),
{
    b.clone()
}

} // verus!
