//! Byte buffers: the buffer type of `serde`, and what the library takes for
//! granted of it.
use serde::bytes::ByteBuf;
use vstd::prelude::*;

verus! {

/// `serde::bytes::ByteBuf`, a byte vector behind a private field.
#[verifier::external_type_specification]
#[verifier::external_body]
pub struct ExByteBuf(ByteBuf);

/// The bytes that a buffer holds, in order.
pub uninterp spec fn bin_bytes(b: ByteBuf) -> Seq<u8>;

/// `ByteBuf::clone`, which the crate derives: the copy holds the same bytes.
pub assume_specification[ <ByteBuf as Clone>::clone ](b: &ByteBuf) -> (r: ByteBuf)
    ensures
        bin_bytes(r) == bin_bytes(*b),
;

/// `ByteBuf::from`, which wraps the vector it is given: the buffer holds
/// exactly the bytes of `v`.
#[verifier::external_body]
pub(crate) fn bin_from_vec(v: Vec<u8>) -> (b: ByteBuf)
    ensures
        bin_bytes(b) == v@,
{
    ByteBuf::from(v)
}

/// `ByteBuf::deref`, which borrows the whole of the wrapped vector as a slice.
#[verifier::external_body]
pub(crate) fn bin_as_slice(b: &ByteBuf) -> (s: &[u8])
    ensures
        s@ == bin_bytes(*b),
{
    std::ops::Deref::deref(b)
}

/// A copy of `bytes`.
pub fn copy_bytes(bytes: &[u8]) -> (v: Vec<u8>)
    ensures
        v@ == bytes@,
{
    let mut v: Vec<u8> = Vec::with_capacity(bytes.len());
    let mut i: usize = 0;
    while i < bytes.len()
        invariant
            i <= bytes.len(),
            v@ == bytes@.take(i as int),
        decreases bytes.len() - i,
    {
        v.push(bytes[i]);
        i += 1;
    }
    v
}

} // verus!
