//! The shared byte strings of the `bytes` crate.
//!
//! A [`Bytes`] is opaque to the proofs. [`bytes_content`] names the bytes that
//! one holds, and the items below say of the crate's functions what they do
//! to that content.

use bytes::Bytes;
use vstd::prelude::*;

verus! {

#[verifier::external_type_specification]
#[verifier::external_body]
pub struct ExBytes(Bytes);

/// The bytes that `b` holds, in order.
pub uninterp spec fn bytes_content(b: &Bytes) -> Seq<u8>;

/// `Bytes::copy_from_slice`: the new value holds the bytes of the slice.
pub assume_specification[ Bytes::copy_from_slice ](data: &[u8]) -> (b: Bytes)
    ensures
        bytes_content(&b) == data@,
;

/// `Bytes::len`: how many bytes the value holds.
pub assume_specification[ Bytes::len ](b: &Bytes) -> (n: usize)
    ensures
        n == bytes_content(b).len(),
;

/// `Bytes::is_empty`: whether the value holds no bytes.
pub assume_specification[ Bytes::is_empty ](b: &Bytes) -> (empty: bool)
    ensures
        empty == (bytes_content(b).len() == 0),
;

/// `Bytes::clone`: a second handle on the same bytes.
pub assume_specification[ <Bytes as Clone>::clone ](b: &Bytes) -> (c: Bytes)
    ensures
        bytes_content(&c) == bytes_content(b),
;

/// `<Bytes as Deref>::deref`: the bytes as a slice.
#[verifier::external_body]
pub(crate) fn bytes_slice(b: &Bytes) -> (s: &[u8])
    ensures
        s@ == bytes_content(b),
{
    b
}

} // verus!
