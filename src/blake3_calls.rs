//! Calls into the `blake3` crate.

use vstd::prelude::*;

verus! {

#[verifier::external_type_specification]
#[verifier::external_body]
pub struct ExBlake3Hasher(blake3::Hasher);

/// The bytes that a `blake3::Hasher` has been fed since it was created.
pub uninterp spec fn absorbed(h: blake3::Hasher) -> Seq<u8>;

/// The BLAKE3 digest of a byte sequence.
pub uninterp spec fn blake3_digest(data: Seq<u8>) -> Seq<u8>;

/// Relies on `blake3::Hasher::new`: a hasher that has been fed nothing.
#[verifier::external_body]
pub(crate) fn new_hasher() -> (h: blake3::Hasher)
    ensures
        absorbed(h) == Seq::<u8>::empty(),
{
    blake3::Hasher::new()
}

/// Relies on `blake3::Hasher::update`: the input is appended to what the
/// hasher has been fed; splitting the input across calls does not change
/// the final digest.
#[verifier::external_body]
pub(crate) fn update_hasher(h: &mut blake3::Hasher, input: &[u8])
    ensures
        absorbed(*final(h)) == absorbed(*old(h)) + input@,
{
    h.update(input);
}

/// Relies on `blake3::Hasher::finalize` and `blake3::Hash::as_bytes`: the
/// 32-byte digest of everything the hasher has been fed.
#[verifier::external_body]
pub(crate) fn finalize_hasher(h: &blake3::Hasher) -> (r: [u8; 32])
    ensures
        r@ == blake3_digest(absorbed(*h)),
{
    *h.finalize().as_bytes()
}

} // verus!
