//! The hash function behind block identity and proof of work.

use vstd::prelude::*;

verus! {

/// The 32-byte BLAKE3 digest of `input`.
///
/// BLAKE3 is defined outside this crate, which does not restate it and proves
/// nothing from its definition. All that contracts use is that it is a
/// function: equal inputs have equal digests.
pub uninterp spec fn blake3_digest(input: Seq<u8>) -> Seq<u8>;

/// Hashes `input` with `blake3::hash` and returns the raw bytes of the result.
///
/// Trusted: the bytes returned are the BLAKE3 digest of exactly the bytes of
/// `input`, whatever machine or process computes them. `blake3::hash` takes
/// any input, does not fail, and its `Hash::as_bytes` hands out the 32 digest
/// bytes unchanged.
#[verifier::external_body]
pub(crate) fn digest_of(input: &Vec<u8>) -> (digest: [u8; 32])
    ensures
        digest@ == blake3_digest(input@),
{
    *blake3::hash(input.as_slice()).as_bytes()
}

} // verus!
