//! The 128-bit hash that keys the dispatch table.
use vstd::prelude::*;

verus! {

/// The xxh3 128-bit hash (seed 0, default secret) of a byte sequence.
pub uninterp spec fn xxh3_128_of(bytes: Seq<u8>) -> u128;

/// Relies on `xxhash_rust::xxh3::xxh3_128`: a total function of the input
/// bytes alone, with the seed and secret fixed.
#[verifier::external_body]
pub(crate) fn hash_bytes(bytes: &[u8]) -> (r: u128)
    ensures
        r == xxh3_128_of(bytes@),
{
    xxhash_rust::xxh3::xxh3_128(bytes)
}

} // verus!
