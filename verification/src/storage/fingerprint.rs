//! Fingerprints of byte strings, computed by XXH3.

use vstd::prelude::*;

verus! {

/// The 64-bit XXH3 hash of a byte string, with the default seed.
pub uninterp spec fn xxh3_64_of(data: Seq<u8>) -> u64;

/// The 128-bit XXH3 hash of a byte string, with the default seed.
pub uninterp spec fn xxh3_128_of(data: Seq<u8>) -> u128;

/// `xxh3_64` of the crate `xxhash_rust`: the hash is a function of the
/// bytes alone.
#[verifier::external_body]
pub(crate) fn xxh3_64(data: &[u8]) -> (digest: u64)
    ensures
        digest == xxh3_64_of(data@),
{
    xxhash_rust::xxh3::xxh3_64(data)
}

/// `xxh3_128` of the crate `xxhash_rust`: the hash is a function of the
/// bytes alone.
#[verifier::external_body]
pub(crate) fn xxh3_128(data: &[u8]) -> (digest: u128)
    ensures
        digest == xxh3_128_of(data@),
{
    xxhash_rust::xxh3::xxh3_128(data)
}

} // verus!
