//! The seeded 64-bit hash by which nodes are named and keys are routed.

use vstd::prelude::*;

verus! {

/// The 64-bit XXH3 hash of the UTF-8 bytes of `data` under `seed`.
pub uninterp spec fn xxh3_64_seeded(data: Seq<char>, seed: u64) -> u64;

/// Calls `xxhash_rust::xxh3::xxh3_64_with_seed` on the bytes of `data`.
/// Trusted: the result is a function of the string and the seed alone, the
/// one that [`xxh3_64_seeded`] names.
#[verifier::external_body]
pub fn xxhash_64_with_seed(data: &str, seed: u64) -> (hash: u64)
    ensures
        hash == xxh3_64_seeded(data@, seed),
{
    xxhash_rust::xxh3::xxh3_64_with_seed(data.as_bytes(), seed)
}

/// The hash of `data` under seed zero.
pub fn xxhash_64(data: &str) -> (hash: u64)
    ensures
        hash == xxh3_64_seeded(data@, 0),
{
    xxhash_64_with_seed(data, 0)
}

} // verus!
