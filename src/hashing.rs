//! The seeded 64-bit hash that places a value in the index's rows.

use vstd::prelude::*;

verus! {

/// The 64-bit xxHash of the UTF-8 bytes of `text`, with `seed` mixed in.
pub uninterp spec fn xx_hash64(text: Seq<char>, seed: u64) -> u64;

/// Relies on `fasthash::xx::hash64_with_seed`: the result depends on the
/// bytes of `value` and on `seed` alone.
#[verifier::external_body]
pub(crate) fn hash_with_seed(value: &str, seed: u64) -> (r: u64)
    ensures
        r == xx_hash64(value@, seed),
{
    fasthash::xx::hash64_with_seed(value.as_bytes(), seed)
}

} // verus!
