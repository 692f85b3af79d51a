//! The keyed hash family that every sketch shares.
//!
//! A sketch is pinned to a 64-bit seed at construction; both parties of a
//! reconciliation must agree on it.  The digest of an element under a seed is
//! a fixed function of the pair, so the same element lands in the same cells
//! on both sides.

use std::hash::{BuildHasher, Hasher};
use vstd::prelude::*;

verus! {

/// The 64-bit digest of `elem` under the hash family keyed with `seed`.
///
/// The digest is a fixed function of `(seed, elem)`: what it is on given
/// values is left unstated, and everything proved about sketches holds for
/// any such function.
pub uninterp spec fn digest(seed: u64, elem: u64) -> u64;

/// Relies on ahash: `RandomState::with_seeds` derives its keys from the seed
/// arguments alone (they are XORed with fixed constants), and the hasher it
/// builds maps one written `u64` to a digest that depends on the keys and the
/// input and nothing else.
#[verifier::external_body]
pub(crate) fn keyed_digest(seed: u64, elem: u64) -> (r: u64)
    ensures
        r == digest(seed, elem),
{
    let mut h = ahash::RandomState::with_seeds(seed, seed, seed, seed).build_hasher();
    h.write_u64(elem);
    h.finish()
}

} // verus!
