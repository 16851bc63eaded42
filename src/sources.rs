//! The two outside sources of bits: the 64-bit hash of a value and uniform
//! random draws. Nothing is assumed of either result.

use std::hash::{Hash, Hasher};
use twox_hash::XxHash64;
use vstd::prelude::*;

verus! {

/// Relies on twox_hash's `XxHash64` (its `Default` seeds it with 0): the
/// value is fed through `Hash` and the 64-bit digest is returned.
#[verifier::external_body]
pub(crate) fn hash_value<V: Hash + ?Sized>(value: &V) -> u64 {
    let mut hasher = XxHash64::default();
    value.hash(&mut hasher);
    hasher.finish()
}

/// Relies on `rand::random`: a uniform 64-bit draw from the thread-local
/// generator.
#[verifier::external_body]
pub(crate) fn random_u64() -> u64 {
    rand::random::<u64>()
}

} // verus!
