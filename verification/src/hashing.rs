//! The one place where keys are hashed.
//!
//! A digest is made as the standard library's hash tables make it: a fresh
//! hasher is built, the key is fed to it, and the hasher is finished. None
//! of the three steps is given a contract. Which `u64` comes out is up to
//! the hashing strategy and the key's `Hash` impl, and either is free to
//! answer differently from one call to the next; the table's functions are
//! verified for every digest.
use std::hash::{BuildHasher, Hash, Hasher};
use vstd::prelude::*;

verus! {

/// A fresh hasher, by a call of `std::hash::BuildHasher::build_hasher`.
/// Nothing is claimed of it.
#[verifier::external_body]
fn fresh_hasher<S: BuildHasher>(state: &S) -> (hasher: S::Hasher) {
    state.build_hasher()
}

/// Feeds `key` to `hasher`, by a call of `std::hash::Hash::hash`. Nothing is
/// claimed of the hasher afterwards.
#[verifier::external_body]
fn feed<K: Hash, H: Hasher>(key: &K, hasher: &mut H) {
    key.hash(hasher)
}

/// The digest of what `hasher` was fed, by a call of
/// `std::hash::Hasher::finish`. Nothing is claimed of it.
#[verifier::external_body]
fn finish<H: Hasher>(hasher: &H) -> (digest: u64) {
    hasher.finish()
}

/// The digest of `key` under the hashing strategy `state`.
pub(crate) fn digest_of<K: Hash, S: BuildHasher>(state: &S, key: &K) -> (digest: u64) {
    let mut hasher = fresh_hasher(state);
    feed(key, &mut hasher);
    finish(&hasher)
}

} // verus!
