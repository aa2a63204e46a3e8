//! The hashes of keys.
use std::hash::{BuildHasher, Hash, RandomState};
use vstd::prelude::*;
use vstd::std_specs::cmp::PartialEqSpec;
use vstd::std_specs::hash::obeys_key_model;

verus! {

/// `BuildHasher::hash_one`: what `hasher` makes of `key`. Nothing is claimed of
/// the hash: it depends on the state of the hasher and on how `K` is hashed.
#[verifier::external_body]
pub(crate) fn hash_one<K: Hash, S: BuildHasher>(hasher: &S, key: &K) -> u64 {
    hasher.hash_one(key)
}

/// Whether `hash` is a hash that `hasher` gives `key`.
pub closed spec fn hashes_to<K: Hash, S: BuildHasher>(hasher: S, key: K, hash: u64) -> bool {
    call_ensures(hash_one::<K, S>, (&hasher, &key), hash)
}

/// Whether `hasher` gives equal keys one hash, each time it is asked. This is
/// what `Hash` and `BuildHasher` ask of their implementations.
pub open spec fn hashes_alike<K: Hash + PartialEq, S: BuildHasher>(hasher: S) -> bool {
    forall|a: K, b: K, g: u64, h: u64| #[trigger]
        hashes_to(hasher, a, g) && #[trigger] hashes_to(hasher, b, h) && a.eq_spec(&b) ==> g == h
}

/// `RandomState::new`: a hasher with random keys. It is claimed that the hasher,
/// once it is made, gives equal keys one hash each time `hash_one` is called on
/// it, where the keys are of a type whose `Hash` is deterministic and whose `==`
/// is identity. Nothing is claimed of which hash that is.
#[verifier::external_body]
pub(crate) fn random_state<K: Hash + Eq>() -> (hasher: RandomState)
    ensures
        (obeys_key_model::<K>() && K::obeys_eq_spec() ==> hashes_alike::<K, RandomState>(hasher)),
{
    RandomState::new()
}

/// A hash that `hasher` gives `key` is one that `hash_one` gives, and the other way
/// round.
pub(crate) proof fn law_hash_is_from_the_hasher<K: Hash, S: BuildHasher>(
    hasher: S,
    key: K,
    hash: u64,
)
    ensures
        hashes_to(hasher, key, hash) <==> call_ensures(
            hash_one::<K, S>,
            (&hasher, &key),
            hash,
        ),
{
}

/// Returns the hash that `hasher` gives `key`.
pub fn hash_key<K: Hash, S: BuildHasher>(hasher: &S, key: &K) -> (hash: u64)
    ensures
        hashes_to(*hasher, *key, hash),
{
    let hash_one = hash_one::<K, S>;
    hash_one(hasher, key)
}

} // verus!
