use std::collections::hash_map::DefaultHasher;
use std::hash::{Hash, Hasher};
use vstd::prelude::*;
use vstd::std_specs::hash::DefaultHasherAdditionalSpecFns;

verus! {

/// The bytes that hashing a `u64` writes into a hasher.
pub uninterp spec fn u64_hash_bytes(x: u64) -> Seq<u8>;

/// Feeds `x` to the hasher through `<u64 as Hash>::hash`.
///
/// Trusted: the claim is that hashing an integer performs one write to the
/// hasher of bytes that depend on the integer alone.
#[verifier::external_body]
fn hash_u64(x: u64, state: &mut DefaultHasher)
    ensures
        final(state)@ == old(state)@.push(u64_hash_bytes(x)),
{
    x.hash(state);
}

/// Hash of a key alone.
pub open spec fn key_hash(key: u64) -> u64 {
    DefaultHasher::spec_finish(seq![u64_hash_bytes(key)])
}

/// The hash of a key is that of a fresh hasher fed the key's own bytes:
/// all 64 bits of the key go into it.
pub proof fn lemma_key_hash_of_whole_key(key: u64)
    ensures
        key_hash(key) == DefaultHasher::spec_finish(seq![u64_hash_bytes(key)]),
{
}

/// Computes the hash of a key with a fresh hasher fed the whole key.
pub fn key_hash_exec(key: u64) -> (h: u64)
    ensures
        h == key_hash(key),
        h == DefaultHasher::spec_finish(seq![u64_hash_bytes(key)]),
{
    let mut hasher = DefaultHasher::new();
    hash_u64(key, &mut hasher);
    assert(hasher@ =~= seq![u64_hash_bytes(key)]);
    hasher.finish()
}

/// Hash of a seed followed by a key.
pub open spec fn seeded_hash(seed: u64, key: u64) -> u64 {
    DefaultHasher::spec_finish(seq![u64_hash_bytes(seed), u64_hash_bytes(key)])
}

/// The seeded hash of a key is that of a fresh hasher fed the seed's bytes
/// and then the key's bytes: all 64 bits of both go into it.
pub proof fn lemma_seeded_hash_of_whole_key(seed: u64, key: u64)
    ensures
        seeded_hash(seed, key) == DefaultHasher::spec_finish(seq![u64_hash_bytes(seed), u64_hash_bytes(key)]),
{
}

/// Computes the hash of a seed followed by a key.
pub fn seeded_hash_exec(seed: u64, key: u64) -> (h: u64)
    ensures
        h == seeded_hash(seed, key),
        h == DefaultHasher::spec_finish(seq![u64_hash_bytes(seed), u64_hash_bytes(key)]),
{
    let mut hasher = DefaultHasher::new();
    hash_u64(seed, &mut hasher);
    hash_u64(key, &mut hasher);
    assert(hasher@ =~= seq![u64_hash_bytes(seed), u64_hash_bytes(key)]);
    hasher.finish()
}

} // verus!
