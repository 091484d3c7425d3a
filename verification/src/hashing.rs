use vstd::prelude::*;

verus! {

/// Multiplier of the seeded 64-bit folding hash, one step per input byte.
pub const HASH_PRIME: u64 = 0x100000001b3;

/// One hash step: fold one byte into the running state.
pub open spec fn hash_step(h: u64, b: u8) -> u64 {
    vstd::wrapping::u64_specs::wrapping_mul(h ^ (b as u64), HASH_PRIME)
}

/// Seeded, deterministic hash of a byte sequence, defined left to right.
/// The hash function is pluggable by design; only determinism per seed matters
/// to the map, never the particular hash values.
pub open spec fn hash_bytes(seed: u64, s: Seq<u8>) -> u64
    decreases s.len(),
{
    if s.len() == 0 {
        seed
    } else {
        hash_step(hash_bytes(seed, s.drop_last()), s.last())
    }
}

/// Computes the seeded hash of `value`, matching `hash_bytes` exactly.
pub fn compute_hash(seed: u64, value: &[u8]) -> (h: u64)
    ensures
        h == hash_bytes(seed, value@),
{
    let mut h = seed;
    let mut i: usize = 0;
    while i < value.len()
        invariant
            i <= value@.len(),
            h == hash_bytes(seed, value@.take(i as int)),
        decreases value@.len() - i,
    {
        proof {
            assert(value@.take(i + 1).drop_last() =~= value@.take(i as int));
            assert(value@.take(i + 1).last() == value@[i as int]);
        }
        h = (h ^ (value[i] as u64)).wrapping_mul(HASH_PRIME);
        i = i + 1;
    }
    proof {
        assert(value@.take(value@.len() as int) =~= value@);
    }
    h
}

/// Relies on ahash::RandomState::new, which draws fresh random keys for each
/// state. The result is random: nothing is promised of it, and the map is
/// proved correct for every seed value.
#[verifier::external_body]
pub(crate) fn fresh_seed() -> u64 {
    ahash::RandomState::new().hash_one(0u64)
}

} // verus!
