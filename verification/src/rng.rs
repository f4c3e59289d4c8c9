//! The deterministic random number source: a ChaCha12 stream cipher seeded
//! once at setup, plus the draws the generator makes from it.

use vstd::prelude::*;

verus! {

#[verifier::external_type_specification]
#[verifier::external_body]
pub struct ExChaCha12Rng(rand_chacha::ChaCha12Rng);

/// Relies on rand_chacha's ChaCha12Rng::seed_from_u64: builds the generator
/// deterministically from the seed.
#[verifier::external_body]
pub fn seeded_rng(seed: u64) -> rand_chacha::ChaCha12Rng {
    <rand_chacha::ChaCha12Rng as rand::SeedableRng>::seed_from_u64(seed)
}

/// Relies on rand's Rng::gen_range over `0..n`: the draw lies in the range.
#[verifier::external_body]
pub fn rng_below(rng: &mut rand_chacha::ChaCha12Rng, n: u64) -> (r: u64)
    requires
        n >= 1,
    ensures
        r < n,
{
    rand::Rng::gen_range(rng, 0..n)
}

/// Relies on rand's SliceRandom::shuffle: permutes the elements in place.
#[verifier::external_body]
pub fn shuffle_vec<T>(rng: &mut rand_chacha::ChaCha12Rng, v: &mut Vec<T>)
    ensures
        final(v)@.to_multiset() == old(v)@.to_multiset(),
        final(v)@.len() == old(v)@.len(),
{
    rand::seq::SliceRandom::shuffle(v.as_mut_slice(), rng)
}

/// Relies on rand's SliceRandom::choose_multiple: samples
/// `min(k, v.len())` elements at distinct positions, without repetition.
/// The elements are plain copies, so the contents claim needs no trust in
/// any `Clone` implementation.
#[verifier::external_body]
pub fn choose_distinct<T: Copy>(rng: &mut rand_chacha::ChaCha12Rng, v: &Vec<T>, k: usize) -> (r:
    Vec<T>)
    ensures
        r@.len() == if k <= v@.len() {
            k as int
        } else {
            v@.len() as int
        },
        r@.to_multiset().subset_of(v@.to_multiset()),
{
    rand::seq::SliceRandom::choose_multiple(v.as_slice(), rng, k).copied().collect()
}

} // verus!
