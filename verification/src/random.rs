//! Seeded pseudo-random choices, made through `rand` and `rand_chacha`.
use rand::seq::SliceRandom;
use rand::Rng;
use rand::SeedableRng;
use rand_chacha::ChaCha8Rng;
use vstd::prelude::*;

verus! {

/// The ChaCha generator with 8 rounds from `rand_chacha`, held as an
/// opaque value.
#[verifier::external_type_specification]
#[verifier::external_body]
pub struct ExChaCha8Rng(ChaCha8Rng);

/// Calls `SeedableRng::seed_from_u64` for `ChaCha8Rng`: a generator whose
/// stream is fixed by `seed`. Nothing about the stream is stated.
#[verifier::external_body]
fn seeded_rng(seed: u64) -> ChaCha8Rng {
    ChaCha8Rng::seed_from_u64(seed)
}

/// Calls `Rng::gen_range(0..n)` on `usize`: a value below `n`. The range
/// must not be empty (the call panics on an empty range). The draw takes at
/// least one word from the generator, which moves its position in the
/// current block, so the generator's state is not the one it had before.
#[verifier::external_body]
fn draw_index(rng: &mut ChaCha8Rng, n: usize) -> (r: usize)
    requires
        n > 0,
    ensures
        r < n,
        *final(rng) != *old(rng),
{
    rng.gen_range(0..n)
}

/// Calls `SliceRandom::shuffle` on the vector: its elements are permuted
/// in place by swaps, so the same elements, with the same multiplicities,
/// remain. With two elements or more it draws a swap position for each
/// element after the first, so the generator's state moves on.
#[verifier::external_body]
fn shuffle_in_place(v: &mut Vec<usize>, rng: &mut ChaCha8Rng)
    ensures
        final(v)@.to_multiset() == old(v)@.to_multiset(),
        final(v)@.len() == old(v)@.len(),
        old(v)@.len() >= 2 ==> *final(rng) != *old(rng),
{
    v.as_mut_slice().shuffle(rng)
}

/// Shuffles `indices` with the generator and picks the first four of the
/// shuffled order: four entries at distinct positions of a permutation of
/// the old contents. The shuffle draws from the generator, so the
/// generator has moved on and the next call shuffles differently.
pub fn pick_four(indices: &mut Vec<usize>, rng: &mut ChaCha8Rng) -> (chosen: [usize; 4])
    requires
        old(indices)@.len() >= 4,
    ensures
        *final(rng) != *old(rng),
        final(indices)@.to_multiset() == old(indices)@.to_multiset(),
        final(indices)@.len() == old(indices)@.len(),
        chosen@ == final(indices)@.take(4),
{
    shuffle_in_place(indices, rng);
    let chosen = [indices[0], indices[1], indices[2], indices[3]];
    assert(chosen@ =~= indices@.take(4));
    chosen
}

/// A candidate of `hw` colour indices drawn one after another from the
/// generator seeded with `seed`, each below `nc`.
pub fn random_candidate(seed: u64, nc: usize, hw: usize) -> (cand: Vec<usize>)
    requires
        hw == 0 || nc > 0,
    ensures
        cand@.len() == hw,
        forall|i: int| 0 <= i < hw ==> #[trigger] cand@[i] < nc,
{
    let mut rng = seeded_rng(seed);
    let mut cand: Vec<usize> = Vec::new();
    let mut i: usize = 0;
    while i < hw
        invariant
            hw == 0 || nc > 0,
            i <= hw,
            cand@.len() == i,
            forall|k: int| 0 <= k < i ==> #[trigger] cand@[k] < nc,
        decreases hw - i,
    {
        let d = draw_index(&mut rng, nc);
        cand.push(d);
        i += 1;
    }
    cand
}


/// Seed of the random projections of embedding `ei`.
pub fn projection_seed(seed: u64, ei: usize) -> (s: u64)
    requires
        ei * 7919 <= u64::MAX,
    ensures
        s == (seed * 31 % 0x1_0000_0000_0000_0000 + ei * 7919) % 0x1_0000_0000_0000_0000,
{
    seed.wrapping_mul(31).wrapping_add(ei as u64 * 7919)
}

/// Seed of the transversal sampling for training pair `p_idx` and
/// embedding `ei`.
pub fn transversal_seed(seed: u64, p_idx: usize, ei: usize) -> (s: u64)
    requires
        42 + p_idx <= u64::MAX,
    ensures
        s == (((seed + 42 + p_idx) % 0x1_0000_0000_0000_0000) * 997 % 0x1_0000_0000_0000_0000 + ei)
            % 0x1_0000_0000_0000_0000,
{
    seed.wrapping_add(42 + p_idx as u64).wrapping_mul(997).wrapping_add(ei as u64)
}

} // verus!
