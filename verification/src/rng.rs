use vstd::prelude::*;

use rand::seq::SliceRandom;
use rand::Rng;
use rand::SeedableRng;
use rand_chacha::ChaCha20Rng;
use rand_pcg::Mcg128Xsl64;

verus! {

/// The solvers' random number generator, `rand_pcg::Pcg64Mcg`.
#[verifier::external_type_specification]
#[verifier::external_body]
pub struct ExMcg128Xsl64(Mcg128Xsl64);

/// `SliceRandom::shuffle` on `v`: `rand` swaps the elements in place, so the result holds the
/// same elements, in an order drawn from `rng` that is not stated.
#[verifier::external_body]
pub(crate) fn shuffle_indices(v: &mut Vec<usize>, rng: &mut Mcg128Xsl64)
    ensures
        final(v)@.len() == old(v)@.len(),
        final(v)@.to_multiset() == old(v)@.to_multiset(),
{
    v.shuffle(rng);
}

/// `Rng::gen_range(low..high)`: a number drawn from `rng` with `low <= r < high`; `rand`
/// panics on an empty range, which `requires` leaves out. Which number is not stated.
#[verifier::external_body]
pub(crate) fn gen_index(rng: &mut Mcg128Xsl64, low: usize, high: usize) -> (r: usize)
    requires
        low < high,
    ensures
        low <= r < high,
{
    rng.gen_range(low..high)
}


/// `Rng::gen_range(low..=high)`: a number drawn from `rng` with `low <= r <= high`; `rand`
/// panics on an empty range, which `requires` leaves out. Which number is not stated.
#[verifier::external_body]
pub(crate) fn gen_index_inclusive(rng: &mut Mcg128Xsl64, low: usize, high: usize) -> (r: usize)
    requires
        low <= high,
    ensures
        low <= r <= high,
{
    rng.gen_range(low..=high)
}

/// The instance generator's random number generator, `rand_chacha::ChaCha20Rng`.
#[verifier::external_type_specification]
#[verifier::external_body]
pub struct ExChaCha20Rng(ChaCha20Rng);

/// `SeedableRng::seed_from_u64(seed)` for `ChaCha20Rng`. Nothing is stated of the stream
/// of numbers it will give.
#[verifier::external_body]
pub(crate) fn chacha_from_seed(seed: u64) -> ChaCha20Rng {
    ChaCha20Rng::seed_from_u64(seed)
}

/// `Rng::gen_range(low..=high)` on `i32`: a number with `low <= r <= high`; `rand` panics
/// on an empty range, which `requires` leaves out. Which number is not stated.
#[verifier::external_body]
pub(crate) fn chacha_gen_range(rng: &mut ChaCha20Rng, low: i32, high: i32) -> (r: i32)
    requires
        low <= high,
    ensures
        low <= r <= high,
{
    rng.gen_range(low..=high)
}

/// `Rng::gen_range(low..high)` on `i32`: a number with `low <= r < high`; `rand` panics on
/// an empty range, which `requires` leaves out. Which number is not stated.
#[verifier::external_body]
pub(crate) fn chacha_gen_below(rng: &mut ChaCha20Rng, low: i32, high: i32) -> (r: i32)
    requires
        low < high,
    ensures
        low <= r < high,
{
    rng.gen_range(low..high)
}

/// `SliceRandom::shuffle` on a list of cells: the same cells, in an order drawn from `rng`
/// that is not stated.
#[verifier::external_body]
pub(crate) fn chacha_shuffle(v: &mut Vec<(usize, usize)>, rng: &mut ChaCha20Rng)
    ensures
        final(v)@.len() == old(v)@.len(),
        final(v)@.to_multiset() == old(v)@.to_multiset(),
{
    v.shuffle(rng);
}

} // verus!
