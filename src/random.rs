use vstd::prelude::*;
use rand::rngs::StdRng;
use rand::seq::{IteratorRandom, SliceRandom};
use rand::{Rng, SeedableRng};

verus! {

/// The seedable generator of the rand crate; opaque here.
#[verifier::external_type_specification]
#[verifier::external_body]
pub struct ExStdRng(StdRng);

/// Relies on rand's `SeedableRng::seed_from_u64`: a generator fixed by `seed`.
#[verifier::external_body]
pub(crate) fn seeded_rng(seed: u64) -> StdRng {
    StdRng::seed_from_u64(seed)
}

/// Relies on rand's `IteratorRandom::choose_multiple` over `0..n`: the result
/// holds `amount` values of the range (it has enough), each taken at most once.
#[verifier::external_body]
pub(crate) fn sample_indices(rng: &mut StdRng, n: usize, amount: usize) -> (r: Vec<usize>)
    requires
        amount <= n,
    ensures
        r@.len() == amount,
        forall|i: int| 0 <= i < r@.len() ==> r@[i] < n,
        forall|i: int, j: int| 0 <= i < j < r@.len() ==> r@[i] != r@[j],
{
    (0..n).choose_multiple(rng, amount)
}

/// Relies on rand's `Rng::gen_range` over `1..=hi`, which panics only on an
/// empty range.
#[verifier::external_body]
pub(crate) fn random_timer(rng: &mut StdRng, hi: u8) -> (r: u8)
    requires
        1 <= hi,
    ensures
        1 <= r <= hi,
{
    rng.gen_range(1..=hi)
}

/// Relies on rand's `SliceRandom::shuffle`: it permutes the slice in place.
#[verifier::external_body]
pub(crate) fn shuffle_directions(rng: &mut StdRng, d: &mut [(isize, isize); 4])
    ensures
        final(d)@.to_multiset() == old(d)@.to_multiset(),
{
    d.shuffle(rng)
}

} // verus!
