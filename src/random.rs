use rand::rngs::SmallRng;
use rand::seq::SliceRandom;
use rand::SeedableRng;
use vstd::prelude::*;

verus! {

#[verifier::external_type_specification]
#[verifier::external_body]
pub struct ExSmallRng(SmallRng);

/// Relies on `SeedableRng::seed_from_u64` for rand's small generator.
#[verifier::external_body]
pub(crate) fn seeded_rng(seed: u64) -> SmallRng {
    SmallRng::seed_from_u64(seed)
}

/// Relies on `SliceRandom::shuffle`: the entries of `p[start..end]` are
/// permuted in place, and the rest of `p` is left alone.
#[verifier::external_body]
pub(crate) fn shuffle_range(p: &mut Vec<usize>, start: usize, end: usize, rng: &mut SmallRng)
    requires
        start <= end <= old(p)@.len(),
    ensures
        final(p)@.len() == old(p)@.len(),
        final(p)@.to_multiset() == old(p)@.to_multiset(),
        forall|i: int|
            0 <= i < old(p)@.len() && !(start <= i < end) ==> #[trigger] final(p)@[i] == old(
                p,
            )@[i],
{
    p[start..end].shuffle(rng);
}

/// Relies on `SliceRandom::choose`: on a non-empty slice it returns one of
/// its elements.
#[verifier::external_body]
pub(crate) fn choose_one(items: &Vec<usize>, rng: &mut SmallRng) -> (r: usize)
    requires
        items@.len() > 0,
    ensures
        items@.contains(r),
{
    *items.choose(rng).unwrap()
}

} // verus!
