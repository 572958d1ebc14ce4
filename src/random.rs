//! Sources of randomness: thin wrappers over `rand`, each stating what
//! holds of every outcome.

use vstd::prelude::*;

verus! {

/// Relies on `rand::Rng::gen_range` over `rand::thread_rng`: a value drawn
/// from `lo..hi`. The call panics on an empty range, which `requires` rules
/// out.
#[verifier::external_body]
pub(crate) fn random_in(lo: usize, hi: usize) -> (r: usize)
    requires
        lo < hi,
    ensures
        lo <= r < hi,
{
    rand::Rng::gen_range(&mut rand::thread_rng(), lo..hi)
}

/// Relies on `rand::Rng::gen_ratio` over `rand::thread_rng`: `true` with
/// probability `numerator / denominator`. Through `Bernoulli::from_ratio` a
/// zero numerator never yields `true` and a numerator equal to the
/// denominator always does; the call panics when `numerator > denominator`
/// or `denominator == 0`, which `requires` rules out.
#[verifier::external_body]
pub(crate) fn random_ratio(numerator: u32, denominator: u32) -> (r: bool)
    requires
        0 < denominator,
        numerator <= denominator,
    ensures
        numerator == 0 ==> !r,
        numerator == denominator ==> r,
{
    rand::Rng::gen_ratio(&mut rand::thread_rng(), numerator, denominator)
}

/// Relies on `rand::seq::SliceRandom::shuffle` over `rand::thread_rng`:
/// the elements of `v[lo..hi]` are put in a random order, and nothing else
/// changes.
#[verifier::external_body]
pub(crate) fn shuffle_range(v: &mut Vec<usize>, lo: usize, hi: usize)
    requires
        lo <= hi <= old(v).len(),
    ensures
        final(v)@.len() == old(v)@.len(),
        final(v)@.subrange(lo as int, hi as int).to_multiset() == old(v)@.subrange(
            lo as int,
            hi as int,
        ).to_multiset(),
        forall|k: int|
            0 <= k < old(v)@.len() && !(lo <= k < hi) ==> #[trigger] final(v)@[k] == old(v)@[k],
{
    rand::seq::SliceRandom::shuffle(&mut v[lo..hi], &mut rand::thread_rng())
}

/// Relies on `rand::seq::index::sample` over `rand::thread_rng`: exactly
/// `amount` distinct indices below `length`, in random order. The call
/// panics when `amount > length`, which `requires` rules out.
#[verifier::external_body]
pub(crate) fn sample_indices(length: usize, amount: usize) -> (r: Vec<usize>)
    requires
        amount <= length,
    ensures
        r@.len() == amount,
        r@.no_duplicates(),
        forall|k: int| 0 <= k < r@.len() ==> #[trigger] r@[k] < length,
{
    rand::seq::index::sample(&mut rand::thread_rng(), length, amount).into_vec()
}

} // verus!
