use vstd::prelude::*;

verus! {

#[verifier::external_type_specification]
#[verifier::external_body]
pub struct ExStdRng(rand::rngs::StdRng);

/// Relies on rand's `Rng::gen_range`: a sample drawn from the range
/// `0..n` lies below `n`. The range must not be empty, since `gen_range`
/// panics on an empty range.
#[verifier::external_body]
pub(crate) fn rand_below(rng: &mut rand::rngs::StdRng, n: usize) -> (r: usize)
    requires
        n >= 1,
    ensures
        r < n,
{
    rand::Rng::gen_range(rng, 0..n)
}

/// Relies on rand's `SliceRandom::shuffle`: the slice is permuted in
/// place, so afterwards it holds the same items with the same
/// multiplicities.
#[verifier::external_body]
pub(crate) fn shuffle_edges(
    rng: &mut rand::rngs::StdRng,
    v: &mut Vec<(usize, usize, usize, usize)>,
)
    ensures
        final(v)@.to_multiset() == old(v)@.to_multiset(),
{
    rand::seq::SliceRandom::shuffle(v.as_mut_slice(), rng)
}

} // verus!
