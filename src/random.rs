use vstd::prelude::*;

verus! {

#[verifier::external_type_specification]
#[verifier::external_body]
pub struct ExRng(fastrand::Rng);

/// Relies on fastrand::Rng::new: a generator seeded from the thread-local one.
pub assume_specification[ fastrand::Rng::new ]() -> fastrand::Rng;

/// Relies on fastrand::Rng::u32: a draw from the range `0..n`, which panics
/// only when the range is empty.
#[verifier::external_body]
pub(crate) fn draw_below(rng: &fastrand::Rng, n: u32) -> (r: u32)
    requires
        n > 0,
    ensures
        r < n,
{
    rng.u32(0..n)
}

/// Relies on fastrand::Rng::shuffle: it only swaps elements of the slice, so
/// the result is a permutation of the input.
#[verifier::external_body]
pub(crate) fn shuffle_indices(rng: &fastrand::Rng, v: &mut Vec<usize>)
    ensures
        final(v)@.len() == old(v)@.len(),
        final(v)@.to_multiset() == old(v)@.to_multiset(),
{
    rng.shuffle(v.as_mut_slice())
}


/// 1 or -1, at random.
pub fn rand_multiplier(rng: &fastrand::Rng) -> (r: i32)
    ensures
        r == 1 || r == -1,
{
    if draw_below(rng, 2) == 0 {
        -1
    } else {
        1
    }
}

} // verus!
