use rand::Rng;
use vstd::prelude::*;

verus! {

/// Calls `rand::seq::index::sample` on the thread's generator and turns the
/// result into a vector. Trusted: the crate documents that it returns exactly
/// `amount` distinct indices below `length`, in random order, and that it
/// panics where `amount` exceeds `length`. For a `length` beyond `u32::MAX`
/// its source hands on to a rejection sampler that asks for an `amount`
/// strictly below `length`, so that case is left out too.
#[verifier::external_body]
pub(crate) fn sample_positions(length: usize, amount: usize) -> (r: Vec<usize>)
    requires
        amount <= length,
        length <= u32::MAX || amount < length,
    ensures
        r@.len() == amount,
        r@.no_duplicates(),
        forall|i: int| 0 <= i < r@.len() ==> (#[trigger] r@[i]) < length,
{
    rand::seq::index::sample(&mut rand::thread_rng(), length, amount).into_vec()
}

/// Calls `Rng::gen_range` on the thread's generator with the range `0..n`.
/// Trusted: the result lies in the range; the crate panics on an empty one.
#[verifier::external_body]
pub(crate) fn pick_below(n: usize) -> (r: usize)
    requires
        n > 0,
    ensures
        r < n,
{
    rand::thread_rng().gen_range(0..n)
}

/// Calls `Rng::gen` for a `bool` on the thread's generator: a fair coin.
/// Nothing is claimed of the outcome.
#[verifier::external_body]
pub(crate) fn flip_coin() -> bool {
    rand::thread_rng().gen::<bool>()
}

} // verus!
