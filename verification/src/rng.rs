//! The random choices of world generation, drawn from `rand`.

use vstd::prelude::*;
use rand::Rng;

verus! {

/// `amount` distinct indices below `length`, in random order, drawn by
/// `rand::seq::index::sample` from the thread's generator. The crate
/// documents that it returns exactly `amount` distinct indices from
/// `0..length` and panics when `amount > length`; which indices come out is
/// left to chance.
#[verifier::external_body]
pub(crate) fn sample_indices(length: usize, amount: usize) -> (v: Vec<usize>)
    requires
        amount <= length,
    ensures
        v@.len() == amount,
        v@.no_duplicates(),
        forall|i: int| 0 <= i < v@.len() ==> v@[i] < length,
{
    rand::seq::index::sample(&mut rand::thread_rng(), length, amount).into_vec()
}

/// A coin that comes up true with probability `numerator / denominator`,
/// tossed by `Rng::gen_ratio` on the thread's generator. The crate
/// documents that it panics when `denominator == 0` or
/// `numerator > denominator`, always gives true when the two are equal and
/// always false when `numerator == 0`; otherwise the outcome is left to chance.
#[verifier::external_body]
pub(crate) fn chance(numerator: u32, denominator: u32) -> (b: bool)
    requires
        0 < denominator,
        numerator <= denominator,
    ensures
        numerator == denominator ==> b,
        numerator == 0 ==> !b,
{
    rand::thread_rng().gen_ratio(numerator, denominator)
}

} // verus!
