//! The random draws the algorithms make, each a thin call into `rand`.

use rand::Rng;
use rand::rngs::StdRng as OutsideStdRng;
use vstd::prelude::*;

pub use rand::rngs::StdRng;

verus! {

#[verifier::external_type_specification]
#[verifier::external_body]
pub struct ExStdRng(OutsideStdRng);

/// Calls `Rng::gen_range(low..high)` on `usize`. `rand` documents that the
/// value lies in the half-open range and panics on an empty range, which the
/// `requires` rules out. Which value comes out depends on the generator's
/// state: nothing more is claimed of it.
#[verifier::external_body]
pub(crate) fn gen_index(rng: &mut StdRng, low: usize, high: usize) -> (r: usize)
    requires
        low < high,
    ensures
        low <= r < high,
{
    rng.gen_range(low..high)
}

/// Calls `Rng::gen_range(low..high)` on `i32`; same claims as `gen_index`.
#[verifier::external_body]
pub(crate) fn gen_range_i32(rng: &mut StdRng, low: i32, high: i32) -> (r: i32)
    requires
        low < high,
    ensures
        low <= r < high,
{
    rng.gen_range(low..high)
}

/// Calls `Rng::gen_ratio(numerator, denominator)`: `true` with probability
/// `numerator / denominator`. Its documentation guarantees `false` when the
/// numerator is 0 and `true` when numerator and denominator are equal; it
/// panics when the denominator is 0 or below the numerator, which the
/// `requires` rules out. Otherwise the outcome is left open.
#[verifier::external_body]
pub(crate) fn gen_ratio(rng: &mut StdRng, numerator: u32, denominator: u32) -> (r: bool)
    requires
        0 < denominator,
        numerator <= denominator,
    ensures
        numerator == 0 ==> !r,
        numerator == denominator ==> r,
{
    rng.gen_ratio(numerator, denominator)
}

/// Calls `rand::seq::index::sample(rng, length, amount)` and turns the
/// result into a `Vec<usize>`. Its documentation promises exactly `amount`
/// distinct indices from `0..length`, and a panic when `amount > length`,
/// which the `requires` rules out. Which indices, and their order, is left
/// open.
#[verifier::external_body]
pub(crate) fn sample_indices(rng: &mut StdRng, length: usize, amount: usize) -> (r: Vec<usize>)
    requires
        amount <= length,
    ensures
        r.len() == amount,
        forall|i: int| 0 <= i < r.len() ==> r@[i] < length,
        r@.no_duplicates(),
{
    rand::seq::index::sample(rng, length, amount).into_vec()
}

} // verus!
