//! The random source: the standard generator of the `rand` crate, reached
//! through a few trusted wrappers.

use rand::Rng;
use vstd::prelude::*;

verus! {

/// The generator type of the `rand` crate; nothing is known of its state.
#[verifier::external_type_specification]
#[verifier::external_body]
pub struct ExStdRng(rand::StdRng);

/// Calls `Rng::gen_range(0, bound)`, which returns an integer that is at
/// least zero and less than `bound`, and panics where `bound` is zero.
#[verifier::external_body]
pub(crate) fn below(rng: &mut rand::StdRng, bound: usize) -> (r: usize)
    requires
        bound > 0,
    ensures
        r < bound,
{
    rng.gen_range(0, bound)
}

/// Calls `Rng::gen::<bool>()`. Nothing is claimed of the result.
#[verifier::external_body]
pub(crate) fn coin(rng: &mut rand::StdRng) -> bool {
    rng.gen::<bool>()
}

/// Calls `Rng::choose`, which returns nothing for an empty slice and
/// otherwise one of the slice's elements.
#[verifier::external_body]
pub(crate) fn pick(rng: &mut rand::StdRng, values: &Vec<usize>) -> (r: Option<usize>)
    ensures
        values@.len() == 0 ==> r is None,
        values@.len() > 0 ==> r is Some && values@.contains(r->0),
{
    rng.choose(values).copied()
}

/// Calls `Rng::gen::<usize>()`. Nothing is claimed of the result.
#[verifier::external_body]
pub(crate) fn draw(rng: &mut rand::StdRng) -> usize {
    rng.gen::<usize>()
}

/// Calls `SeedableRng::from_seed` with the one-element seed `[seed]`.
/// Nothing is claimed of the generator.
#[verifier::external_body]
pub(crate) fn seeded(seed: usize) -> rand::StdRng {
    rand::SeedableRng::from_seed(&[seed][..])
}

/// True with the probability `probability`, given in millionths: a uniform
/// draw below one million is compared with it.
pub fn chance(rng: &mut rand::StdRng, probability: u32) -> (hit: bool)
    ensures
        probability == 0 ==> !hit,
        probability >= 1_000_000 ==> hit,
{
    let draw = below(rng, 1_000_000);
    draw < probability as usize
}

/// A uniform fixed-point fraction: at least zero and less than one.
pub fn fraction(rng: &mut rand::StdRng) -> (r: i64)
    ensures
        0 <= r < 1_000_000,
{
    below(rng, 1_000_000) as i64
}

/// Plus one or minus one.
pub fn rand_pos_neg(rng: &mut rand::StdRng) -> (r: i64)
    ensures
        r == 1 || r == -1,
{
    if coin(rng) {
        1
    } else {
        -1
    }
}

} // verus!
