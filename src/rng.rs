//! The random source, bracket-lib's generator, seen through a few trusted calls.
use vstd::prelude::*;
use bracket_lib::random::RandomNumberGenerator;
use crate::components::Moving;

verus! {

/// bracket-lib's random number generator, carried as an opaque value.
#[verifier::external_type_specification]
#[verifier::external_body]
pub struct ExRandomNumberGenerator(RandomNumberGenerator);

/// Relies on `RandomNumberGenerator::new`: a generator seeded from the system's entropy.
#[verifier::external_body]
pub(crate) fn entropy_rng() -> (r: RandomNumberGenerator) {
    RandomNumberGenerator::new()
}

/// Relies on `RandomNumberGenerator::range`, which draws from `min..max` with `gen_range`:
/// the result lies in the half-open range (it panics on an empty range, which `requires`
/// leaves out).
#[verifier::external_body]
pub(crate) fn rng_range(rng: &mut RandomNumberGenerator, min: usize, max: usize) -> (r: usize)
    requires
        min < max,
    ensures
        min <= r < max,
{
    rng.range(min, max)
}

/// Relies on `RandomNumberGenerator::random_slice_entry`: some entry of a non-empty slice (it
/// rolls one die with as many faces as entries, so the length must stay below `i32::MAX`).
#[verifier::external_body]
pub(crate) fn rng_slice_entry(rng: &mut RandomNumberGenerator, items: &[Moving]) -> (r: Option<Moving>)
    requires
        items@.len() < i32::MAX,
    ensures
        items@.len() > 0 ==> r.is_some() && items@.contains(r.unwrap()),
        items@.len() == 0 ==> r.is_none(),
{
    rng.random_slice_entry(items).copied()
}

} // verus!
