//! The seeded random source, from the `rand` crate, behind trusted
//! declarations. Every random draw that generation makes goes through the
//! functions of this module.

use vstd::prelude::*;
use rand::{Rng, SeedableRng, StdRng};

verus! {

/// Declares `rand::StdRng`, the platform's standard seedable generator, so
/// that verified code can hold and pass one. Its state is opaque.
#[verifier::external_type_specification]
#[verifier::external_body]
pub struct ExStdRng(StdRng);

/// Relies on `rand::StdRng as SeedableRng<&[usize]>::from_seed`: builds a
/// generator from a seed slice of any length without panicking.
#[verifier::external_body]
pub fn seed_rng(seed: &[usize]) -> StdRng {
    SeedableRng::from_seed(seed)
}

/// Relies on `rand::Rng::gen_range::<i32>`: returns a value in
/// `[low, high)`, and panics when `low >= high`, which the precondition
/// rules out.
#[verifier::external_body]
pub fn gen_range_i32(rng: &mut StdRng, low: i32, high: i32) -> (r: i32)
    requires
        low < high,
    ensures
        low <= r < high,
{
    rng.gen_range(low, high)
}

/// Relies on `rand::Rng::gen_range::<usize>`: returns a value in
/// `[low, high)`, and panics when `low >= high`, which the precondition
/// rules out.
#[verifier::external_body]
pub fn gen_range_usize(rng: &mut StdRng, low: usize, high: usize) -> (r: usize)
    requires
        low < high,
    ensures
        low <= r < high,
{
    rng.gen_range(low, high)
}

/// Relies on `rand::Rng::shuffle`: permutes the slice in place
/// (Fisher-Yates), so the multiset of elements is preserved.
#[verifier::external_body]
pub fn shuffle<T>(rng: &mut StdRng, values: &mut Vec<T>)
    ensures
        final(values)@.len() == old(values)@.len(),
        final(values)@.to_multiset() == old(values)@.to_multiset(),
{
    rng.shuffle(values.as_mut_slice())
}

} // verus!
