//! Trusted access to the fuzzer's fast random source.
//!
//! The library draws token indices, input offsets and iteration counts from
//! `libafl_bolts`' standard generator. Nothing is assumed of the drawn values
//! beyond their range.

use libafl_bolts::rands::Rand;
use libafl_bolts::rands::RomuDuoJrRand;
use vstd::prelude::*;

verus! {

#[verifier::external_type_specification]
#[verifier::external_body]
pub struct ExRomuDuoJrRand(RomuDuoJrRand);

/// Relies on `libafl_bolts::rands::Rand::below`: the result is below the
/// (positive) bound.
#[verifier::external_body]
pub fn rand_below(r: &mut RomuDuoJrRand, n: usize) -> (k: usize)
    requires
        n >= 1,
    ensures
        k < n,
{
    r.below(core::num::NonZeroUsize::new(n).unwrap())
}

/// Relies on `libafl_bolts::rands::Rand::below_or_zero`: the result is below
/// the bound, or zero when the bound is zero.
#[verifier::external_body]
pub fn rand_below_or_zero(r: &mut RomuDuoJrRand, n: usize) -> (k: usize)
    ensures
        n > 0 ==> k < n,
        n == 0 ==> k == 0,
{
    r.below_or_zero(n)
}

} // verus!
