//! From a distance on the ground to tenths of a mile.
//!
//! A great-circle distance comes in whole millimetres. One metre is
//! 0.006213712 tenths of a mile, so one millimetre is 6 213 712 parts in
//! 10^12 of a tenth, and the conversion is exact integer arithmetic.

use vstd::prelude::*;
use vstd::arithmetic::div_mod::{lemma_div_is_ordered, lemma_fundamental_div_mod};

verus! {

/// The tenths of a mile that 10^12 millimetres make.
pub const TENTHS_NUMERATOR: u64 = 6_213_712;

/// The millimetres that make [`TENTHS_NUMERATOR`] tenths of a mile: 10^12.
pub const TENTHS_DENOMINATOR: u64 = 1_000_000_000_000;

/// The whole number of tenths of a mile nearest to `millimetres`; a value
/// halfway between two goes up.
pub open spec fn tenths_of_a_mile(millimetres: nat) -> nat {
    ((millimetres * TENTHS_NUMERATOR + TENTHS_DENOMINATOR / 2) / (TENTHS_DENOMINATOR as int)) as nat
}

/// Converts a distance in millimetres to tenths of a mile, rounded to the
/// nearest tenth.
pub fn to_tenths(millimetres: u64) -> (tenths: u64)
    ensures
        tenths == tenths_of_a_mile(millimetres as nat),
{
    assert(millimetres * TENTHS_NUMERATOR <= u64::MAX * TENTHS_NUMERATOR) by (nonlinear_arith)
        requires
            millimetres <= u64::MAX,
    ;
    let product: u128 = (millimetres as u128) * (TENTHS_NUMERATOR as u128);
    let half: u128 = (TENTHS_DENOMINATOR / 2) as u128;
    let scaled: u128 = product + half;
    let quotient: u128 = scaled / (TENTHS_DENOMINATOR as u128);
    proof {
        let most: int = u64::MAX * TENTHS_NUMERATOR + TENTHS_DENOMINATOR / 2;
        lemma_div_is_ordered(scaled as int, most, TENTHS_DENOMINATOR as int);
    }
    quotient as u64
}

/// The result of [`tenths_of_a_mile`] is within half a tenth of the exact
/// value: twice the difference never exceeds one tenth.
pub proof fn lemma_tenths_nearest(millimetres: nat)
    ensures
        2 * (tenths_of_a_mile(millimetres) * TENTHS_DENOMINATOR - millimetres * TENTHS_NUMERATOR)
            <= TENTHS_DENOMINATOR,
        2 * (millimetres * TENTHS_NUMERATOR - tenths_of_a_mile(millimetres) * TENTHS_DENOMINATOR)
            < TENTHS_DENOMINATOR,
{
    let x: int = millimetres * TENTHS_NUMERATOR + TENTHS_DENOMINATOR / 2;
    lemma_fundamental_div_mod(x, TENTHS_DENOMINATOR as int);
}

/// A longer way on the ground is never fewer tenths of a mile.
pub proof fn lemma_tenths_monotone(shorter: nat, longer: nat)
    requires
        shorter <= longer,
    ensures
        tenths_of_a_mile(shorter) <= tenths_of_a_mile(longer),
{
    assert(shorter * TENTHS_NUMERATOR <= longer * TENTHS_NUMERATOR) by (nonlinear_arith)
        requires
            shorter <= longer,
    ;
    let low: int = shorter * TENTHS_NUMERATOR + TENTHS_DENOMINATOR / 2;
    let high: int = longer * TENTHS_NUMERATOR + TENTHS_DENOMINATOR / 2;
    lemma_div_is_ordered(low, high, TENTHS_DENOMINATOR as int);
}

/// No distance on the ground is no distance in miles.
pub proof fn lemma_tenths_of_nothing()
    ensures
        tenths_of_a_mile(0) == 0,
{
}

} // verus!
