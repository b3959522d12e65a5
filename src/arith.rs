//! Integer helpers backed by outside crates, each with the contract that the
//! crate's source gives it.

use nanorand::Rng;
use nanorand::WyRand;
use sp_arithmetic::helpers_128bit::multiply_by_rational_with_rounding;
use sp_arithmetic::Percent;
use sp_arithmetic::Permill;
use sp_arithmetic::Rounding;
use vstd::prelude::*;

verus! {

/// Direction in which a quotient that is not whole is brought to an integer.
#[derive(Clone, Copy, Debug, PartialEq, Eq, Structural)]
pub enum RoundingMode {
    Down,
    Up,
}

/// `a * b / c` over the integers, rounded as `mode` says (`c` must not be zero).
pub open spec fn mul_div_spec(a: int, b: int, c: int, mode: RoundingMode) -> int {
    match mode {
        RoundingMode::Down => a * b / c,
        RoundingMode::Up => (a * b + c - 1) / c,
    }
}

/// Relies on sp_arithmetic's `helpers_128bit::multiply_by_rational_with_rounding`:
/// `a * b / c` computed on 256 bits and rounded as asked; `None` when `c` is zero
/// or the rounded quotient does not fit in 128 bits.
#[verifier::external_body]
pub(crate) fn mul_div(a: u128, b: u128, c: u128, mode: RoundingMode) -> (r: Option<u128>)
    ensures
        r == (if c != 0 && mul_div_spec(a as int, b as int, c as int, mode) <= u128::MAX {
            Some(mul_div_spec(a as int, b as int, c as int, mode) as u128)
        } else {
            None::<u128>
        }),
{
    let rounding = match mode {
        RoundingMode::Down => Rounding::Down,
        RoundingMode::Up => Rounding::Up,
    };
    multiply_by_rational_with_rounding(a, b, c, rounding)
}

/// `n * parts / 1_000_000` rounded down, with `parts` capped at one million.
pub open spec fn permill_floor_spec(parts: int, n: int) -> int {
    let p = if parts <= 1_000_000 { parts } else { 1_000_000 };
    n * p / 1_000_000
}

/// Relies on sp_arithmetic's `Permill::from_parts` (which caps the parts at one
/// million) and `Permill::mul_floor` (an exact product, rounded down).
#[verifier::external_body]
pub(crate) fn permill_mul_floor(parts: u32, n: u128) -> (r: u128)
    ensures
        r == permill_floor_spec(parts as int, n as int),
{
    Permill::from_parts(parts).mul_floor(n)
}

/// `n * percent / 100` rounded to the nearest integer, halves rounded down, with
/// `percent` capped at one hundred.
pub open spec fn percent_nearest_spec(percent: int, n: int) -> int {
    let p = if percent <= 100 { percent } else { 100 };
    let x = n * p;
    x / 100 + if x % 100 > 50 { 1int } else { 0int }
}

/// Relies on sp_arithmetic's `Percent::from_percent` (which caps at one hundred)
/// and `Percent * u128` (an exact product, rounded to nearest with halves down).
#[verifier::external_body]
pub(crate) fn percent_mul(percent: u8, n: u128) -> (r: u128)
    ensures
        r == percent_nearest_spec(percent as int, n as int),
{
    Percent::from_percent(percent) * n
}

/// The index that a WyRand generator seeded with `seed` draws from `0..n`.
pub uninterp spec fn wyrand_pick(seed: u64, n: u64) -> u64;

/// Relies on nanorand's `WyRand::new_seed` and `Rng::generate_range`: the draw is
/// a function of the seed and the range alone, lies below `n` when `n` is
/// positive, and is zero for the empty range.
#[verifier::external_body]
pub(crate) fn seeded_index(seed: u64, n: u64) -> (r: u64)
    ensures
        r == wyrand_pick(seed, n),
        n > 0 ==> r < n,
        n == 0 ==> r == 0,
{
    WyRand::new_seed(seed).generate_range(0..n)
}

} // verus!
