//! Fixed-point amounts and the two boost fee formulas.

use crate::arith::mul_div;
use crate::arith::mul_div_spec;
use crate::arith::permill_floor_spec;
use crate::arith::permill_mul_floor;
use crate::arith::RoundingMode;
use vstd::prelude::*;

verus! {

/// Number of internal units in one unit of a chain's native amount.
pub const SCALE_FACTOR: u128 = 1000;

/// One hundred percent, in basis points.
pub const BASIS_POINTS_MAX: u16 = 10_000;

/// Parts per million in one basis point.
pub const BASIS_POINTS_PER_MILLION: u32 = 100;

/// Fee rate in basis points (hundredths of a percent).
pub type BasisPoints = u16;

/// A native chain amount.
pub type ChainAmount = u128;

/// `amount * SCALE_FACTOR`, saturating at the largest `u128`.
pub open spec fn scaled_from_chain(amount: u128) -> int {
    if amount * 1000 <= u128::MAX {
        amount * 1000
    } else {
        u128::MAX as int
    }
}

/// An amount in units of `1 / SCALE_FACTOR` of the native unit, which keeps
/// fractions of fees that the native unit cannot hold.
#[derive(Clone, Copy, Debug, PartialEq, Eq, Structural)]
pub struct ScaledAmount {
    pub val: u128,
}

impl ScaledAmount {
    pub fn from_chain_amount(amount: ChainAmount) -> (r: Self)
        ensures
            r.val == scaled_from_chain(amount),
    {
        if amount <= u128::MAX / SCALE_FACTOR {
            ScaledAmount { val: amount * SCALE_FACTOR }
        } else {
            ScaledAmount { val: u128::MAX }
        }
    }

    /// Takes `val` as already scaled.
    pub fn from_raw(val: u128) -> (r: Self)
        ensures
            r.val == val,
    {
        ScaledAmount { val }
    }

    /// Drops the fraction of a native unit.
    pub fn into_chain_amount(self) -> (r: ChainAmount)
        ensures
            r == self.val / 1000,
    {
        self.val / SCALE_FACTOR
    }

    pub fn checked_sub(self, rhs: Self) -> (r: Option<Self>)
        ensures
            r == (if rhs.val <= self.val {
                Some(ScaledAmount { val: (self.val - rhs.val) as u128 })
            } else {
                None::<ScaledAmount>
            }),
    {
        match self.val.checked_sub(rhs.val) {
            Some(val) => Some(ScaledAmount { val }),
            None => None,
        }
    }

    pub fn saturating_sub(self, rhs: Self) -> (r: Self)
        ensures
            r.val == (if rhs.val <= self.val { self.val - rhs.val } else { 0 }),
    {
        ScaledAmount { val: self.val.saturating_sub(rhs.val) }
    }

    pub fn checked_add(self, rhs: Self) -> (r: Option<Self>)
        ensures
            r == (if self.val + rhs.val <= u128::MAX {
                Some(ScaledAmount { val: (self.val + rhs.val) as u128 })
            } else {
                None::<ScaledAmount>
            }),
    {
        match self.val.checked_add(rhs.val) {
            Some(val) => Some(ScaledAmount { val }),
            None => None,
        }
    }

    pub fn saturating_add(self, rhs: Self) -> (r: Self)
        ensures
            r.val == (if self.val + rhs.val <= u128::MAX {
                self.val + rhs.val
            } else {
                u128::MAX as int
            }),
    {
        ScaledAmount { val: self.val.saturating_add(rhs.val) }
    }

    pub fn saturating_accrue(&mut self, rhs: Self)
        ensures
            final(self).val == (if old(self).val + rhs.val <= u128::MAX {
                old(self).val + rhs.val
            } else {
                u128::MAX as int
            }),
    {
        self.val = self.val.saturating_add(rhs.val);
    }

    pub fn saturating_reduce(&mut self, rhs: Self)
        ensures
            final(self).val == (if rhs.val <= old(self).val { old(self).val - rhs.val } else { 0 }),
    {
        self.val = self.val.saturating_sub(rhs.val);
    }
}

/// Scaling a native amount up and back down gives it back, for every amount
/// whose scaled form fits in 128 bits (that is, up to more than 10^35 native
/// units).
pub proof fn lemma_scaling_round_trip(amount: u128)
    requires
        amount <= u128::MAX / 1000,
    ensures
        scaled_from_chain(amount) / 1000 == amount,
{
    assert(amount * 1000 <= u128::MAX) by (nonlinear_arith)
        requires
            amount <= u128::MAX / 1000,
    ;
}

/// The fee on a boosted (gross) amount: `amount * fee_bps / 10_000`, rounded down.
pub open spec fn spec_fee_from_boosted(amount: int, fee_bps: BasisPoints) -> int {
    permill_floor_spec(fee_bps as int * 100, amount)
}

/// The gross amount whose net part, after the fee, is `provided`:
/// `provided * 10_000 / (10_000 - fee_bps)`, rounded down.
pub open spec fn spec_boosted_from_provided(provided: int, fee_bps: BasisPoints) -> int {
    mul_div_spec(provided, 10_000, 10_000 - fee_bps, RoundingMode::Down)
}

/// Whether the gross amount for `provided` can be computed: the rate is below
/// one hundred percent and the gross amount fits in 128 bits.
pub open spec fn fee_from_provided_is_valid(provided: int, fee_bps: BasisPoints) -> bool {
    fee_bps < 10_000 && spec_boosted_from_provided(provided, fee_bps) <= u128::MAX
}

/// The fee charged when only the net (provided) amount is known.
pub open spec fn spec_fee_from_provided(provided: int, fee_bps: BasisPoints) -> int {
    spec_boosted_from_provided(provided, fee_bps) - provided
}

/// Fee for a boost whose gross amount is known.
pub fn fee_from_boosted_amount(amount_to_boost: ScaledAmount, fee_bps: BasisPoints) -> (r:
    ScaledAmount)
    ensures
        r.val == spec_fee_from_boosted(amount_to_boost.val as int, fee_bps),
        r.val <= amount_to_boost.val,
{
    let parts = fee_bps as u32 * BASIS_POINTS_PER_MILLION;
    let fee = permill_mul_floor(parts, amount_to_boost.val);
    proof {
        let p: int = if parts <= 1_000_000 { parts as int } else { 1_000_000 };
        let n = amount_to_boost.val as int;
        assert(n * p <= n * 1_000_000) by (nonlinear_arith)
            requires
                0 <= p <= 1_000_000,
                0 <= n,
        ;
        assert(n * p / 1_000_000 <= n) by (nonlinear_arith)
            requires
                n * p <= n * 1_000_000,
                0 <= n,
        ;
    }
    ScaledAmount::from_raw(fee)
}

/// Fee for a boost of which only the provided (net) amount is known: the gross
/// amount is derived first. Fails with "invalid fee" for a rate of one hundred
/// percent or more, or when the gross amount does not fit in 128 bits.
pub fn fee_from_provided_amount(provided_amount: ScaledAmount, fee_bps: BasisPoints) -> (r: Result<
    ScaledAmount,
    &'static str,
>)
    ensures
        r is Ok <==> fee_from_provided_is_valid(provided_amount.val as int, fee_bps),
        r matches Ok(fee) ==> fee.val == spec_fee_from_provided(provided_amount.val as int, fee_bps),
        r matches Err(e) ==> e == "invalid fee",
{
    let inverse_fee = BASIS_POINTS_MAX.saturating_sub(fee_bps);
    let boosted = match mul_div(
        provided_amount.val,
        BASIS_POINTS_MAX as u128,
        inverse_fee as u128,
        RoundingMode::Down,
    ) {
        Some(boosted) => boosted,
        None => {
            return Err("invalid fee");
        },
    };
    proof {
        let p = provided_amount.val as int;
        let c = inverse_fee as int;
        assert(p * 10_000 / c >= p) by (nonlinear_arith)
            requires
                0 < c <= 10_000,
                0 <= p,
        {
            assert(p * 10_000 >= p * c);
            assert(p * c / c == p);
        }
    }
    match boosted.checked_sub(provided_amount.val) {
        Some(fee) => Ok(ScaledAmount::from_raw(fee)),
        None => Err("invalid fee"),
    }
}

} // verus!
