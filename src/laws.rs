//! Laws of the boost pool that relate its operations, each proved from the
//! operations' contracts.

use crate::boost_pool::amount_values;
use crate::boost_pool::boost_fee_fails;
use crate::boost_pool::covers;
use crate::boost_pool::fee_for;
use crate::boost_pool::owed_totals;
use crate::boost_pool::pool_fee_for;
use crate::boost_pool::provided_for;
use crate::boost_pool::AccountId;
use crate::boost_pool::BoostPool;
use crate::boost_pool::PrewitnessedDepositId;
use crate::keyed_seq::lemma_sum_nonneg;
use crate::keyed_seq::sum_of;
use crate::scaled_amount::scaled_from_chain;
use crate::scaled_amount::ChainAmount;
use vstd::prelude::*;

verus! {

/// In a well-formed pool, which every operation keeps well-formed, the
/// available amount is the sum of the boosters' amounts.
pub proof fn lemma_available_is_sum_of_amounts(pool: BoostPool)
    requires
        pool.wf(),
    ensures
        pool.available_spec() == sum_of(amount_values(pool.amounts_seq())),
{
}

/// With no network deduction and at least one booster, what the boosters of a
/// new boost are owed adds up to the boosted amount that
/// `provide_funds_for_boosting` reports (in scaled units): the principal the
/// pool supplied plus the whole fee.
pub proof fn lemma_boost_owed_sums_to_boosted(
    before: BoostPool,
    after: BoostPool,
    deposit: PrewitnessedDepositId,
    amount_to_boost: ChainAmount,
)
    requires
        before.wf(),
        before.amounts_seq().len() > 0,
        !boost_fee_fails(
            before.available_spec(),
            scaled_from_chain(amount_to_boost),
            before.fee_bps_spec(),
        ),
        !before.pending_map().contains_key(deposit),
        after.boosted_from(
            before,
            deposit,
            provided_for(
                before.available_spec(),
                scaled_from_chain(amount_to_boost),
                before.fee_bps_spec(),
            ),
            pool_fee_for(
                fee_for(
                    before.available_spec(),
                    scaled_from_chain(amount_to_boost),
                    before.fee_bps_spec(),
                ),
                0,
            ),
        ),
    ensures
        sum_of(owed_totals(after.pending_map()[deposit])) == provided_for(
            before.available_spec(),
            scaled_from_chain(amount_to_boost),
            before.fee_bps_spec(),
        ) + fee_for(
            before.available_spec(),
            scaled_from_chain(amount_to_boost),
            before.fee_bps_spec(),
        ),
{
    let available = before.available_spec();
    let amount = scaled_from_chain(amount_to_boost);
    let bps = before.fee_bps_spec();
    let fee = fee_for(available, amount, bps);
    let values = amount_values(before.amounts_seq());
    assert forall|k: int| 0 <= k < values.len() implies values[k] >= 0 by {}
    lemma_sum_nonneg(values);
    if covers(available, amount, bps) {
        let p: int = if bps * 100 <= 1_000_000 { bps * 100 } else { 1_000_000 };
        assert(amount * p / 1_000_000 >= 0) by (nonlinear_arith)
            requires
                amount >= 0,
                p >= 0,
        ;
    } else {
        let c = 10_000 - bps;
        assert(available * 10_000 / c >= available) by (nonlinear_arith)
            requires
                0 < c <= 10_000,
                0 <= available,
        {
            assert(available * 10_000 >= available * c);
            assert(available * c / c == available);
        }
    }
    assert(fee >= 0);
    assert(fee * 0 == 0);
    assert(pool_fee_for(fee, 0) == fee);
}

/// Once `stop_boosting` has taken a booster out, the booster is no longer
/// active, so calling it again fails with `AccountNotFoundInBoostPool` and
/// changes nothing.
pub proof fn lemma_stop_boosting_twice(before: BoostPool, after: BoostPool, booster: AccountId)
    requires
        before.wf(),
        before.amounts_map().contains_key(booster),
        after.stopped_from(before, booster),
    ensures
        !after.amounts_map().contains_key(booster),
{
}

} // verus!
