use boost_pool::boost_pool::AccountId;
use boost_pool::boost_pool::BoostPool;
use boost_pool::boost_pool::DepositFinalisationOutcomeForPool;
use boost_pool::boost_pool::Error;
use boost_pool::boost_pool::OwedAmount;
use boost_pool::boost_pool::PrewitnessedDepositId;
use boost_pool::scaled_amount::fee_from_boosted_amount;
use boost_pool::scaled_amount::fee_from_provided_amount;
use boost_pool::scaled_amount::ScaledAmount;
use std::collections::BTreeMap;
use std::collections::BTreeSet;

type TestPool = BoostPool;
type Amount = u128;

const BOOSTER_1: AccountId = 1;
const BOOSTER_2: AccountId = 2;
const BOOSTER_3: AccountId = 3;

const BOOST_1: PrewitnessedDepositId = 1;
const BOOST_2: PrewitnessedDepositId = 2;

const NO_DEDUCTION: u8 = 0;

const MAX_BASIS_POINTS: u16 = 10_000;
const FLIPPERINOS_PER_FLIP: u128 = 1_000_000_000_000_000_000;

fn check_pool(pool: &TestPool, amounts: impl IntoIterator<Item = (AccountId, Amount)>) {
    assert_eq!(
        pool.get_amounts(),
        BTreeMap::from_iter(amounts.into_iter()),
        "mismatch in booster amounts"
    );
    let total_amount: u128 = pool
        .get_scaled_amounts()
        .iter()
        .fold(0u128, |acc, (_, x)| acc.checked_add(x.val).unwrap());
    assert_eq!(pool.get_scaled_available_amount().val, total_amount);
}

fn check_pending_boosts(
    pool: &TestPool,
    boosts: impl IntoIterator<Item = (PrewitnessedDepositId, Vec<(AccountId, Amount, Amount)>)>,
) {
    let expected: BTreeMap<_, _> = boosts
        .into_iter()
        .map(|(deposit_id, owed)| {
            (
                deposit_id,
                owed.into_iter()
                    .map(|(id, total, fee)| (id, OwedAmount { total, fee }))
                    .collect::<BTreeMap<_, _>>(),
            )
        })
        .collect();
    assert_eq!(pool.get_pending_boosts(), expected, "mismatch in pending boosts");
}

fn check_pending_withdrawals(
    pool: &TestPool,
    withdrawals: impl IntoIterator<Item = (AccountId, Vec<PrewitnessedDepositId>)>,
) {
    let expected: BTreeMap<_, BTreeSet<_>> = withdrawals
        .into_iter()
        .map(|(account_id, deposit_ids)| (account_id, deposit_ids.into_iter().collect()))
        .collect();
    assert_eq!(pool.get_pending_withdrawals(), &expected, "mismatch in pending withdrawals");
}

fn outcome(
    amount_credited_to_boosters: Amount,
    unlocked_funds: Vec<(AccountId, Amount)>,
) -> DepositFinalisationOutcomeForPool {
    DepositFinalisationOutcomeForPool { unlocked_funds, amount_credited_to_boosters }
}

#[test]
fn check_fee_math() {
    let boosted_amount = ScaledAmount::from_raw(1_000_000);
    assert_eq!(fee_from_boosted_amount(boosted_amount, 10), ScaledAmount::from_raw(1_000));

    let provided_amount = ScaledAmount::from_raw(1_000_000);
    assert_eq!(fee_from_provided_amount(provided_amount, 10), Ok(ScaledAmount::from_raw(1_001)));
}

#[test]
fn test_scaled_amount() {
    // Unreasonably large amounts on chains with many decimals still fit in
    // u128 after scaling up: 1 trillion FLIP.
    let amount: u128 = 1_000_000_000_000 * FLIPPERINOS_PER_FLIP;
    let scaled = ScaledAmount::from_chain_amount(amount);
    let recovered: u128 = scaled.into_chain_amount();
    assert_eq!(amount, recovered);
}

#[test]
fn adding_funds() {
    let mut pool = TestPool::new(5);

    pool.add_funds(BOOSTER_1, 1000);
    check_pool(&pool, [(BOOSTER_1, 1000)]);

    pool.add_funds(BOOSTER_1, 500);
    check_pool(&pool, [(BOOSTER_1, 1500)]);

    pool.add_funds(BOOSTER_2, 800);
    check_pool(&pool, [(BOOSTER_1, 1500), (BOOSTER_2, 800)]);
}

#[test]
fn withdrawing_funds() {
    let mut pool = TestPool::new(5);
    pool.add_funds(BOOSTER_1, 1000);
    pool.add_funds(BOOSTER_2, 900);
    pool.add_funds(BOOSTER_3, 800);
    check_pool(&pool, [(BOOSTER_1, 1000), (BOOSTER_2, 900), (BOOSTER_3, 800)]);

    // Nothing pending, so the whole amount comes back at once.
    assert_eq!(pool.stop_boosting(BOOSTER_1), Ok((1000, Default::default())));
    check_pool(&pool, [(BOOSTER_2, 900), (BOOSTER_3, 800)]);
    check_pending_withdrawals(&pool, []);

    assert_eq!(pool.stop_boosting(BOOSTER_2), Ok((900, Default::default())));
    check_pool(&pool, [(BOOSTER_3, 800)]);

    assert_eq!(pool.stop_boosting(BOOSTER_3), Ok((800, Default::default())));
    check_pool(&pool, []);
}

#[test]
fn withdrawing_twice_is_no_op() {
    const AMOUNT_1: u128 = 1000;
    const AMOUNT_2: u128 = 750;

    let mut pool = TestPool::new(0);
    pool.add_funds(BOOSTER_1, AMOUNT_1);
    pool.add_funds(BOOSTER_2, AMOUNT_2);

    assert_eq!(pool.stop_boosting(BOOSTER_1), Ok((AMOUNT_1, Default::default())));

    check_pool(&pool, [(BOOSTER_2, AMOUNT_2)]);

    assert_eq!(pool.stop_boosting(BOOSTER_1), Err(Error::AccountNotFoundInBoostPool));

    // No changes:
    check_pool(&pool, [(BOOSTER_2, AMOUNT_2)]);
}

#[test]
fn boosting_with_fees() {
    let mut pool = TestPool::new(100);

    pool.add_funds(BOOSTER_1, 1000);
    pool.add_funds(BOOSTER_2, 2000);

    check_pool(&pool, [(BOOSTER_1, 1000), (BOOSTER_2, 2000)]);

    assert_eq!(pool.provide_funds_for_boosting(BOOST_1, 1010, NO_DEDUCTION), Ok((1010, 10)));

    // The recorded amounts include fees.
    check_pending_boosts(&pool, [(BOOST_1, vec![(BOOSTER_1, 333 + 3, 3), (BOOSTER_2, 667 + 6, 6)])]);

    assert_eq!(pool.process_deposit_as_finalised(BOOST_1), outcome(1010, vec![]));

    check_pool(&pool, [(BOOSTER_1, 1003), (BOOSTER_2, 2006)]);
}

#[test]
fn boosting_with_max_network_fee_deduction() {
    const BOOST_FEE_BPS: u16 = 100;
    const INIT_BOOSTER_AMOUNT: u128 = 2000;
    const NETWORK_FEE_PORTION_PERCENT: u8 = 100;

    let mut pool = TestPool::new(BOOST_FEE_BPS);

    pool.add_funds(BOOSTER_1, INIT_BOOSTER_AMOUNT);

    check_pool(&pool, [(BOOSTER_1, INIT_BOOSTER_AMOUNT)]);

    const DEPOSIT_AMOUNT: u128 = 2000;
    const FULL_BOOST_FEE: u128 = DEPOSIT_AMOUNT * BOOST_FEE_BPS as u128 / MAX_BASIS_POINTS as u128;
    const PROVIDED_AMOUNT: u128 = DEPOSIT_AMOUNT - FULL_BOOST_FEE;

    // The full 1% boost fee is charged from the deposit.
    assert_eq!(
        pool.provide_funds_for_boosting(BOOST_1, DEPOSIT_AMOUNT, NETWORK_FEE_PORTION_PERCENT),
        Ok((DEPOSIT_AMOUNT, FULL_BOOST_FEE))
    );

    // The booster's contribution is recorded, but they earn no fee.
    check_pending_boosts(&pool, [(BOOST_1, vec![(BOOSTER_1, PROVIDED_AMOUNT, 0)])]);

    assert_eq!(pool.process_deposit_as_finalised(BOOST_1), outcome(PROVIDED_AMOUNT, vec![]));

    // No change in the boost pool after the deposit is finalised.
    check_pool(&pool, [(BOOSTER_1, INIT_BOOSTER_AMOUNT)]);
}

#[test]
fn boosting_with_fees_including_network_fee_portion() {
    const NETWORK_FEE_PORTION_PERCENT: u8 = 30;
    const BOOST_FEE_BPS: u16 = 100;

    let mut pool = TestPool::new(BOOST_FEE_BPS);

    pool.add_funds(BOOSTER_1, 1000);
    pool.add_funds(BOOSTER_2, 2000);

    check_pool(&pool, [(BOOSTER_1, 1000), (BOOSTER_2, 2000)]);

    const PROVIDED_AMOUNT: u128 = 1000;
    const FULL_BOOST_FEE: u128 = (PROVIDED_AMOUNT * BOOST_FEE_BPS as u128) / MAX_BASIS_POINTS as u128;

    const DEPOSIT_AMOUNT: u128 = PROVIDED_AMOUNT + FULL_BOOST_FEE;

    // The full 1% boost fee is charged from the deposit.
    assert_eq!(
        pool.provide_funds_for_boosting(BOOST_1, DEPOSIT_AMOUNT, NETWORK_FEE_PORTION_PERCENT),
        Ok((DEPOSIT_AMOUNT, FULL_BOOST_FEE))
    );

    const BOOSTER_1_FEE: u128 = 2;
    const BOOSTER_2_FEE: u128 = 4;

    const TOTAL_BOOSTERS_FEE: u128 = BOOSTER_1_FEE + BOOSTER_2_FEE;

    const NETWORK_FEE_FROM_BOOST: u128 = FULL_BOOST_FEE * NETWORK_FEE_PORTION_PERCENT as u128 / 100;

    // Network fee and boosters' fees make up the full boost fee, less one
    // unit lost to rounding when converting back to native units.
    assert_eq!(TOTAL_BOOSTERS_FEE, FULL_BOOST_FEE - NETWORK_FEE_FROM_BOOST - 1);

    // The recorded amounts include fees.
    check_pending_boosts(
        &pool,
        [(
            BOOST_1,
            vec![
                (BOOSTER_1, 333 + BOOSTER_1_FEE, BOOSTER_1_FEE),
                (BOOSTER_2, 667 + BOOSTER_2_FEE, BOOSTER_2_FEE),
            ],
        )],
    );

    assert_eq!(
        pool.process_deposit_as_finalised(BOOST_1),
        outcome(PROVIDED_AMOUNT + TOTAL_BOOSTERS_FEE, vec![])
    );

    check_pool(&pool, [(BOOSTER_1, 1000 + BOOSTER_1_FEE), (BOOSTER_2, 2000 + BOOSTER_2_FEE)]);
}

#[test]
fn adding_funds_during_pending_withdrawal_from_same_booster() {
    const AMOUNT_1: u128 = 1000;
    const AMOUNT_2: u128 = 3000;
    const DEPOSIT_AMOUNT: u128 = 2000;

    let mut pool = TestPool::new(0);

    pool.add_funds(BOOSTER_1, AMOUNT_1);
    pool.add_funds(BOOSTER_2, AMOUNT_2);

    assert_eq!(
        pool.provide_funds_for_boosting(BOOST_1, DEPOSIT_AMOUNT, NO_DEDUCTION),
        Ok((DEPOSIT_AMOUNT, 0))
    );
    check_pool(&pool, [(BOOSTER_1, 500), (BOOSTER_2, 1500)]);

    check_pending_boosts(&pool, [(BOOST_1, vec![(BOOSTER_1, 500, 0), (BOOSTER_2, 1500, 0)])]);

    assert_eq!(pool.stop_boosting(BOOSTER_1), Ok((500, BTreeSet::from_iter([BOOST_1]))));

    check_pool(&pool, [(BOOSTER_2, 1500)]);
    check_pending_boosts(&pool, [(BOOST_1, vec![(BOOSTER_1, 500, 0), (BOOSTER_2, 1500, 0)])]);
    check_pending_withdrawals(&pool, [(BOOSTER_1, vec![BOOST_1])]);

    // Booster 1 adds funds while withdrawing, so they no longer withdraw.
    pool.add_funds(BOOSTER_1, 1000);
    check_pending_withdrawals(&pool, []);

    // Booster 1's share goes back into the pool on finalisation.
    assert_eq!(pool.process_deposit_as_finalised(BOOST_1), outcome(DEPOSIT_AMOUNT, vec![]));
    check_pool(&pool, [(BOOSTER_1, 1500), (BOOSTER_2, AMOUNT_2)]);
}

#[test]
fn withdrawing_funds_before_finalisation() {
    let mut pool = TestPool::new(0);
    pool.add_funds(BOOSTER_1, 1000);
    pool.add_funds(BOOSTER_2, 1000);

    assert_eq!(pool.provide_funds_for_boosting(BOOST_1, 1000, NO_DEDUCTION), Ok((1000, 0)));
    check_pool(&pool, [(BOOSTER_1, 500), (BOOSTER_2, 500)]);

    // Some of the funds come back at once, the rest waits for the deposit.
    assert_eq!(pool.stop_boosting(BOOSTER_1), Ok((500, BTreeSet::from_iter([BOOST_1]))));
    check_pool(&pool, [(BOOSTER_2, 500)]);

    assert_eq!(
        pool.process_deposit_as_finalised(BOOST_1),
        outcome(1000, vec![(BOOSTER_1, 500)])
    );
    check_pool(&pool, [(BOOSTER_2, 1000)]);
}

#[test]
fn adding_funds_with_pending_withdrawals() {
    let mut pool = TestPool::new(0);
    pool.add_funds(BOOSTER_1, 1000);
    pool.add_funds(BOOSTER_2, 1000);

    assert_eq!(pool.provide_funds_for_boosting(BOOST_1, 1000, NO_DEDUCTION), Ok((1000, 0)));

    check_pool(&pool, [(BOOSTER_1, 500), (BOOSTER_2, 500)]);

    assert_eq!(pool.stop_boosting(BOOSTER_1), Ok((500, BTreeSet::from_iter([BOOST_1]))));
    check_pool(&pool, [(BOOSTER_2, 500)]);

    pool.add_funds(BOOSTER_3, 1000);
    check_pool(&pool, [(BOOSTER_2, 500), (BOOSTER_3, 1000)]);

    assert_eq!(
        pool.process_deposit_as_finalised(BOOST_1),
        outcome(1000, vec![(BOOSTER_1, 500)])
    );

    check_pool(&pool, [(BOOSTER_2, 1000), (BOOSTER_3, 1000)]);
}

#[test]
fn deposit_is_lost_no_withdrawal() {
    let mut pool = TestPool::new(0);
    pool.add_funds(BOOSTER_1, 1000);
    pool.add_funds(BOOSTER_2, 1000);
    check_pool(&pool, [(BOOSTER_1, 1000), (BOOSTER_2, 1000)]);

    assert_eq!(pool.provide_funds_for_boosting(BOOST_1, 1000, NO_DEDUCTION), Ok((1000, 0)));
    pool.process_deposit_as_lost(BOOST_1);
    check_pool(&pool, [(BOOSTER_1, 500), (BOOSTER_2, 500)]);
}

#[test]
fn deposit_is_lost_while_withdrawing() {
    let mut pool = TestPool::new(0);
    pool.add_funds(BOOSTER_1, 1000);
    pool.add_funds(BOOSTER_2, 1000);
    assert_eq!(pool.provide_funds_for_boosting(BOOST_1, 1000, NO_DEDUCTION), Ok((1000, 0)));
    assert_eq!(pool.stop_boosting(BOOSTER_1), Ok((500, BTreeSet::from_iter([BOOST_1]))));

    check_pool(&pool, [(BOOSTER_2, 500)]);
    check_pending_boosts(&pool, [(BOOST_1, vec![(BOOSTER_1, 500, 0), (BOOSTER_2, 500, 0)])]);
    check_pending_withdrawals(&pool, [(BOOSTER_1, vec![BOOST_1])]);

    pool.process_deposit_as_lost(BOOST_1);

    check_pool(&pool, [(BOOSTER_2, 500)]);
    // BOOSTER_1 waits for nothing any more, so is no longer withdrawing.
    check_pending_boosts(&pool, []);
}

#[test]
fn partially_losing_pending_withdrawals() {
    let mut pool = TestPool::new(0);
    pool.add_funds(BOOSTER_1, 1000);
    pool.add_funds(BOOSTER_2, 1000);

    assert_eq!(pool.provide_funds_for_boosting(BOOST_1, 500, NO_DEDUCTION), Ok((500, 0)));
    assert_eq!(pool.provide_funds_for_boosting(BOOST_2, 1000, NO_DEDUCTION), Ok((1000, 0)));

    check_pool(&pool, [(BOOSTER_1, 250), (BOOSTER_2, 250)]);

    assert_eq!(pool.stop_boosting(BOOSTER_1), Ok((250, BTreeSet::from_iter([BOOST_1, BOOST_2]))));

    check_pending_withdrawals(&pool, [(BOOSTER_1, vec![BOOST_1, BOOST_2])]);

    check_pool(&pool, [(BOOSTER_2, 250)]);
    check_pending_boosts(
        &pool,
        [
            (BOOST_1, vec![(BOOSTER_1, 250, 0), (BOOSTER_2, 250, 0)]),
            (BOOST_2, vec![(BOOSTER_1, 500, 0), (BOOSTER_2, 500, 0)]),
        ],
    );

    // The deposit of 500 is finalised: BOOSTER_1 gets 250, the other 250 goes
    // back to BOOSTER_2's available amount.
    {
        assert_eq!(
            pool.process_deposit_as_finalised(BOOST_1),
            outcome(500, vec![(BOOSTER_1, 250)])
        );

        check_pool(&pool, [(BOOSTER_2, 500)]);
        check_pending_withdrawals(&pool, [(BOOSTER_1, vec![BOOST_2])]);
        check_pending_boosts(&pool, [(BOOST_2, vec![(BOOSTER_1, 500, 0), (BOOSTER_2, 500, 0)])]);
    }

    // The other deposit is lost.
    {
        pool.process_deposit_as_lost(BOOST_2);
        check_pool(&pool, [(BOOSTER_2, 500)]);

        // BOOSTER_1 is no longer withdrawing.
        check_pending_withdrawals(&pool, []);

        check_pending_boosts(&pool, []);
    }
}

#[test]
fn booster_joins_then_funds_lost() {
    let mut pool = TestPool::new(0);
    pool.add_funds(BOOSTER_1, 1000);
    pool.add_funds(BOOSTER_2, 1000);

    assert_eq!(pool.provide_funds_for_boosting(BOOST_1, 500, NO_DEDUCTION), Ok((500, 0)));
    assert_eq!(pool.provide_funds_for_boosting(BOOST_2, 1000, NO_DEDUCTION), Ok((1000, 0)));

    assert_eq!(pool.stop_boosting(BOOSTER_1), Ok((250, BTreeSet::from_iter([BOOST_1, BOOST_2]))));
    check_pool(&pool, [(BOOSTER_2, 250)]);

    // A new booster joins while a withdrawal is pending.
    pool.add_funds(BOOSTER_3, 1000);
    check_pool(&pool, [(BOOSTER_2, 250), (BOOSTER_3, 1000)]);

    // The deposit of 500 is finalised; BOOSTER_3 took no part in the boost.
    assert_eq!(
        pool.process_deposit_as_finalised(BOOST_1),
        outcome(500, vec![(BOOSTER_1, 250)])
    );

    check_pool(&pool, [(BOOSTER_2, 500), (BOOSTER_3, 1000)]);

    // The other deposit is lost, which ends the pending withdrawal; BOOSTER_3
    // is not affected.
    pool.process_deposit_as_lost(BOOST_2);
    check_pool(&pool, [(BOOSTER_2, 500), (BOOSTER_3, 1000)]);
}

#[test]
fn booster_joins_between_boosts() {
    let mut pool = TestPool::new(200);
    pool.add_funds(BOOSTER_1, 1000);
    pool.add_funds(BOOSTER_2, 1000);

    assert_eq!(pool.provide_funds_for_boosting(BOOST_1, 500, NO_DEDUCTION), Ok((500, 10)));
    check_pool(&pool, [(BOOSTER_1, 755), (BOOSTER_2, 755)]);
    check_pending_boosts(&pool, [(BOOST_1, vec![(BOOSTER_1, 250, 5), (BOOSTER_2, 250, 5)])]);

    assert_eq!(pool.stop_boosting(BOOSTER_1), Ok((755, BTreeSet::from_iter([BOOST_1]))));
    check_pool(&pool, [(BOOSTER_2, 755)]);

    // A new booster joins while a withdrawal is pending.
    pool.add_funds(BOOSTER_3, 2000);
    check_pool(&pool, [(BOOSTER_2, 755), (BOOSTER_3, 2000)]);

    // Each booster's part of a boost follows their share of the pool.
    assert_eq!(pool.provide_funds_for_boosting(BOOST_2, 1000, NO_DEDUCTION), Ok((1000, 20)));
    check_pool(&pool, [(BOOSTER_2, 486), (BOOSTER_3, 1288)]);
    check_pending_boosts(
        &pool,
        [
            (BOOST_1, vec![(BOOSTER_1, 250, 5), (BOOSTER_2, 250, 5)]),
            (BOOST_2, vec![(BOOSTER_2, 274, 5), (BOOSTER_3, 725, 14)]),
        ],
    );

    // The deposit of 500 is finalised: 250 to BOOSTER_1's free balance and 250
    // back to BOOSTER_2; BOOSTER_3 joined later and gets nothing.
    assert_eq!(
        pool.process_deposit_as_finalised(BOOST_1),
        outcome(500, vec![(BOOSTER_1, 250)])
    );
    check_pool(&pool, [(BOOSTER_2, 736), (BOOSTER_3, 1288)]);
    check_pending_boosts(&pool, [(BOOST_2, vec![(BOOSTER_2, 274, 5), (BOOSTER_3, 725, 14)])]);

    {
        // The second deposit is lost: available amounts stay, and no boost is
        // pending any more.
        let mut pool = pool.clone();
        pool.process_deposit_as_lost(BOOST_2);
        check_pool(&pool, [(BOOSTER_2, 736), (BOOSTER_3, 1288)]);
        check_pending_boosts(&pool, []);
    }

    {
        // The second deposit arrives and goes back to its boosters.
        let mut pool = pool.clone();
        assert_eq!(pool.process_deposit_as_finalised(BOOST_2), outcome(1000, vec![]));
        check_pool(&pool, [(BOOSTER_2, 1010), (BOOSTER_3, 2014)]);
        check_pending_boosts(&pool, []);
    }
}

/// Boosters with small contributions earn rewards that add up to non-zero
/// chain amounts.
#[test]
fn small_rewards_accumulate() {
    // BOOSTER_2 owns a small fraction of the pool.
    let mut pool = TestPool::new(100);
    pool.add_funds(BOOSTER_1, 1000);
    pool.add_funds(BOOSTER_2, 50);

    const SMALL_DEPOSIT: u128 = 500;

    assert_eq!(
        pool.provide_funds_for_boosting(BOOST_1, SMALL_DEPOSIT, NO_DEDUCTION),
        Ok((SMALL_DEPOSIT, 5))
    );
    assert_eq!(pool.process_deposit_as_finalised(BOOST_1), outcome(SMALL_DEPOSIT, vec![]));

    // BOOSTER_2 earns about 0.25, rounded down in native units but kept in
    // scaled form.
    check_pool(&pool, [(BOOSTER_1, 1004), (BOOSTER_2, 50)]);

    // Four more boosts like that and BOOSTER_2 has a withdrawable fee.
    for prewitnessed_deposit_id in 1..=4 {
        assert_eq!(
            pool.provide_funds_for_boosting(prewitnessed_deposit_id, SMALL_DEPOSIT, NO_DEDUCTION),
            Ok((SMALL_DEPOSIT, 5))
        );
        assert_eq!(
            pool.process_deposit_as_finalised(prewitnessed_deposit_id),
            outcome(SMALL_DEPOSIT, vec![])
        );
    }

    check_pool(&pool, [(BOOSTER_1, 1023), (BOOSTER_2, 51)]);
}

#[test]
fn use_max_available_amount() {
    let mut pool = TestPool::new(100);
    pool.add_funds(BOOSTER_1, 1_000_000);

    // More is asked for than the pool holds: the pool supplies what it has,
    // and finding the rest is someone else's job.
    assert_eq!(
        pool.provide_funds_for_boosting(BOOST_1, 2_000_000, NO_DEDUCTION),
        Ok((1_010_101, 10_101))
    );

    check_pool(&pool, [(BOOSTER_1, 0)]);

    assert_eq!(pool.stop_boosting(BOOSTER_1), Ok((0, BTreeSet::from_iter([BOOST_1]))));

    pool.add_funds(BOOSTER_1, 200);

    assert_eq!(pool.process_deposit_as_finalised(BOOST_1), outcome(1_010_101, vec![]));

    check_pool(&pool, [(BOOSTER_1, 1_010_301)]);
}

#[test]
fn handling_rounding_errors() {
    const FEE_BPS: u16 = 100;
    let mut pool = TestPool::new(100);

    const DEPOSIT_AMOUNT: u128 = 1;
    // A number of boosters that leads to rounding errors.
    const BOOSTER_COUNT: u64 = 7;
    const BOOSTER_FUNDS: u128 = 1;

    for booster_id in 1..=BOOSTER_COUNT {
        pool.add_funds(booster_id, BOOSTER_FUNDS);
    }

    assert_eq!(
        pool.provide_funds_for_boosting(BOOST_1, DEPOSIT_AMOUNT, NO_DEDUCTION),
        Ok((DEPOSIT_AMOUNT, 0))
    );

    // One value is larger than the rest: that booster took the remainders.
    const EXPECTED_REMAINING_AMOUNTS: [u128; 7] = [858, 858, 858, 858, 858, 862, 858];

    assert_eq!(
        &pool.get_scaled_amounts().iter().map(|(_, scaled)| scaled.val).collect::<Vec<_>>(),
        &EXPECTED_REMAINING_AMOUNTS
    );

    // Despite rounding, the pool holds exactly the expected total.
    let deposit_amount = ScaledAmount::from_chain_amount(DEPOSIT_AMOUNT).val;
    {
        let booster_funds = ScaledAmount::from_chain_amount(BOOSTER_FUNDS).val;
        let fee = deposit_amount * FEE_BPS as u128 / 10_000;
        let expected_total_amount = BOOSTER_COUNT as u128 * booster_funds - deposit_amount + fee;

        assert_eq!(EXPECTED_REMAINING_AMOUNTS.into_iter().sum::<u128>(), expected_total_amount);
    }

    // Again one value is larger than the rest.
    const EXPECTED_AMOUNTS_TO_RECEIVE: [u128; 7] = [142, 142, 142, 142, 142, 148, 142];

    assert_eq!(
        &pool
            .get_scaled_pending_boost(BOOST_1)
            .unwrap()
            .iter()
            .map(|(_, owed)| owed.total.val)
            .collect::<Vec<_>>(),
        &EXPECTED_AMOUNTS_TO_RECEIVE
    );

    // Despite rounding, the total to receive is as expected.
    assert_eq!(EXPECTED_AMOUNTS_TO_RECEIVE.into_iter().sum::<u128>(), deposit_amount);
}
