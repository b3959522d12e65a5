use boost_pool::boost_pool::BoostPool;
use boost_pool::boost_pool::DepositFinalisationOutcomeForPool;
use boost_pool::boost_pool::Error;
use boost_pool::scaled_amount::fee_from_provided_amount;
use boost_pool::scaled_amount::ScaledAmount;
use std::collections::BTreeMap;
use std::collections::BTreeSet;

fn scaled_sum_of_amounts(pool: &BoostPool) -> u128 {
    pool.get_scaled_amounts().iter().map(|(_, a)| a.val).sum()
}

fn assert_conserved(pool: &BoostPool) {
    assert_eq!(pool.get_scaled_available_amount().val, scaled_sum_of_amounts(pool));
}

#[test]
fn available_amount_is_sum_of_amounts_after_every_operation() {
    let mut pool = BoostPool::new(37);
    assert_conserved(&pool);
    pool.add_funds(3, 1234);
    assert_conserved(&pool);
    pool.add_funds(1, 77);
    assert_conserved(&pool);
    pool.add_funds(2, 5);
    assert_conserved(&pool);
    assert!(pool.provide_funds_for_boosting(10, 999, 25).is_ok());
    assert_conserved(&pool);
    assert!(pool.stop_boosting(1).is_ok());
    assert_conserved(&pool);
    assert!(pool.provide_funds_for_boosting(11, 5000, 0).is_ok());
    assert_conserved(&pool);
    pool.process_deposit_as_finalised(10);
    assert_conserved(&pool);
    pool.add_funds(1, 3);
    assert_conserved(&pool);
    pool.process_deposit_as_lost(11);
    assert_conserved(&pool);
}

#[test]
fn scaling_round_trips() {
    for amount in [0u128, 1, 999, 1_000_000_000_000_000_000_000_000_000_000, u128::MAX / 1000] {
        assert_eq!(ScaledAmount::from_chain_amount(amount).into_chain_amount(), amount);
    }
    // Beyond the range the scaled value saturates.
    assert_eq!(ScaledAmount::from_chain_amount(u128::MAX).val, u128::MAX);
}

#[test]
fn owed_totals_add_up_to_boosted_amount() {
    let mut pool = BoostPool::new(150);
    pool.add_funds(1, 333);
    pool.add_funds(2, 444);
    pool.add_funds(3, 555);
    let (boosted, fee) = pool.provide_funds_for_boosting(8, 700, 0).unwrap();
    assert_eq!((boosted, fee), (700, 10));
    let owed: u128 = pool.get_scaled_pending_boost(8).unwrap().iter().map(|(_, o)| o.total.val).sum();
    assert_eq!(owed, 700_000);
    assert_eq!(owed / 1000, boosted);
}

#[test]
fn owed_totals_add_up_on_partial_boost() {
    let mut pool = BoostPool::new(100);
    pool.add_funds(4, 300);
    pool.add_funds(9, 700);
    assert_eq!(pool.provide_funds_for_boosting(2, 5000, 0), Ok((1010, 10)));
    let owed: u128 = pool.get_scaled_pending_boost(2).unwrap().iter().map(|(_, o)| o.total.val).sum();
    assert_eq!(owed, 1_010_101);
}

#[test]
fn rounding_remainder_goes_to_one_booster() {
    let mut pool = BoostPool::new(100);
    for booster_id in 1..=7u64 {
        pool.add_funds(booster_id, 1);
    }
    assert_eq!(pool.provide_funds_for_boosting(1, 1, 0), Ok((1, 0)));
    let remaining: Vec<u128> = pool.get_scaled_amounts().iter().map(|(_, a)| a.val).collect();
    assert_eq!(remaining.iter().sum::<u128>(), 7 * 1000 - 1000 + 10);
    let different = remaining.iter().filter(|v| **v != remaining[0]).count();
    assert!(different <= 1);
}

#[test]
fn stop_boosting_twice_changes_nothing_the_second_time() {
    let mut pool = BoostPool::new(0);
    pool.add_funds(1, 1000);
    pool.add_funds(2, 1000);
    assert_eq!(pool.provide_funds_for_boosting(1, 1000, 0), Ok((1000, 0)));
    assert_eq!(pool.stop_boosting(1), Ok((500, BTreeSet::from_iter([1]))));
    let amounts = pool.get_amounts();
    let pending = pool.get_pending_boosts();
    let withdrawals = pool.get_pending_withdrawals().clone();
    let available = pool.get_scaled_available_amount();
    assert_eq!(pool.stop_boosting(1), Err(Error::AccountNotFoundInBoostPool));
    assert_eq!(pool.get_amounts(), amounts);
    assert_eq!(pool.get_pending_boosts(), pending);
    assert_eq!(pool.get_pending_withdrawals(), &withdrawals);
    assert_eq!(pool.get_scaled_available_amount(), available);
}

#[test]
fn scenario_basic_finalise_without_fee() {
    let mut pool = BoostPool::new(0);
    pool.add_funds(1, 1000);
    pool.add_funds(2, 1000);
    assert_eq!(pool.provide_funds_for_boosting(1, 1000, 0), Ok((1000, 0)));
    assert_eq!(pool.get_amounts(), BTreeMap::from_iter([(1, 500), (2, 500)]));
    assert_eq!(pool.stop_boosting(1), Ok((500, BTreeSet::from_iter([1]))));
    assert_eq!(
        pool.process_deposit_as_finalised(1),
        DepositFinalisationOutcomeForPool {
            unlocked_funds: vec![(1, 500)],
            amount_credited_to_boosters: 1000
        }
    );
    assert_eq!(pool.get_amounts(), BTreeMap::from_iter([(2, 1000)]));
}

#[test]
fn scenario_fee_on_partial_boost() {
    let mut pool = BoostPool::new(100);
    pool.add_funds(1, 1000);
    assert_eq!(pool.provide_funds_for_boosting(1, 2000, 0), Ok((1010, 10)));
    assert_eq!(pool.get_amounts(), BTreeMap::from_iter([(1, 0)]));
    assert_eq!(
        pool.process_deposit_as_finalised(1),
        DepositFinalisationOutcomeForPool {
            unlocked_funds: vec![],
            amount_credited_to_boosters: 1010
        }
    );
    assert_eq!(pool.get_amounts(), BTreeMap::from_iter([(1, 1010)]));
    pool.add_funds(1, 200);
    assert_eq!(pool.get_amounts(), BTreeMap::from_iter([(1, 1210)]));
}

#[test]
fn fee_from_provided_amount_rejects_full_rate_and_overflow() {
    assert_eq!(fee_from_provided_amount(ScaledAmount::from_raw(1000), 10_000), Err("invalid fee"));
    assert_eq!(fee_from_provided_amount(ScaledAmount::from_raw(1000), 20_000), Err("invalid fee"));
    assert_eq!(fee_from_provided_amount(ScaledAmount::from_raw(u128::MAX), 1), Err("invalid fee"));
    assert_eq!(
        fee_from_provided_amount(ScaledAmount::from_raw(990_000), 100),
        Ok(ScaledAmount::from_raw(10_000))
    );
}

#[test]
fn full_rate_takes_whole_deposit_as_fee() {
    let mut pool = BoostPool::new(10_000);
    pool.add_funds(1, 100);
    assert_eq!(pool.provide_funds_for_boosting(1, 40, 0), Ok((40, 40)));
    assert_eq!(pool.get_amounts(), BTreeMap::from_iter([(1, 100)]));
}

#[test]
fn duplicate_deposit_is_rejected_without_change() {
    let mut pool = BoostPool::new(0);
    pool.add_funds(1, 1000);
    assert_eq!(pool.provide_funds_for_boosting(5, 100, 0), Ok((100, 0)));
    assert_eq!(
        pool.provide_funds_for_boosting(5, 100, 0),
        Err("Pending boost id already exists")
    );
    assert_eq!(pool.get_amounts(), BTreeMap::from_iter([(1, 900)]));
    assert_eq!(pool.get_pending_boost_ids(), vec![5]);
}

#[test]
fn network_fee_is_rounded_to_nearest() {
    // Fee of 10.101 units; 50% goes to the network, rounded to nearest.
    let mut pool = BoostPool::new(100);
    pool.add_funds(1, 1000);
    assert_eq!(pool.provide_funds_for_boosting(1, 2000, 50), Ok((1010, 10)));
    let owed = pool.get_scaled_pending_boost(1).unwrap()[0].1;
    // 10_101 * 50 / 100 = 5050.5, rounded to 5050; the pool keeps 5051.
    assert_eq!(owed.total.val, 1_000_000 + 5051);
    assert_eq!(owed.fee.val, 5051);
}

#[test]
fn unknown_deposit_resolves_to_nothing() {
    let mut pool = BoostPool::new(0);
    pool.add_funds(1, 1000);
    assert_eq!(pool.process_deposit_as_lost(42), 0);
    assert_eq!(
        pool.process_deposit_as_finalised(42),
        DepositFinalisationOutcomeForPool {
            unlocked_funds: vec![],
            amount_credited_to_boosters: 0
        }
    );
    assert_eq!(pool.get_amounts(), BTreeMap::from_iter([(1, 1000)]));
}

#[test]
fn lost_deposit_reports_affected_boosters() {
    let mut pool = BoostPool::new(0);
    pool.add_funds(1, 1000);
    pool.add_funds(2, 1000);
    pool.add_funds(3, 1000);
    assert_eq!(pool.provide_funds_for_boosting(7, 300, 0), Ok((300, 0)));
    assert_eq!(pool.process_deposit_as_lost(7), 3);
    assert_eq!(pool.get_available_amount(), 2700);
}

#[test]
fn getters_report_native_amounts() {
    let mut pool = BoostPool::new(0);
    pool.add_funds(2, 10);
    pool.add_funds(1, 5);
    assert_eq!(pool.get_available_amount(), 15);
    assert_eq!(pool.get_available_amount_for_account(&1), Some(5));
    assert_eq!(pool.get_available_amount_for_account(&3), None);
    assert_eq!(pool.provide_funds_for_boosting(9, 3, 0), Ok((3, 0)));
    assert_eq!(pool.provide_funds_for_boosting(4, 3, 0), Ok((3, 0)));
    assert_eq!(pool.get_pending_boost_ids(), vec![4, 9]);
}

#[test]
fn room_for_amounts_up_to_128_bits() {
    let mut pool = BoostPool::new(0);
    assert!(pool.has_room_for(1000));
    assert!(pool.has_room_for(u128::MAX / 1000));
    pool.add_funds(1, u128::MAX / 1000);
    assert!(pool.has_room_for(0));
    assert!(!pool.has_room_for(1));
}
