//! The boost pool ledger: booster balances, in-flight boosts and pending
//! withdrawals.

use crate::arith::mul_div;
use crate::arith::percent_mul;
use crate::arith::percent_nearest_spec;
use crate::arith::seeded_index;
use crate::arith::wyrand_pick;
use crate::arith::RoundingMode;
use crate::encoding::amounts_bytes;
use crate::encoding::append_amounts;
use crate::encoding::append_owed;
use crate::encoding::compact_bytes;
use crate::encoding::encode_compact;
use crate::encoding::encode_u128;
use crate::encoding::encode_u16;
use crate::encoding::encode_u64;
use crate::encoding::encode_withdrawals;
use crate::encoding::le_bytes;
use crate::encoding::pending_bytes;
use crate::encoding::pending_entry_bytes;
use crate::encoding::withdrawals_bytes;
use crate::keyed_seq::find_key;
use crate::keyed_seq::has_key;
use crate::keyed_seq::key_index;
use crate::keyed_seq::lemma_has_key_take;
use crate::keyed_seq::keys_increasing;
use crate::keyed_seq::lemma_key_index;
use crate::keyed_seq::lemma_sum_bounds;
use crate::keyed_seq::lemma_sum_insert;
use crate::keyed_seq::lemma_sum_nonneg;
use crate::keyed_seq::lemma_sum_prefix_le;
use crate::keyed_seq::lemma_sum_push;
use crate::keyed_seq::lemma_sum_remove;
use crate::keyed_seq::lemma_sum_update;
use crate::keyed_seq::lemma_to_map_all;
use crate::keyed_seq::lemma_to_map_insert;
use crate::keyed_seq::lemma_to_map_remove;
use crate::keyed_seq::lemma_to_map_update;
use crate::keyed_seq::sum_of;
use crate::keyed_seq::to_map;
use crate::scaled_amount::fee_from_boosted_amount;
use crate::scaled_amount::fee_from_provided_amount;
use crate::scaled_amount::fee_from_provided_is_valid;
use crate::scaled_amount::scaled_from_chain;
use crate::scaled_amount::spec_fee_from_boosted;
use crate::scaled_amount::spec_fee_from_provided;
use crate::scaled_amount::BasisPoints;
use crate::scaled_amount::ChainAmount;
use crate::scaled_amount::ScaledAmount;
use std::collections::BTreeMap;
use std::collections::BTreeSet;
use vstd::prelude::*;

verus! {

broadcast use vstd::std_specs::btree::group_btree_axioms, vstd::laws_cmp::group_laws_cmp;

/// Identifies a booster.
pub type AccountId = u64;

/// Identifies a deposit that has been seen but not yet finalised.
pub type PrewitnessedDepositId = u64;

/// What a booster is owed from one boost: `total` includes the booster's share
/// of the fee, which is also given on its own as `fee`.
#[derive(Clone, Copy, Debug, PartialEq, Eq, Structural)]
pub struct OwedAmount<AmountT> {
    pub total: AmountT,
    pub fee: AmountT,
}

pub type OwedAmountScaled = OwedAmount<ScaledAmount>;

/// Why an operation on the pool failed.
#[derive(Clone, Copy, Debug, PartialEq, Eq, Structural)]
pub enum Error {
    AccountNotFoundInBoostPool,
}

/// What finalising a boosted deposit hands out: the shares of boosters who
/// asked to stop boosting, and the whole amount returned to boosters.
#[derive(Clone, Debug, PartialEq, Eq)]
pub struct DepositFinalisationOutcomeForPool {
    pub unlocked_funds: Vec<(AccountId, ChainAmount)>,
    pub amount_credited_to_boosters: ChainAmount,
}

/// The liquidity that boosters lend for one asset, what each of them has in
/// it, and what each is owed from the boosts still awaiting an outcome.
#[derive(Clone, Debug)]
pub struct BoostPool {
    /// Fee charged by the pool.
    fee_bps: BasisPoints,
    /// Total amount not used in any boost.
    available_amount: ScaledAmount,
    /// Each booster's part of `available_amount`, ordered by booster.
    amounts: Vec<(AccountId, ScaledAmount)>,
    /// Boosted deposits awaiting an outcome, ordered by deposit, with what each
    /// contributing booster is owed (ordered by booster).
    pending_boosts: Vec<(PrewitnessedDepositId, Vec<(AccountId, OwedAmountScaled)>)>,
    /// Boosters who stopped boosting, with the boosts they still wait for.
    pending_withdrawals: BTreeMap<AccountId, BTreeSet<PrewitnessedDepositId>>,
}

/// The scaled values of a booster sequence.
pub open spec fn amount_values(s: Seq<(AccountId, ScaledAmount)>) -> Seq<int> {
    s.map_values(|p: (AccountId, ScaledAmount)| p.1.val as int)
}

/// The owed totals of a contribution sequence.
pub open spec fn owed_totals(s: Seq<(AccountId, OwedAmountScaled)>) -> Seq<int> {
    s.map_values(|p: (AccountId, OwedAmountScaled)| p.1.total.val as int)
}

/// For each pending boost, the sum of what its boosters are owed.
pub open spec fn boost_totals(
    s: Seq<(PrewitnessedDepositId, Seq<(AccountId, OwedAmountScaled)>)>,
) -> Seq<int> {
    s.map_values(
        |e: (PrewitnessedDepositId, Seq<(AccountId, OwedAmountScaled)>)| sum_of(owed_totals(e.1)),
    )
}

/// Pending boosts with each contribution vector seen as a sequence.
pub open spec fn pending_view(
    s: Seq<(PrewitnessedDepositId, Vec<(AccountId, OwedAmountScaled)>)>,
) -> Seq<(PrewitnessedDepositId, Seq<(AccountId, OwedAmountScaled)>)> {
    s.map_values(
        |e: (PrewitnessedDepositId, Vec<(AccountId, OwedAmountScaled)>)| (e.0, e.1@),
    )
}

/// A booster's part of `required`: `required * amount / total`, rounded up so
/// that the parts never fall short of `required` (zero for an empty pool).
pub open spec fn contribution(required: int, amount: int, total: int) -> int {
    if total > 0 {
        (required * amount + total - 1) / total
    } else {
        0
    }
}

/// A booster's part of `receive`: `receive * amount / total`, rounded down so
/// that the parts never exceed `receive` (zero for an empty pool).
pub open spec fn share_to_receive(receive: int, amount: int, total: int) -> int {
    if total > 0 {
        receive * amount / total
    } else {
        0
    }
}

/// Each booster's contribution to `required`.
pub open spec fn contributions(s: Seq<(AccountId, ScaledAmount)>, required: int, total: int) -> Seq<
    int,
> {
    s.map_values(|p: (AccountId, ScaledAmount)| contribution(required, p.1.val as int, total))
}

/// Each booster's share of `receive`, before remainders.
pub open spec fn shares_to_receive(
    s: Seq<(AccountId, ScaledAmount)>,
    receive: int,
    total: int,
) -> Seq<int> {
    s.map_values(|p: (AccountId, ScaledAmount)| share_to_receive(receive, p.1.val as int, total))
}

/// Booster amounts after each booster gave its contribution to a boost that
/// needs `required` out of `total`; the booster at `lucky` gets back what the
/// rounded-up contributions took in excess.
pub open spec fn boosted_amounts(
    s: Seq<(AccountId, ScaledAmount)>,
    required: int,
    total: int,
    lucky: int,
) -> Seq<(AccountId, ScaledAmount)> {
    let excess = sum_of(contributions(s, required, total)) - required;
    Seq::new(
        s.len(),
        |i: int|
            (
                s[i].0,
                ScaledAmount {
                    val: (s[i].1.val - contribution(required, s[i].1.val as int, total) + if i
                        == lucky {
                        excess
                    } else {
                        0
                    }) as u128,
                },
            ),
    )
}

/// What each booster is owed from a boost that took `required` from the pool
/// and earns the pool `fee`; the booster at `lucky` also gets what the
/// rounded-down shares left over, counted as fee.
pub open spec fn boost_shares(
    s: Seq<(AccountId, ScaledAmount)>,
    required: int,
    fee: int,
    total: int,
    lucky: int,
) -> Seq<(AccountId, OwedAmountScaled)> {
    let receive = required + fee;
    let remaining = receive - sum_of(shares_to_receive(s, receive, total));
    Seq::new(
        s.len(),
        |i: int|
            {
                let c = contribution(required, s[i].1.val as int, total);
                let r = share_to_receive(receive, s[i].1.val as int, total);
                let extra = if i == lucky {
                    remaining
                } else {
                    0
                };
                (
                    s[i].0,
                    OwedAmount {
                        total: ScaledAmount { val: (r + extra) as u128 },
                        fee: ScaledAmount {
                            val: ((if c <= r {
                                r - c
                            } else {
                                0
                            }) + extra) as u128,
                        },
                    },
                )
            },
    )
}

/// A contribution is at most the booster's amount and within one unit of the
/// exact proportion.
proof fn lemma_contribution_bounds(required: int, amount: int, total: int)
    requires
        0 <= required <= total,
        0 <= amount,
    ensures
        0 <= contribution(required, amount, total) <= amount,
        contribution(required, amount, total) * total >= required * amount,
        total > 0 ==> contribution(required, amount, total) * total <= required * amount + total - 1,
{
    if total > 0 {
        let c = (required * amount + total - 1) / total;
        assert(required * amount <= total * amount) by (nonlinear_arith)
            requires
                required <= total,
                0 <= amount,
        ;
        assert((total * amount + total - 1) / total == amount) by (nonlinear_arith)
            requires
                total > 0,
                0 <= amount,
        ;
        assert(0 <= c <= amount) by (nonlinear_arith)
            requires
                c == (required * amount + total - 1) / total,
                required * amount <= total * amount,
                (total * amount + total - 1) / total == amount,
                total > 0,
                0 <= required * amount,
        ;
        assert(c * total >= required * amount) by (nonlinear_arith)
            requires
                c == (required * amount + total - 1) / total,
                total > 0,
                0 <= required * amount,
        ;
        assert(c * total <= required * amount + total - 1) by (nonlinear_arith)
            requires
                c == (required * amount + total - 1) / total,
                total > 0,
                0 <= required * amount,
        ;
    } else {
        assert(required * amount == 0) by (nonlinear_arith)
            requires
                required == 0,
        ;
    }
}

/// A share is at most `receive` and within one unit of the exact proportion.
proof fn lemma_share_bounds(receive: int, amount: int, total: int)
    requires
        0 <= receive,
        0 <= amount <= total,
    ensures
        0 <= share_to_receive(receive, amount, total) <= receive,
        share_to_receive(receive, amount, total) * total <= receive * amount,
        total > 0 ==> share_to_receive(receive, amount, total) * total + total - 1 >= receive * amount,
{
    if total > 0 {
        let r = receive * amount / total;
        assert(0 <= r <= receive && r * total <= receive * amount) by (nonlinear_arith)
            requires
                r == receive * amount / total,
                total > 0,
                0 <= receive,
                0 <= amount <= total,
        {
            assert(receive * amount <= receive * total);
        }
        assert(r * total + total - 1 >= receive * amount) by (nonlinear_arith)
            requires
                r == receive * amount / total,
                total > 0,
                0 <= receive * amount,
        ;
    }
}

/// A remainder left by `n` roundings, each off by less than one unit, is
/// below `n`.
proof fn lemma_remainder_below(x: int, n: int, t: int)
    requires
        t > 0,
        n > 0,
        x * t <= n * (t - 1),
    ensures
        x < n,
{
    if x >= n {
        assert(x * t >= n * t) by (nonlinear_arith)
            requires
                x >= n,
                t > 0,
        ;
        assert(n * t > n * (t - 1)) by (nonlinear_arith)
            requires
                n > 0,
                t > 0,
        ;
    }
}

/// The principal a deposit of scaled size `amount` needs from the pool once
/// the fee is taken off.
pub open spec fn required_for(amount: int, fee_bps: BasisPoints) -> int {
    amount - spec_fee_from_boosted(amount, fee_bps)
}

/// Whether `available` covers the whole of a deposit of scaled size `amount`.
pub open spec fn covers(available: int, amount: int, fee_bps: BasisPoints) -> bool {
    available >= required_for(amount, fee_bps)
}

/// The principal the pool supplies: all that is needed, or all it has.
pub open spec fn provided_for(available: int, amount: int, fee_bps: BasisPoints) -> int {
    if covers(available, amount, fee_bps) {
        required_for(amount, fee_bps)
    } else {
        available
    }
}

/// The fee charged for what the pool supplies.
pub open spec fn fee_for(available: int, amount: int, fee_bps: BasisPoints) -> int {
    if covers(available, amount, fee_bps) {
        spec_fee_from_boosted(amount, fee_bps)
    } else {
        spec_fee_from_provided(available, fee_bps)
    }
}

/// The part of `fee` left to boosters once the network's percentage is taken.
pub open spec fn pool_fee_for(fee: int, network_fee_deduction_percent: u8) -> int {
    let network_fee = percent_nearest_spec(network_fee_deduction_percent as int, fee);
    if network_fee <= fee {
        fee - network_fee
    } else {
        0
    }
}

/// Whether boosting fails for want of a valid fee: the pool cannot cover the
/// deposit and the fee on what it can supply cannot be computed.
pub open spec fn boost_fee_fails(available: int, amount: int, fee_bps: BasisPoints) -> bool {
    !covers(available, amount, fee_bps) && !fee_from_provided_is_valid(available, fee_bps)
}

proof fn lemma_partial_boost_fee_bound(a: int, available: int, fee_bps: int)
    requires
        0 <= fee_bps < 10_000,
        0 <= available,
        0 <= a,
        available < a - a * (fee_bps * 100) / 1_000_000,
    ensures
        available * 10_000 / (10_000 - fee_bps) <= a,
{
    let p = fee_bps * 100;
    let full = a * p / 1_000_000;
    assert(a * p < (full + 1) * 1_000_000) by (nonlinear_arith)
        requires
            full == a * p / 1_000_000,
            a * p >= 0,
    ;
    assert(available * 1_000_000 <= a * 1_000_000 - (full + 1) * 1_000_000) by (nonlinear_arith)
        requires
            available <= a - full - 1,
    ;
    assert(available * 10_000 * 100 < a * (10_000 - fee_bps) * 100) by (nonlinear_arith)
        requires
            available * 1_000_000 <= a * 1_000_000 - (full + 1) * 1_000_000,
            a * p < (full + 1) * 1_000_000,
            p == fee_bps * 100,
    ;
    let c = 10_000 - fee_bps;
    assert(available * 10_000 / c <= a) by (nonlinear_arith)
        requires
            available * 10_000 * 100 < a * c * 100,
            c > 0,
            available >= 0,
    {
        assert(available * 10_000 < a * c);
    }
}

/// Withdrawals after deposit `deposit` resolved for the boosters of
/// `contributions`: each of them who waits no longer waits for it, and one who
/// is left waiting for nothing is no longer withdrawing.
pub open spec fn resolved_withdrawals(
    w: Map<AccountId, Set<PrewitnessedDepositId>>,
    deposit: PrewitnessedDepositId,
    contributions: Seq<(AccountId, OwedAmountScaled)>,
) -> Map<AccountId, Set<PrewitnessedDepositId>> {
    Map::new(
        |b: AccountId|
            w.contains_key(b) && !(has_key(contributions, b) && w[b].remove(deposit).is_empty()),
        |b: AccountId|
            if has_key(contributions, b) {
                w[b].remove(deposit)
            } else {
                w[b]
            },
    )
}

/// `w` once `booster` no longer waits for `deposit`.
pub open spec fn released(
    w: Map<AccountId, Set<PrewitnessedDepositId>>,
    booster: AccountId,
    deposit: PrewitnessedDepositId,
) -> Map<AccountId, Set<PrewitnessedDepositId>> {
    if !w.contains_key(booster) {
        w
    } else if w[booster].remove(deposit).is_empty() {
        w.remove(booster)
    } else {
        w.insert(booster, w[booster].remove(deposit))
    }
}

proof fn lemma_resolved_step(
    w: Map<AccountId, Set<PrewitnessedDepositId>>,
    deposit: PrewitnessedDepositId,
    c: Seq<(AccountId, OwedAmountScaled)>,
    j: int,
)
    requires
        keys_increasing(c),
        0 <= j < c.len(),
    ensures
        resolved_withdrawals(w, deposit, c.take(j)).contains_key(c[j].0) == w.contains_key(c[j].0),
        resolved_withdrawals(w, deposit, c.take(j)).contains_key(c[j].0) ==> resolved_withdrawals(
            w,
            deposit,
            c.take(j),
        )[c[j].0] == w[c[j].0],
        resolved_withdrawals(w, deposit, c.take(j + 1)) == released(
            resolved_withdrawals(w, deposit, c.take(j)),
            c[j].0,
            deposit,
        ),
{
    lemma_has_key_take(c, j);
    let cur = resolved_withdrawals(w, deposit, c.take(j));
    let next = resolved_withdrawals(w, deposit, c.take(j + 1));
    assert(next =~= released(cur, c[j].0, deposit));
}

proof fn lemma_resolved_empty(
    w: Map<AccountId, Set<PrewitnessedDepositId>>,
    deposit: PrewitnessedDepositId,
    c: Seq<(AccountId, OwedAmountScaled)>,
)
    ensures
        resolved_withdrawals(w, deposit, c.take(0)) == w,
{
    assert(resolved_withdrawals(w, deposit, c.take(0)) =~= w);
}

/// The shares of the boosters of `c` who are withdrawing, in native units and
/// booster order.
pub open spec fn unlocked_of(
    c: Seq<(AccountId, OwedAmountScaled)>,
    w: Map<AccountId, Set<PrewitnessedDepositId>>,
) -> Seq<(AccountId, ChainAmount)>
    decreases c.len(),
{
    if c.len() == 0 {
        Seq::empty()
    } else {
        let prev = unlocked_of(c.drop_last(), w);
        if w.contains_key(c.last().0) {
            prev.push((c.last().0, (c.last().1.total.val / 1000) as u128))
        } else {
            prev
        }
    }
}

/// The sum of what is owed to the boosters of `c` who are not withdrawing.
pub open spec fn credited_total(
    c: Seq<(AccountId, OwedAmountScaled)>,
    w: Map<AccountId, Set<PrewitnessedDepositId>>,
) -> int
    decreases c.len(),
{
    if c.len() == 0 {
        0
    } else {
        credited_total(c.drop_last(), w) + if w.contains_key(c.last().0) {
            0
        } else {
            c.last().1.total.val as int
        }
    }
}

/// Booster amounts `m` once each booster of `c` who is not withdrawing has
/// what they are owed credited back.
pub open spec fn credited_amounts(
    m: Map<AccountId, ScaledAmount>,
    c: Seq<(AccountId, OwedAmountScaled)>,
    w: Map<AccountId, Set<PrewitnessedDepositId>>,
) -> Map<AccountId, ScaledAmount> {
    Map::new(
        |b: AccountId| m.contains_key(b) || (has_key(c, b) && !w.contains_key(b)),
        |b: AccountId|
            if has_key(c, b) && !w.contains_key(b) {
                ScaledAmount {
                    val: ((if m.contains_key(b) {
                        m[b].val as int
                    } else {
                        0
                    }) + c[key_index(c, b)].1.total.val) as u128,
                }
            } else {
                m[b]
            },
    )
}

proof fn lemma_credited_step(
    m: Map<AccountId, ScaledAmount>,
    c: Seq<(AccountId, OwedAmountScaled)>,
    w: Map<AccountId, Set<PrewitnessedDepositId>>,
    j: int,
)
    requires
        keys_increasing(c),
        0 <= j < c.len(),
    ensures
        ({
            let prev = credited_amounts(m, c.take(j), w);
            let b = c[j].0;
            &&& prev.contains_key(b) == m.contains_key(b)
            &&& prev.contains_key(b) ==> prev[b] == m[b]
            &&& credited_amounts(m, c.take(j + 1), w) == if w.contains_key(b) {
                prev
            } else {
                prev.insert(
                    b,
                    ScaledAmount {
                        val: ((if prev.contains_key(b) {
                            prev[b].val as int
                        } else {
                            0
                        }) + c[j].1.total.val) as u128,
                    },
                )
            }
        }),
        credited_total(c.take(j + 1), w) == credited_total(c.take(j), w) + if w.contains_key(
            c[j].0,
        ) {
            0
        } else {
            c[j].1.total.val as int
        },
        unlocked_of(c.take(j + 1), w) == if w.contains_key(c[j].0) {
            unlocked_of(c.take(j), w).push((c[j].0, (c[j].1.total.val / 1000) as u128))
        } else {
            unlocked_of(c.take(j), w)
        },
{
    let shorter = c.take(j);
    let longer = c.take(j + 1);
    assert(longer.drop_last() =~= shorter);
    lemma_has_key_take(c, j);
    lemma_to_map_all(shorter);
    lemma_to_map_all(longer);
    assert forall|k: u64| has_key(shorter, k) implies key_index(longer, k) == key_index(
        shorter,
        k,
    ) by {
        let i = choose|i: int| 0 <= i < shorter.len() && #[trigger] shorter[i].0 == k;
        assert(longer[i] == shorter[i]);
        assert(key_index(longer, longer[i].0) == i);
        assert(key_index(shorter, shorter[i].0) == i);
    }
    assert(key_index(longer, longer[j].0) == j);
    let prev = credited_amounts(m, shorter, w);
    let b = c[j].0;
    if w.contains_key(b) {
        assert(credited_amounts(m, longer, w) =~= prev);
    } else {
        assert(credited_amounts(m, longer, w) =~= prev.insert(
            b,
            ScaledAmount {
                val: ((if prev.contains_key(b) {
                    prev[b].val as int
                } else {
                    0
                }) + c[j].1.total.val) as u128,
            },
        ));
    }
}

/// Booster amounts in native units.
pub open spec fn native_amounts(m: Map<AccountId, ScaledAmount>) -> Map<AccountId, ChainAmount> {
    Map::new(|b: AccountId| m.contains_key(b), |b: AccountId| (m[b].val / 1000) as u128)
}

/// What each booster of a boost is owed, in native units.
pub open spec fn native_owed(c: Seq<(AccountId, OwedAmountScaled)>) -> Map<
    AccountId,
    OwedAmount<ChainAmount>,
> {
    Map::new(
        |b: AccountId| has_key(c, b),
        |b: AccountId|
            OwedAmount {
                total: (to_map(c)[b].total.val / 1000) as u128,
                fee: (to_map(c)[b].fee.val / 1000) as u128,
            },
    )
}

/// What each booster of a key-ordered contribution vector is owed, in native
/// units.
fn native_shares(v: &Vec<(AccountId, OwedAmountScaled)>) -> (r: BTreeMap<
    AccountId,
    OwedAmount<ChainAmount>,
>)
    requires
        keys_increasing(v@),
    ensures
        r@ == native_owed(v@),
{
    let mut r: BTreeMap<AccountId, OwedAmount<ChainAmount>> = BTreeMap::new();
    let mut i: usize = 0;
    proof {
        assert(r@ =~= native_owed(v@.take(0)));
    }
    while i < v.len()
        invariant
            i <= v@.len(),
            keys_increasing(v@),
            r@ == native_owed(v@.take(i as int)),
        decreases v@.len() - i,
    {
        let (booster_id, owed) = v[i];
        let native = OwedAmount {
            total: owed.total.into_chain_amount(),
            fee: owed.fee.into_chain_amount(),
        };
        r.insert(booster_id, native);
        proof {
            let shorter = v@.take(i as int);
            assert(v@.take(i as int + 1) =~= shorter.insert(i as int, (booster_id, owed)));
            assert(keys_increasing(shorter));
            lemma_to_map_insert(shorter, i as int, booster_id, owed);
            lemma_has_key_take(v@, i as int);
            assert(r@ =~= native_owed(v@.take(i as int + 1)));
        }
        i = i + 1;
    }
    proof {
        assert(v@.take(v@.len() as int) =~= v@);
    }
    r
}

impl BoostPool {
    pub closed spec fn fee_bps_spec(self) -> BasisPoints {
        self.fee_bps
    }

    /// The scaled amount available for boosting.
    pub closed spec fn available_spec(self) -> int {
        self.available_amount.val as int
    }

    /// Active boosters and their scaled amounts, in booster order.
    pub closed spec fn amounts_seq(self) -> Seq<(AccountId, ScaledAmount)> {
        self.amounts@
    }

    /// Pending boosts, in deposit order, each with its contributions.
    pub closed spec fn pending_seq(self) -> Seq<
        (PrewitnessedDepositId, Seq<(AccountId, OwedAmountScaled)>),
    > {
        pending_view(self.pending_boosts@)
    }

    /// Boosters who stopped boosting, and the deposits they still wait for.
    pub closed spec fn withdrawals_map(self) -> Map<AccountId, Set<PrewitnessedDepositId>> {
        Map::new(
            |b: AccountId| self.pending_withdrawals@.contains_key(b),
            |b: AccountId| self.pending_withdrawals@[b]@,
        )
    }

    pub open spec fn amounts_map(self) -> Map<AccountId, ScaledAmount> {
        to_map(self.amounts_seq())
    }

    /// A booster's scaled amount, zero for one that is not active.
    pub open spec fn amount_of(self, booster: AccountId) -> int {
        if self.amounts_map().contains_key(booster) {
            self.amounts_map()[booster].val as int
        } else {
            0
        }
    }

    pub open spec fn pending_map(self) -> Map<
        PrewitnessedDepositId,
        Seq<(AccountId, OwedAmountScaled)>,
    > {
        to_map(self.pending_seq())
    }

    /// Everything the pool holds or is owed: what is available plus what the
    /// pending boosts owe to boosters.
    pub open spec fn total_value(self) -> int {
        self.available_spec() + sum_of(boost_totals(self.pending_seq()))
    }

    /// The deposits whose pending boost `booster` contributed to.
    pub open spec fn deposits_of(self, booster: AccountId) -> Set<PrewitnessedDepositId> {
        Set::new(
            |d: PrewitnessedDepositId|
                exists|j: int|
                    0 <= j < self.pending_seq().len() && #[trigger] self.pending_seq()[j].0 == d
                        && has_key(self.pending_seq()[j].1, booster),
        )
    }

    /// The pool's invariant: its ledger balances, and the boosters who are
    /// withdrawing are consistent with the pending boosts.
    pub open spec fn wf(self) -> bool {
        &&& self.ledger_wf()
        &&& self.withdrawals_consistent()
    }

    /// Every withdrawing booster waits for at least one deposit, is not
    /// active, and contributed to the pending boost of each deposit they wait
    /// for.
    pub open spec fn withdrawals_consistent(self) -> bool {
        forall|b: AccountId| #[trigger]
            self.withdrawals_map().contains_key(b) ==> {
                &&& !self.withdrawals_map()[b].is_empty()
                &&& !self.amounts_map().contains_key(b)
                &&& forall|d: PrewitnessedDepositId| #[trigger]
                    self.withdrawals_map()[b].contains(d) ==> self.pending_map().contains_key(d)
                        && has_key(self.pending_map()[d], b)
            }
    }

    /// Keys are ordered, the available amount is the sum of the boosters'
    /// amounts, and everything the pool holds or owes fits in 128 bits.
    pub open spec fn ledger_wf(self) -> bool {
        &&& keys_increasing(self.amounts_seq())
        &&& keys_increasing(self.pending_seq())
        &&& forall|i: int|
            0 <= i < self.pending_seq().len() ==> keys_increasing(#[trigger] self.pending_seq()[i].1)
        &&& self.available_spec() == sum_of(amount_values(self.amounts_seq()))
        &&& self.total_value() <= u128::MAX
    }

    pub fn new(fee_bps: BasisPoints) -> (r: Self)
        ensures
            r.wf(),
            r.fee_bps_spec() == fee_bps,
            r.available_spec() == 0,
            r.amounts_seq().len() == 0,
            r.pending_seq().len() == 0,
            r.withdrawals_map() == Map::<AccountId, Set<PrewitnessedDepositId>>::empty(),
    {
        let r = BoostPool {
            fee_bps,
            available_amount: ScaledAmount::from_raw(0),
            amounts: Vec::new(),
            pending_boosts: Vec::new(),
            pending_withdrawals: BTreeMap::new(),
        };
        proof {
            assert(r.pending_seq() =~= Seq::empty());
            assert(boost_totals(r.pending_seq()) =~= Seq::empty());
            assert(amount_values(r.amounts_seq()) =~= Seq::empty());
            assert(r.withdrawals_map() =~= Map::empty());
        }
        r
    }

    proof fn lemma_amount_le_available(self, i: int)
        requires
            self.ledger_wf(),
            0 <= i < self.amounts_seq().len(),
        ensures
            self.amounts_seq()[i].1.val <= self.available_spec(),
    {
        lemma_sum_bounds(amount_values(self.amounts_seq()), i);
    }

    proof fn lemma_pending_total_nonneg(self)
        ensures
            sum_of(boost_totals(self.pending_seq())) >= 0,
    {
        let t = boost_totals(self.pending_seq());
        assert forall|j: int| 0 <= j < t.len() implies t[j] >= 0 by {
            let o = owed_totals(self.pending_seq()[j].1);
            assert forall|k: int| 0 <= k < o.len() implies o[k] >= 0 by {}
            lemma_sum_nonneg(o);
        }
        lemma_sum_nonneg(t);
    }

    fn add_funds_inner(&mut self, booster_id: AccountId, added_amount: ScaledAmount)
        requires
            old(self).ledger_wf(),
            old(self).total_value() + added_amount.val <= u128::MAX,
        ensures
            final(self).ledger_wf(),
            final(self).fee_bps_spec() == old(self).fee_bps_spec(),
            final(self).amounts_map() == old(self).amounts_map().insert(
                booster_id,
                ScaledAmount { val: (old(self).amount_of(booster_id) + added_amount.val) as u128 },
            ),
            final(self).available_spec() == old(self).available_spec() + added_amount.val,
            final(self).pending_seq() == old(self).pending_seq(),
            final(self).withdrawals_map() == old(self).withdrawals_map().remove(booster_id),
            old(self).withdrawals_consistent() ==> final(self).withdrawals_consistent(),
    {
        proof {
            old(self).lemma_pending_total_nonneg();
        }
        // A booster who adds funds no longer waits to withdraw.
        self.pending_withdrawals.remove(&booster_id);
        proof {
            assert(self.withdrawals_map() =~= old(self).withdrawals_map().remove(booster_id));
        }
        let ghost s = self.amounts@;
        match find_key(&self.amounts, booster_id) {
            Ok(i) => {
                let current = self.amounts[i].1;
                proof {
                    self.lemma_amount_le_available(i as int);
                    lemma_key_index(s, i as int);
                }
                let updated = ScaledAmount { val: current.val + added_amount.val };
                self.amounts.set(i, (booster_id, updated));
                proof {
                    lemma_to_map_update(s, i as int, updated);
                    assert(amount_values(self.amounts@) =~= amount_values(s).update(
                        i as int,
                        updated.val as int,
                    ));
                    lemma_sum_update(amount_values(s), i as int, updated.val as int);
                }
            },
            Err(pos) => {
                self.amounts.insert(pos, (booster_id, added_amount));
                proof {
                    lemma_to_map_insert(s, pos as int, booster_id, added_amount);
                    assert(amount_values(self.amounts@) =~= amount_values(s).insert(
                        pos as int,
                        added_amount.val as int,
                    ));
                    lemma_sum_insert(amount_values(s), pos as int, added_amount.val as int);
                }
            },
        }
        self.available_amount = ScaledAmount {
            val: self.available_amount.val + added_amount.val,
        };
    }

    /// Adds `added_amount` (native units) to the booster's active amount. A
    /// booster who was waiting to withdraw is taken as having changed their mind.
    /// The pool must have room for the amount (see `has_room_for`).
    pub fn add_funds(&mut self, booster_id: AccountId, added_amount: ChainAmount)
        requires
            old(self).wf(),
            old(self).total_value() + scaled_from_chain(added_amount) <= u128::MAX,
        ensures
            final(self).wf(),
            final(self).fee_bps_spec() == old(self).fee_bps_spec(),
            final(self).amounts_map() == old(self).amounts_map().insert(
                booster_id,
                ScaledAmount {
                    val: (old(self).amount_of(booster_id) + scaled_from_chain(added_amount)) as u128,
                },
            ),
            final(self).available_spec() == old(self).available_spec() + scaled_from_chain(
                added_amount,
            ),
            final(self).pending_seq() == old(self).pending_seq(),
            final(self).withdrawals_map() == old(self).withdrawals_map().remove(booster_id),
    {
        self.add_funds_inner(booster_id, ScaledAmount::from_chain_amount(added_amount));
    }

    /// The available amount in native units.
    pub fn get_available_amount(&self) -> (r: ChainAmount)
        ensures
            r == self.available_spec() / 1000,
    {
        self.available_amount.into_chain_amount()
    }

    /// A booster's active amount in native units, if the booster is active.
    pub fn get_available_amount_for_account(&self, booster_id: &AccountId) -> (r: Option<
        ChainAmount,
    >)
        requires
            self.wf(),
        ensures
            r == (if self.amounts_map().contains_key(*booster_id) {
                Some((self.amounts_map()[*booster_id].val / 1000) as u128)
            } else {
                None::<u128>
            }),
    {
        match find_key(&self.amounts, *booster_id) {
            Ok(i) => {
                proof {
                    lemma_key_index(self.amounts@, i as int);
                }
                Some(self.amounts[i].1.into_chain_amount())
            },
            Err(_) => {
                proof {
                    lemma_to_map_all(self.amounts@);
                }
                None
            },
        }
    }

    /// The deposits of the pending boosts that `booster_id` contributed to.
    fn deposits_with_booster(&self, booster_id: AccountId) -> (r: BTreeSet<PrewitnessedDepositId>)
        requires
            self.ledger_wf(),
        ensures
            r@ == self.deposits_of(booster_id),
    {
        let mut found: BTreeSet<PrewitnessedDepositId> = BTreeSet::new();
        let mut j: usize = 0;
        while j < self.pending_boosts.len()
            invariant
                self.ledger_wf(),
                j <= self.pending_seq().len(),
                self.pending_seq().len() == self.pending_boosts@.len(),
                forall|d: PrewitnessedDepositId|
                    found@.contains(d) <==> exists|jj: int|
                        0 <= jj < j && #[trigger] self.pending_seq()[jj].0 == d && has_key(
                            self.pending_seq()[jj].1,
                            booster_id,
                        ),
            decreases self.pending_boosts@.len() - j,
        {
            let entry = &self.pending_boosts[j];
            proof {
                assert(self.pending_seq()[j as int] == (entry.0, entry.1@));
                assert(keys_increasing(self.pending_seq()[j as int].1));
            }
            let hit = find_key(&entry.1, booster_id);
            if hit.is_ok() {
                found.insert(entry.0);
            }
            proof {
                assert forall|d: PrewitnessedDepositId|
                    found@.contains(d) <==> exists|jj: int|
                        0 <= jj < j + 1 && #[trigger] self.pending_seq()[jj].0 == d && has_key(
                            self.pending_seq()[jj].1,
                            booster_id,
                        ) by {
                    if d == entry.0 && hit.is_ok() {
                        assert(self.pending_seq()[j as int].0 == d);
                    }
                    if exists|jj: int|
                        0 <= jj < j + 1 && #[trigger] self.pending_seq()[jj].0 == d && has_key(
                            self.pending_seq()[jj].1,
                            booster_id,
                        ) {
                        let jj = choose|jj: int|
                            0 <= jj < j + 1 && #[trigger] self.pending_seq()[jj].0 == d && has_key(
                                self.pending_seq()[jj].1,
                                booster_id,
                            );
                        if jj < j {
                        }
                    }
                }
            }
            j = j + 1;
        }
        proof {
            assert(found@ =~= self.deposits_of(booster_id));
        }
        found
    }

    /// Takes the booster out of the pool: their active amount is returned at
    /// once, and each pending boost they contributed to is recorded as one they
    /// wait for. Fails, changing nothing, for a booster who is not active.
    pub fn stop_boosting(&mut self, booster_id: AccountId) -> (r: Result<
        (ChainAmount, BTreeSet<PrewitnessedDepositId>),
        Error,
    >)
        requires
            old(self).wf(),
        ensures
            final(self).wf(),
            !old(self).amounts_map().contains_key(booster_id) ==> {
                &&& r == Err::<(ChainAmount, BTreeSet<PrewitnessedDepositId>), Error>(
                    Error::AccountNotFoundInBoostPool,
                )
                &&& *final(self) == *old(self)
            },
            old(self).amounts_map().contains_key(booster_id) ==> {
                &&& r is Ok
                &&& r->Ok_0.0 == old(self).amounts_map()[booster_id].val / 1000
                &&& r->Ok_0.1@ == old(self).deposits_of(booster_id)
                &&& final(self).stopped_from(*old(self), booster_id)
            },
    {
        let ghost s = self.amounts@;
        let i = match find_key(&self.amounts, booster_id) {
            Ok(i) => i,
            Err(_) => {
                proof {
                    lemma_to_map_all(s);
                }
                return Err(Error::AccountNotFoundInBoostPool);
            },
        };
        let pending_deposits = self.deposits_with_booster(booster_id);
        proof {
            self.lemma_amount_le_available(i as int);
        }
        let (_, booster_active_amount) = self.amounts.remove(i);
        proof {
            lemma_key_index(s, i as int);
            lemma_to_map_remove(s, i as int);
            assert(amount_values(self.amounts@) =~= amount_values(s).remove(i as int));
            lemma_sum_remove(amount_values(s), i as int);
        }
        self.available_amount = ScaledAmount {
            val: self.available_amount.val - booster_active_amount.val,
        };
        if !pending_deposits.is_empty() {
            self.pending_withdrawals.insert(booster_id, pending_deposits.clone());
        }
        proof {
            if !pending_deposits@.is_empty() {
                assert(self.withdrawals_map() =~= old(self).withdrawals_map().insert(
                    booster_id,
                    pending_deposits@,
                ));
            } else {
                assert(self.withdrawals_map() =~= old(self).withdrawals_map());
            }
        }
        Ok((booster_active_amount.into_chain_amount(), pending_deposits))
    }

    /// Where `deposit` stands among the pending boosts: `Ok` with its position,
    /// or `Err` with the position where it would be inserted.
    fn pending_position(&self, deposit: PrewitnessedDepositId) -> (r: Result<usize, usize>)
        requires
            self.ledger_wf(),
        ensures
            r is Ok <==> self.pending_map().contains_key(deposit),
            r matches Ok(i) ==> i < self.pending_seq().len() && self.pending_seq()[i as int].0
                == deposit,
            r matches Err(pos) ==> {
                &&& pos <= self.pending_seq().len()
                &&& forall|j: int| 0 <= j < pos ==> self.pending_seq()[j].0 < deposit
                &&& forall|j: int| pos <= j < self.pending_seq().len() ==> self.pending_seq()[j].0 > deposit
            },
    {
        let ghost v = self.pending_seq();
        proof {
            assert(keys_increasing(self.pending_boosts@)) by {
                assert forall|a: int, b: int| 0 <= a < b < self.pending_boosts@.len() implies
                    self.pending_boosts@[a].0 < self.pending_boosts@[b].0 by {
                    assert(v[a].0 < v[b].0);
                }
            }
        }
        let r = find_key(&self.pending_boosts, deposit);
        proof {
            lemma_to_map_all(v);
            if has_key(self.pending_boosts@, deposit) {
                let j = choose|j: int|
                    0 <= j < self.pending_boosts@.len() && self.pending_boosts@[j].0 == deposit;
                assert(v[j].0 == deposit);
            }
            if has_key(v, deposit) {
                let j = choose|j: int| 0 <= j < v.len() && v[j].0 == deposit;
                assert(self.pending_boosts@[j].0 == deposit);
            }
        }
        r
    }

    /// The state that boosting deposit `deposit` with `required` taken from
    /// the pool and `fee` earned by it leaves, starting from `before`.
    pub open spec fn boosted_from(
        self,
        before: BoostPool,
        deposit: PrewitnessedDepositId,
        required: int,
        fee: int,
    ) -> bool {
        let s = before.amounts_seq();
        let total = before.available_spec();
        let lucky = wyrand_pick(deposit, s.len() as u64) as int;
        &&& self.fee_bps_spec() == before.fee_bps_spec()
        &&& self.available_spec() == before.available_spec() - required
        &&& self.amounts_seq() == boosted_amounts(s, required, total, lucky)
        &&& self.pending_map() == before.pending_map().insert(
            deposit,
            boost_shares(s, required, fee, total, lucky),
        )
        &&& self.withdrawals_map() == before.withdrawals_map()
        &&& s.len() > 0 ==> sum_of(owed_totals(self.pending_map()[deposit])) == required + fee
        &&& total > 0 ==> sum_of(contributions(s, required, total)) - required < s.len()
        &&& total > 0 ==> required + fee - sum_of(shares_to_receive(s, required + fee, total)) < s.len()
    }

    /// Takes `required_amount` from the boosters in proportion to their
    /// amounts and records what each is owed once the deposit resolves,
    /// `boost_pool_fee` included. The deposit id seeds the choice of the
    /// booster that absorbs the rounding remainders.
    #[verifier::rlimit(80)]
    fn use_funds_for_boosting(
        &mut self,
        prewitnessed_deposit_id: PrewitnessedDepositId,
        pos: usize,
        required_amount: ScaledAmount,
        boost_pool_fee: ScaledAmount,
    )
        requires
            old(self).wf(),
            required_amount.val <= old(self).available_spec(),
            old(self).total_value() + boost_pool_fee.val <= u128::MAX,
            pos <= old(self).pending_seq().len(),
            forall|j: int| 0 <= j < pos ==> old(self).pending_seq()[j].0 < prewitnessed_deposit_id,
            forall|j: int|
                pos <= j < old(self).pending_seq().len() ==> old(self).pending_seq()[j].0
                    > prewitnessed_deposit_id,
        ensures
            final(self).wf(),
            final(self).boosted_from(
                *old(self),
                prewitnessed_deposit_id,
                required_amount.val as int,
                boost_pool_fee.val as int,
            ),
    {
        let ghost s = self.amounts@;
        let ghost req = required_amount.val as int;
        let ghost fee = boost_pool_fee.val as int;
        proof {
            old(self).lemma_pending_total_nonneg();
            assert forall|j: int| 0 <= j < amount_values(s).len() implies amount_values(s)[j]
                >= 0 by {}
        }
        let current_total_available_amount = self.available_amount.val;
        let ghost total = current_total_available_amount as int;
        let amount_to_receive = required_amount.val + boost_pool_fee.val;
        let ghost receive = amount_to_receive as int;
        self.available_amount = ScaledAmount {
            val: current_total_available_amount - required_amount.val,
        };
        let n = self.amounts.len();
        let mut total_contributed: u128 = 0;
        let mut to_receive_recorded: u128 = 0;
        let mut shares: Vec<(AccountId, OwedAmountScaled)> = Vec::new();
        let mut i: usize = 0;
        proof {
            assert(s.take(0) =~= Seq::<(AccountId, ScaledAmount)>::empty());
            assert(contributions(s.take(0), req, total) =~= Seq::<int>::empty());
            assert(shares_to_receive(s.take(0), receive, total) =~= Seq::<int>::empty());
            assert(amount_values(s.take(0)) =~= Seq::<int>::empty());
            assert(owed_totals(shares@) =~= Seq::<int>::empty());
        }
        while i < n
            invariant
                n == s.len(),
                self.amounts@.len() == n,
                i <= n,
                keys_increasing(s),
                total == old(self).available_spec(),
                sum_of(amount_values(s)) == total,
                forall|j: int| 0 <= j < amount_values(s).len() ==> amount_values(s)[j] >= 0,
                req <= total,
                req == required_amount.val,
                fee == boost_pool_fee.val,
                receive == req + fee,
                receive == amount_to_receive,
                total == current_total_available_amount,
                forall|j: int|
                    0 <= j < i ==> #[trigger] self.amounts@[j] == (
                        s[j].0,
                        ScaledAmount {
                            val: (s[j].1.val - contribution(req, s[j].1.val as int, total)) as u128,
                        },
                    ),
                forall|j: int| i <= j < n ==> #[trigger] self.amounts@[j] == s[j],
                shares@.len() == i,
                // Position -1 names no booster: no remainder is handed out yet.
                forall|j: int|
                    0 <= j < i ==> #[trigger] shares@[j] == boost_shares(s, req, fee, total, -1)[j],
                total_contributed == sum_of(contributions(s.take(i as int), req, total)),
                to_receive_recorded == sum_of(shares_to_receive(s.take(i as int), receive, total)),
                to_receive_recorded <= receive,
                total_contributed <= sum_of(amount_values(s.take(i as int))),
                total_contributed * total >= req * sum_of(amount_values(s.take(i as int))),
                to_receive_recorded * total <= receive * sum_of(amount_values(s.take(i as int))),
                total > 0 ==> total_contributed * total <= req * sum_of(amount_values(s.take(i as int)))
                    + i * (total - 1),
                total > 0 ==> to_receive_recorded * total + i * (total - 1) >= receive * sum_of(
                    amount_values(s.take(i as int)),
                ),
                sum_of(owed_totals(shares@)) == to_receive_recorded,
                sum_of(amount_values(self.amounts@)) == total - total_contributed,
                self.available_amount.val == total - req,
                self.fee_bps == old(self).fee_bps,
                self.pending_boosts == old(self).pending_boosts,
                self.pending_withdrawals == old(self).pending_withdrawals,
            decreases n - i,
        {
            let (booster_id, amount) = self.amounts[i];
            let ghost a = amount.val as int;
            proof {
                assert(self.amounts@[i as int] == s[i as int]);
                lemma_sum_bounds(amount_values(s), i as int);
                lemma_contribution_bounds(req, a, total);
                lemma_share_bounds(receive, a, total);
                lemma_sum_prefix_le(amount_values(s), i as int + 1);
                assert(amount_values(s.take(i as int + 1)) =~= amount_values(s).take(i as int + 1));
                assert(amount_values(s.take(i as int + 1)) =~= amount_values(s.take(i as int)).push(a));
                assert(contributions(s.take(i as int + 1), req, total) =~= contributions(s.take(i as int), req, total).push(contribution(req, a, total)));
                assert(shares_to_receive(s.take(i as int + 1), receive, total) =~= shares_to_receive(s.take(i as int), receive, total).push(share_to_receive(receive, a, total)));
                lemma_sum_push(amount_values(s.take(i as int)), a);
                lemma_sum_push(contributions(s.take(i as int), req, total), contribution(req, a, total));
                lemma_sum_push(shares_to_receive(s.take(i as int), receive, total), share_to_receive(receive, a, total));
            }
            // Rounded up, so that the contributions cover the required amount.
            let booster_contribution = match mul_div(
                required_amount.val,
                amount.val,
                current_total_available_amount,
                RoundingMode::Up,
            ) {
                Some(c) => c,
                None => 0,
            };
            // Rounded down, so that no more is owed than the pool will receive.
            let booster_to_receive = match mul_div(
                amount_to_receive,
                amount.val,
                current_total_available_amount,
                RoundingMode::Down,
            ) {
                Some(r) => r,
                None => 0,
            };
            let booster_fee = booster_to_receive.saturating_sub(booster_contribution);
            let ghost prefix = sum_of(amount_values(s.take(i as int)));
            let ghost c = booster_contribution as int;
            let ghost r = booster_to_receive as int;
            proof {
                assert(c == contribution(req, a, total));
                assert(r == share_to_receive(receive, a, total));
                assert((total_contributed + c) * total >= req * (prefix + a)) by (nonlinear_arith)
                    requires
                        total_contributed * total >= req * prefix,
                        c * total >= req * a,
                ;
                assert((to_receive_recorded + r) * total <= receive * (prefix + a)) by (nonlinear_arith)
                    requires
                        to_receive_recorded * total <= receive * prefix,
                        r * total <= receive * a,
                ;
                if total > 0 {
                    assert((total_contributed + c) * total <= req * (prefix + a) + (i + 1) * (total - 1)) by (nonlinear_arith)
                        requires
                            total_contributed * total <= req * prefix + i * (total - 1),
                            c * total <= req * a + total - 1,
                    ;
                    assert((to_receive_recorded + r) * total + (i + 1) * (total - 1) >= receive * (prefix + a)) by (nonlinear_arith)
                        requires
                            to_receive_recorded * total + i * (total - 1) >= receive * prefix,
                            r * total + total - 1 >= receive * a,
                    ;
                    assert(to_receive_recorded + r <= receive) by (nonlinear_arith)
                        requires
                            (to_receive_recorded + r) * total <= receive * (prefix + a),
                            prefix + a <= total,
                            total > 0,
                            receive >= 0,
                    {
                        assert(receive * (prefix + a) <= receive * total);
                    }
                } else {
                    assert(r == 0);
                }
                lemma_sum_update(amount_values(self.amounts@), i as int, a - c);
                assert(amount_values(self.amounts@.update(i as int, (booster_id, ScaledAmount { val: (a - c) as u128 }))) =~= amount_values(self.amounts@).update(i as int, a - c));
            }
            self.amounts.set(i, (booster_id, ScaledAmount { val: amount.val - booster_contribution }));
            total_contributed = total_contributed + booster_contribution;
            to_receive_recorded = to_receive_recorded + booster_to_receive;
            let owed = OwedAmount {
                total: ScaledAmount { val: booster_to_receive },
                fee: ScaledAmount { val: booster_fee },
            };
            proof {
                assert(owed_totals(shares@.push((booster_id, owed))) =~= owed_totals(shares@).push(r));
                lemma_sum_push(owed_totals(shares@), r);
            }
            shares.push((booster_id, owed));
            i = i + 1;
        }
        proof {
            assert(s.take(n as int) =~= s);
            if total > 0 {
                assert(total_contributed >= req) by (nonlinear_arith)
                    requires
                        total_contributed * total >= req * total,
                        total > 0,
                ;
                assert(sum_of(amount_values(s.take(n as int))) == total);
                assert(n > 0) by {
                    if n == 0 {
                        assert(amount_values(s) =~= Seq::<int>::empty());
                    }
                }
                let tc = total_contributed as int;
                let tr = to_receive_recorded as int;
                let nn = n as int;
                assert((tc - req) * total <= nn * (total - 1)) by (nonlinear_arith)
                    requires
                        tc * total <= req * total + nn * (total - 1),
                ;
                assert((receive - tr) * total <= nn * (total - 1)) by (nonlinear_arith)
                    requires
                        tr * total + nn * (total - 1) >= receive * total,
                ;
                lemma_remainder_below(tc - req, nn, total);
                lemma_remainder_below(receive - tr, nn, total);
            }
        }
        let excess_contributed = total_contributed - required_amount.val;
        let remaining_to_receive = amount_to_receive - to_receive_recorded;
        let lucky = seeded_index(prewitnessed_deposit_id, n as u64);
        let ghost lucky_int = lucky as int;
        let ghost before_lucky = self.amounts@;
        let ghost shares_before_lucky = shares@;
        if lucky < n as u64 {
            let li = lucky as usize;
            let (lucky_id, lucky_amount) = self.amounts[li];
            let (share_id, lucky_owed) = shares[li];
            proof {
                assert forall|j: int| 0 <= j < amount_values(self.amounts@).len() implies amount_values(self.amounts@)[j] >= 0 by {}
                lemma_sum_bounds(amount_values(self.amounts@), li as int);
                assert forall|j: int| 0 <= j < owed_totals(shares@).len() implies owed_totals(shares@)[j] >= 0 by {}
                lemma_sum_bounds(owed_totals(shares@), li as int);
                assert(shares@[li as int] == boost_shares(s, req, fee, total, -1)[li as int]);
                lemma_sum_bounds(amount_values(s), li as int);
                lemma_contribution_bounds(req, s[li as int].1.val as int, total);
                lemma_share_bounds(receive, s[li as int].1.val as int, total);
                assert(lucky_owed.fee.val <= lucky_owed.total.val);
                lemma_sum_update(amount_values(self.amounts@), li as int, lucky_amount.val + excess_contributed);
                assert(amount_values(self.amounts@.update(li as int, (lucky_id, ScaledAmount { val: (lucky_amount.val + excess_contributed) as u128 }))) =~= amount_values(self.amounts@).update(li as int, lucky_amount.val + excess_contributed));
            }
            self.amounts.set(
                li,
                (lucky_id, ScaledAmount { val: lucky_amount.val + excess_contributed }),
            );
            let lucky_share = OwedAmount {
                total: ScaledAmount { val: lucky_owed.total.val + remaining_to_receive },
                fee: ScaledAmount { val: lucky_owed.fee.val + remaining_to_receive },
            };
            proof {
                lemma_sum_update(owed_totals(shares@), li as int, lucky_share.total.val as int);
                assert(owed_totals(shares@.update(li as int, (share_id, lucky_share))) =~= owed_totals(shares@).update(li as int, lucky_share.total.val as int));
            }
            shares.set(li, (share_id, lucky_share));
        }
        proof {
            assert forall|j: int| 0 <= j < n implies self.amounts@[j] == boosted_amounts(
                s,
                req,
                total,
                lucky_int,
            )[j] by {
                lemma_contribution_bounds(req, s[j].1.val as int, total);
                lemma_sum_bounds(amount_values(s), j);
                assert(before_lucky[j] == (s[j].0, ScaledAmount { val: (s[j].1.val - contribution(req, s[j].1.val as int, total)) as u128 }));
            }
            assert(self.amounts@ =~= boosted_amounts(s, req, total, lucky_int));
            assert forall|j: int| 0 <= j < n implies shares@[j] == boost_shares(
                s,
                req,
                fee,
                total,
                lucky_int,
            )[j] by {
                lemma_sum_bounds(amount_values(s), j);
                lemma_contribution_bounds(req, s[j].1.val as int, total);
                lemma_share_bounds(receive, s[j].1.val as int, total);
                assert(shares_before_lucky[j] == boost_shares(s, req, fee, total, -1)[j]);
            }
            assert(shares@ =~= boost_shares(s, req, fee, total, lucky_int));
            assert(sum_of(amount_values(self.amounts@)) == total - req);
            if n > 0 {
                assert(sum_of(owed_totals(shares@)) == receive);
            } else {
                assert(owed_totals(shares@) =~= Seq::<int>::empty());
            }
            assert(keys_increasing(shares@));
        }
        let ghost old_view = self.pending_seq();
        self.pending_boosts.insert(pos, (prewitnessed_deposit_id, shares));
        proof {
            let entry = (prewitnessed_deposit_id, shares@);
            assert(self.pending_seq() =~= old_view.insert(pos as int, entry));
            lemma_to_map_insert(old_view, pos as int, prewitnessed_deposit_id, shares@);
            assert(boost_totals(self.pending_seq()) =~= boost_totals(old_view).insert(pos as int, sum_of(owed_totals(shares@))));
            lemma_sum_insert(boost_totals(old_view), pos as int, sum_of(owed_totals(shares@)));
            assert forall|k: int| 0 <= k < self.pending_seq().len() implies keys_increasing(#[trigger] self.pending_seq()[k].1) by {
                if k < pos {
                    assert(self.pending_seq()[k] == old_view[k]);
                } else if k > pos {
                    assert(self.pending_seq()[k] == old_view[k - 1]);
                }
            }
            lemma_key_index(self.pending_seq(), pos as int);
            assert forall|b: AccountId| #[trigger] has_key(self.amounts@, b) <==> has_key(s, b) by {
                if has_key(self.amounts@, b) {
                    let j = choose|j: int| 0 <= j < self.amounts@.len() && self.amounts@[j].0 == b;
                    assert(s[j].0 == b);
                }
                if has_key(s, b) {
                    let j = choose|j: int| 0 <= j < s.len() && s[j].0 == b;
                    assert(self.amounts@[j].0 == b);
                }
            }
            assert(self.amounts_map().dom() =~= old(self).amounts_map().dom());
            assert forall|b: AccountId| #[trigger]
                self.withdrawals_map().contains_key(b) implies {
                &&& !self.withdrawals_map()[b].is_empty()
                &&& !self.amounts_map().contains_key(b)
                &&& forall|d: PrewitnessedDepositId| #[trigger]
                    self.withdrawals_map()[b].contains(d) ==> self.pending_map().contains_key(d)
                        && has_key(self.pending_map()[d], b)
            } by {
                assert(old(self).withdrawals_map().contains_key(b));
                assert forall|d: PrewitnessedDepositId| #[trigger]
                    self.withdrawals_map()[b].contains(d) implies self.pending_map().contains_key(d)
                    && has_key(self.pending_map()[d], b) by {
                    assert(old(self).pending_map().contains_key(d));
                    assert(d != prewitnessed_deposit_id);
                }
            }
        }
    }

    /// Supplies liquidity towards a deposit of `amount_to_boost` (native
    /// units): all of it, less the fee, when the pool has enough, else all the
    /// pool has, with the fee taken on that. The network keeps
    /// `network_fee_deduction_percent` of the fee; the rest is shared among
    /// boosters. Returns the boosted amount (supplied plus fee) and the fee,
    /// both in native units. The pool must have room for `amount_to_boost`
    /// (see `has_room_for`), which bounds the fee it takes on.
    pub fn provide_funds_for_boosting(
        &mut self,
        prewitnessed_deposit_id: PrewitnessedDepositId,
        amount_to_boost: ChainAmount,
        network_fee_deduction_percent: u8,
    ) -> (r: Result<(ChainAmount, ChainAmount), &'static str>)
        requires
            old(self).wf(),
            old(self).total_value() + scaled_from_chain(amount_to_boost) <= u128::MAX,
        ensures
            final(self).wf(),
            boost_fee_fails(
                old(self).available_spec(),
                scaled_from_chain(amount_to_boost),
                old(self).fee_bps_spec(),
            ) ==> {
                &&& r == Err::<(ChainAmount, ChainAmount), &'static str>("invalid fee")
                &&& *final(self) == *old(self)
            },
            !boost_fee_fails(
                old(self).available_spec(),
                scaled_from_chain(amount_to_boost),
                old(self).fee_bps_spec(),
            ) && old(self).pending_map().contains_key(prewitnessed_deposit_id) ==> {
                &&& r == Err::<(ChainAmount, ChainAmount), &'static str>(
                    "Pending boost id already exists",
                )
                &&& *final(self) == *old(self)
            },
            !boost_fee_fails(
                old(self).available_spec(),
                scaled_from_chain(amount_to_boost),
                old(self).fee_bps_spec(),
            ) && !old(self).pending_map().contains_key(prewitnessed_deposit_id) ==> {
                let available = old(self).available_spec();
                let amount = scaled_from_chain(amount_to_boost);
                let provided = provided_for(available, amount, old(self).fee_bps_spec());
                let fee = fee_for(available, amount, old(self).fee_bps_spec());
                &&& r == Ok::<(ChainAmount, ChainAmount), &'static str>(
                    (((provided + fee) / 1000) as u128, (fee / 1000) as u128),
                )
                &&& final(self).boosted_from(
                    *old(self),
                    prewitnessed_deposit_id,
                    provided,
                    pool_fee_for(fee, network_fee_deduction_percent),
                )
            },
    {
        let amount_to_boost = ScaledAmount::from_chain_amount(amount_to_boost);
        let full_amount_fee = fee_from_boosted_amount(amount_to_boost, self.fee_bps);
        let required_amount = amount_to_boost.saturating_sub(full_amount_fee);
        let (provided_amount, fee_amount) = if self.available_amount.val >= required_amount.val {
            (required_amount, full_amount_fee)
        } else {
            let provided_amount = self.available_amount;
            let fee = match fee_from_provided_amount(provided_amount, self.fee_bps) {
                Ok(fee) => fee,
                Err(e) => {
                    return Err(e);
                },
            };
            proof {
                let a = amount_to_boost.val as int;
                let bps = self.fee_bps as int;
                assert(spec_fee_from_boosted(a, self.fee_bps) == a * (bps * 100) / 1_000_000);
                lemma_partial_boost_fee_bound(a, provided_amount.val as int, bps);
            }
            (provided_amount, fee)
        };
        let pos = match self.pending_position(prewitnessed_deposit_id) {
            Ok(_) => {
                return Err("Pending boost id already exists");
            },
            Err(pos) => pos,
        };
        // The network takes its part of the fee before the rest goes to boosters.
        let network_fee = percent_mul(network_fee_deduction_percent, fee_amount.val);
        let boost_pool_fee = fee_amount.saturating_sub(ScaledAmount::from_raw(network_fee));
        self.use_funds_for_boosting(prewitnessed_deposit_id, pos, provided_amount, boost_pool_fee);
        Ok(
            (
                provided_amount.saturating_add(fee_amount).into_chain_amount(),
                fee_amount.into_chain_amount(),
            ),
        )
    }

    /// `booster_id` no longer waits for `deposit`; returns whether they were
    /// withdrawing at all.
    fn release_withdrawal(&mut self, booster_id: AccountId, deposit: PrewitnessedDepositId) -> (r:
        bool)
        ensures
            r == old(self).withdrawals_map().contains_key(booster_id),
            final(self).withdrawals_map() == released(
                old(self).withdrawals_map(),
                booster_id,
                deposit,
            ),
            final(self).fee_bps == old(self).fee_bps,
            final(self).available_amount == old(self).available_amount,
            final(self).amounts == old(self).amounts,
            final(self).pending_boosts == old(self).pending_boosts,
    {
        let mut waiting = match self.pending_withdrawals.get(&booster_id) {
            Some(waiting) => waiting.clone(),
            None => {
                return false;
            },
        };
        waiting.remove(&deposit);
        if waiting.is_empty() {
            self.pending_withdrawals.remove(&booster_id);
            proof {
                assert(self.withdrawals_map() =~= old(self).withdrawals_map().remove(booster_id));
            }
        } else {
            let ghost left = waiting@;
            self.pending_withdrawals.insert(booster_id, waiting);
            proof {
                assert(self.withdrawals_map() =~= old(self).withdrawals_map().insert(
                    booster_id,
                    left,
                ));
            }
        }
        true
    }

    /// Takes pending boost `i` out of the ledger, returning its contributions.
    fn take_pending(&mut self, i: usize) -> (r: Vec<(AccountId, OwedAmountScaled)>)
        requires
            old(self).ledger_wf(),
            i < old(self).pending_seq().len(),
        ensures
            r@ == old(self).pending_seq()[i as int].1,
            old(self).pending_map().contains_key(old(self).pending_seq()[i as int].0),
            old(self).pending_map()[old(self).pending_seq()[i as int].0] == r@,
            keys_increasing(r@),
            final(self).ledger_wf(),
            final(self).pending_map() == old(self).pending_map().remove(
                old(self).pending_seq()[i as int].0,
            ),
            final(self).total_value() + sum_of(owed_totals(r@)) == old(self).total_value(),
            sum_of(owed_totals(r@)) >= 0,
            final(self).fee_bps == old(self).fee_bps,
            final(self).available_amount == old(self).available_amount,
            final(self).amounts == old(self).amounts,
            final(self).pending_withdrawals == old(self).pending_withdrawals,
    {
        let ghost v = self.pending_seq();
        let (_, contributions) = self.pending_boosts.remove(i);
        proof {
            lemma_key_index(v, i as int);
            assert(self.pending_seq() =~= v.remove(i as int));
            lemma_to_map_remove(v, i as int);
            assert(boost_totals(self.pending_seq()) =~= boost_totals(v).remove(i as int));
            lemma_sum_remove(boost_totals(v), i as int);
            assert forall|k: int| 0 <= k < self.pending_seq().len() implies keys_increasing(
                #[trigger] self.pending_seq()[k].1,
            ) by {
                if k < i {
                    assert(self.pending_seq()[k] == v[k]);
                } else {
                    assert(self.pending_seq()[k] == v[k + 1]);
                }
            }
            let o = owed_totals(contributions@);
            assert forall|k: int| 0 <= k < o.len() implies o[k] >= 0 by {}
            lemma_sum_nonneg(o);
            self.lemma_pending_total_nonneg();
        }
        contributions
    }

    /// Records that a boosted deposit arrived: each contributing booster gets
    /// what they are owed, back into the pool for an active booster, or handed
    /// out in `unlocked_funds` for one who is withdrawing. A deposit that has
    /// no pending boost gives an empty outcome.
    pub fn process_deposit_as_finalised(
        &mut self,
        prewitnessed_deposit_id: PrewitnessedDepositId,
    ) -> (r: DepositFinalisationOutcomeForPool)
        requires
            old(self).wf(),
        ensures
            final(self).wf(),
            !old(self).pending_map().contains_key(prewitnessed_deposit_id) ==> {
                &&& r.unlocked_funds@ == Seq::<(AccountId, ChainAmount)>::empty()
                &&& r.amount_credited_to_boosters == 0
                &&& *final(self) == *old(self)
            },
            old(self).pending_map().contains_key(prewitnessed_deposit_id) ==> {
                let c = old(self).pending_map()[prewitnessed_deposit_id];
                let w = old(self).withdrawals_map();
                &&& r.unlocked_funds@ == unlocked_of(c, w)
                &&& r.amount_credited_to_boosters == sum_of(owed_totals(c)) / 1000
                &&& final(self).fee_bps_spec() == old(self).fee_bps_spec()
                &&& final(self).amounts_map() == credited_amounts(old(self).amounts_map(), c, w)
                &&& final(self).available_spec() == old(self).available_spec() + credited_total(
                    c,
                    w,
                )
                &&& final(self).pending_map() == old(self).pending_map().remove(
                    prewitnessed_deposit_id,
                )
                &&& final(self).withdrawals_map() == resolved_withdrawals(
                    w,
                    prewitnessed_deposit_id,
                    c,
                )
            },
    {
        let i = match self.pending_position(prewitnessed_deposit_id) {
            Ok(i) => i,
            Err(_) => {
                return DepositFinalisationOutcomeForPool {
                    unlocked_funds: Vec::new(),
                    amount_credited_to_boosters: 0,
                };
            },
        };
        let boost_contributions = self.take_pending(i);
        let ghost c = boost_contributions@;
        let ghost w = old(self).withdrawals_map();
        let ghost m = old(self).amounts_map();
        let mut unlocked_funds: Vec<(AccountId, ChainAmount)> = Vec::new();
        let mut amount_credited: u128 = 0;
        let mut j: usize = 0;
        proof {
            lemma_resolved_empty(w, prewitnessed_deposit_id, c);
            assert(c.take(0) =~= Seq::<(AccountId, OwedAmountScaled)>::empty());
            assert(credited_amounts(m, c.take(0), w) =~= m);
            assert(owed_totals(c.take(0)) =~= Seq::<int>::empty());
            assert forall|k: int| 0 <= k < owed_totals(c).len() implies owed_totals(c)[k] >= 0 by {}
            self.lemma_pending_total_nonneg();
        }
        while j < boost_contributions.len()
            invariant
                self.ledger_wf(),
                j <= c.len(),
                c == boost_contributions@,
                keys_increasing(c),
                forall|k: int| 0 <= k < owed_totals(c).len() ==> owed_totals(c)[k] >= 0,
                sum_of(owed_totals(c)) <= u128::MAX,
                self.withdrawals_map() == resolved_withdrawals(
                    w,
                    prewitnessed_deposit_id,
                    c.take(j as int),
                ),
                self.amounts_map() == credited_amounts(m, c.take(j as int), w),
                self.available_spec() == old(self).available_spec() + credited_total(
                    c.take(j as int),
                    w,
                ),
                unlocked_funds@ == unlocked_of(c.take(j as int), w),
                amount_credited == sum_of(owed_totals(c.take(j as int))),
                self.total_value() + sum_of(owed_totals(c)) - sum_of(owed_totals(c.take(j as int)))
                    <= u128::MAX,
                self.fee_bps == old(self).fee_bps,
                self.pending_map() == old(self).pending_map().remove(prewitnessed_deposit_id),
            decreases c.len() - j,
        {
            let (booster_id, amount) = boost_contributions[j];
            let ghost t = amount.total.val as int;
            proof {
                lemma_resolved_step(w, prewitnessed_deposit_id, c, j as int);
                lemma_credited_step(m, c, w, j as int);
                assert(owed_totals(c.take(j as int + 1)) =~= owed_totals(c.take(j as int)).push(t));
                lemma_sum_push(owed_totals(c.take(j as int)), t);
                assert(owed_totals(c.take(j as int + 1)) =~= owed_totals(c).take(j as int + 1));
                lemma_sum_prefix_le(owed_totals(c), j as int + 1);
                self.lemma_pending_total_nonneg();
            }
            // A withdrawing booster's share leaves the pool; an active
            // booster's share goes back into it.
            if self.release_withdrawal(booster_id, prewitnessed_deposit_id) {
                unlocked_funds.push((booster_id, amount.total.into_chain_amount()));
            } else {
                proof {
                    assert(self.withdrawals_map().remove(booster_id) =~= self.withdrawals_map());
                }
                self.add_funds_inner(booster_id, amount.total);
            }
            amount_credited = amount_credited + amount.total.val;
            j = j + 1;
        }
        proof {
            assert(c.take(c.len() as int) =~= c);
        }
        DepositFinalisationOutcomeForPool {
            unlocked_funds,
            amount_credited_to_boosters: ScaledAmount::from_raw(amount_credited).into_chain_amount(),
        }
    }

    /// Records that a boosted deposit will never arrive: what its boosters
    /// contributed is lost, and boosters who were withdrawing no longer wait
    /// for it. Returns the number of boosters affected, zero for a deposit
    /// that has no pending boost.
    pub fn process_deposit_as_lost(&mut self, prewitnessed_deposit_id: PrewitnessedDepositId) -> (r:
        usize)
        requires
            old(self).wf(),
        ensures
            final(self).wf(),
            !old(self).pending_map().contains_key(prewitnessed_deposit_id) ==> {
                &&& r == 0
                &&& *final(self) == *old(self)
            },
            old(self).pending_map().contains_key(prewitnessed_deposit_id) ==> {
                let contributions = old(self).pending_map()[prewitnessed_deposit_id];
                &&& r == contributions.len()
                &&& final(self).fee_bps_spec() == old(self).fee_bps_spec()
                &&& final(self).available_spec() == old(self).available_spec()
                &&& final(self).amounts_seq() == old(self).amounts_seq()
                &&& final(self).pending_map() == old(self).pending_map().remove(
                    prewitnessed_deposit_id,
                )
                &&& final(self).withdrawals_map() == resolved_withdrawals(
                    old(self).withdrawals_map(),
                    prewitnessed_deposit_id,
                    contributions,
                )
            },
    {
        let i = match self.pending_position(prewitnessed_deposit_id) {
            Ok(i) => i,
            Err(_) => {
                return 0;
            },
        };
        let booster_contributions = self.take_pending(i);
        let ghost c = booster_contributions@;
        let ghost w = old(self).withdrawals_map();
        let mut j: usize = 0;
        proof {
            lemma_resolved_empty(w, prewitnessed_deposit_id, c);
        }
        while j < booster_contributions.len()
            invariant
                self.ledger_wf(),
                j <= c.len(),
                c == booster_contributions@,
                keys_increasing(c),
                self.withdrawals_map() == resolved_withdrawals(
                    w,
                    prewitnessed_deposit_id,
                    c.take(j as int),
                ),
                self.fee_bps == old(self).fee_bps,
                self.available_amount == old(self).available_amount,
                self.amounts == old(self).amounts,
                self.pending_map() == old(self).pending_map().remove(prewitnessed_deposit_id),
            decreases c.len() - j,
        {
            proof {
                lemma_resolved_step(w, prewitnessed_deposit_id, c, j as int);
            }
            self.release_withdrawal(booster_contributions[j].0, prewitnessed_deposit_id);
            j = j + 1;
        }
        proof {
            assert(c.take(c.len() as int) =~= c);
        }
        booster_contributions.len()
    }

    /// Each active booster's amount in native units.
    pub fn get_amounts(&self) -> (r: BTreeMap<AccountId, ChainAmount>)
        requires
            self.wf(),
        ensures
            r@ == native_amounts(self.amounts_map()),
    {
        let ghost s = self.amounts@;
        let mut r: BTreeMap<AccountId, ChainAmount> = BTreeMap::new();
        let mut i: usize = 0;
        proof {
            assert(r@ =~= native_amounts(to_map(s.take(0))));
        }
        while i < self.amounts.len()
            invariant
                s == self.amounts@,
                i <= s.len(),
                keys_increasing(s),
                r@ == native_amounts(to_map(s.take(i as int))),
            decreases s.len() - i,
        {
            let (booster_id, amount) = self.amounts[i];
            r.insert(booster_id, amount.into_chain_amount());
            proof {
                let shorter = s.take(i as int);
                assert(s.take(i as int + 1) =~= shorter.insert(i as int, (booster_id, amount)));
                assert(keys_increasing(shorter));
                lemma_to_map_insert(shorter, i as int, booster_id, amount);
                assert(r@ =~= native_amounts(to_map(s.take(i as int + 1))));
            }
            i = i + 1;
        }
        proof {
            assert(s.take(s.len() as int) =~= s);
        }
        r
    }

    /// Each pending boost with what each of its boosters is owed, in native
    /// units.
    pub fn get_pending_boosts(&self) -> (r: BTreeMap<
        PrewitnessedDepositId,
        BTreeMap<AccountId, OwedAmount<ChainAmount>>,
    >)
        requires
            self.wf(),
        ensures
            forall|d: PrewitnessedDepositId|
                #[trigger] r@.contains_key(d) <==> self.pending_map().contains_key(d),
            forall|d: PrewitnessedDepositId|
                #[trigger] r@.contains_key(d) ==> r@[d]@ == native_owed(self.pending_map()[d]),
    {
        let ghost v = self.pending_seq();
        let mut r: BTreeMap<PrewitnessedDepositId, BTreeMap<AccountId, OwedAmount<ChainAmount>>> =
            BTreeMap::new();
        let mut i: usize = 0;
        while i < self.pending_boosts.len()
            invariant
                self.wf(),
                v == self.pending_seq(),
                i <= v.len(),
                forall|d: PrewitnessedDepositId|
                    #[trigger] r@.contains_key(d) <==> to_map(v.take(i as int)).contains_key(d),
                forall|d: PrewitnessedDepositId|
                    #[trigger] r@.contains_key(d) ==> r@[d]@ == native_owed(
                        to_map(v.take(i as int))[d],
                    ),
            decreases v.len() - i,
        {
            let entry = &self.pending_boosts[i];
            proof {
                assert(v[i as int] == (entry.0, entry.1@));
                assert(keys_increasing(v[i as int].1));
            }
            let shares = native_shares(&entry.1);
            r.insert(entry.0, shares);
            proof {
                let shorter = v.take(i as int);
                assert(v.take(i as int + 1) =~= shorter.insert(i as int, v[i as int]));
                assert(keys_increasing(shorter));
                lemma_to_map_insert(shorter, i as int, entry.0, entry.1@);
            }
            i = i + 1;
        }
        proof {
            assert(v.take(v.len() as int) =~= v);
        }
        r
    }

    /// Boosters who stopped boosting, with the deposits they still wait for.
    pub fn get_pending_withdrawals(&self) -> (r: &BTreeMap<
        AccountId,
        BTreeSet<PrewitnessedDepositId>,
    >)
        ensures
            forall|b: AccountId|
                #[trigger] r@.contains_key(b) <==> self.withdrawals_map().contains_key(b),
            forall|b: AccountId| #[trigger] r@.contains_key(b) ==> r@[b]@ == self.withdrawals_map()[b],
    {
        &self.pending_withdrawals
    }

    /// The deposits of the pending boosts, in order.
    pub fn get_pending_boost_ids(&self) -> (r: Vec<PrewitnessedDepositId>)
        ensures
            r@ == self.pending_seq().map_values(
                |e: (PrewitnessedDepositId, Seq<(AccountId, OwedAmountScaled)>)| e.0,
            ),
    {
        let mut r: Vec<PrewitnessedDepositId> = Vec::new();
        let mut i: usize = 0;
        while i < self.pending_boosts.len()
            invariant
                i <= self.pending_boosts@.len(),
                r@ == self.pending_seq().take(i as int).map_values(
                    |e: (PrewitnessedDepositId, Seq<(AccountId, OwedAmountScaled)>)| e.0,
                ),
            decreases self.pending_boosts@.len() - i,
        {
            r.push(self.pending_boosts[i].0);
            i = i + 1;
            proof {
                assert(r@ =~= self.pending_seq().take(i as int).map_values(
                    |e: (PrewitnessedDepositId, Seq<(AccountId, OwedAmountScaled)>)| e.0,
                ));
            }
        }
        proof {
            assert(self.pending_seq().take(i as int) =~= self.pending_seq());
        }
        r
    }

    /// The available amount, scaled.
    pub fn get_scaled_available_amount(&self) -> (r: ScaledAmount)
        ensures
            r.val == self.available_spec(),
    {
        self.available_amount
    }

    /// Active boosters with their scaled amounts, in booster order.
    pub fn get_scaled_amounts(&self) -> (r: &Vec<(AccountId, ScaledAmount)>)
        ensures
            r@ == self.amounts_seq(),
    {
        &self.amounts
    }

    /// What each booster of a pending boost is owed, scaled, in booster order.
    pub fn get_scaled_pending_boost(&self, prewitnessed_deposit_id: PrewitnessedDepositId) -> (r:
        Option<&Vec<(AccountId, OwedAmountScaled)>>)
        requires
            self.wf(),
        ensures
            r is Some <==> self.pending_map().contains_key(prewitnessed_deposit_id),
            r matches Some(v) ==> v@ == self.pending_map()[prewitnessed_deposit_id],
    {
        match self.pending_position(prewitnessed_deposit_id) {
            Ok(i) => {
                proof {
                    lemma_key_index(self.pending_seq(), i as int);
                }
                Some(&self.pending_boosts[i].1)
            },
            Err(_) => None,
        }
    }

    /// Whether every collection of the pool is small enough for the encoder,
    /// which counts entries in 32 bits.
    pub open spec fn encodable(self) -> bool {
        &&& self.amounts_seq().len() <= u32::MAX
        &&& self.pending_seq().len() <= u32::MAX
        &&& forall|i: int|
            0 <= i < self.pending_seq().len() ==> #[trigger] self.pending_seq()[i].1.len()
                <= u32::MAX
        &&& self.withdrawals_map().dom().len() <= u32::MAX
        &&& forall|b: AccountId|
            self.withdrawals_map().contains_key(b) ==> #[trigger] self.withdrawals_map()[b].len()
                <= u32::MAX
    }

    /// The pool's stored form: fee rate, available amount, booster amounts,
    /// pending boosts and pending withdrawals, each as SCALE lays it out.
    pub open spec fn encoding(self) -> Seq<u8> {
        le_bytes(self.fee_bps_spec() as nat, 2) + le_bytes(self.available_spec() as nat, 16)
            + amounts_bytes(self.amounts_seq()) + pending_bytes(self.pending_seq())
            + withdrawals_bytes(self.withdrawals_map())
    }

    /// Encodes the pool in its stored form.
    pub fn encode(&self) -> (r: Vec<u8>)
        requires
            self.encodable(),
        ensures
            r@ == self.encoding(),
    {
        let mut out = encode_u16(self.fee_bps);
        let mut available = encode_u128(self.available_amount.val);
        out.append(&mut available);
        append_amounts(&mut out, &self.amounts);
        let ghost head = out@;
        let ghost v = self.pending_seq();
        let mut count = encode_compact(self.pending_boosts.len() as u32);
        out.append(&mut count);
        let ghost base = out@;
        let mut i: usize = 0;
        proof {
            assert(v.take(0).map_values(
                |e: (PrewitnessedDepositId, Seq<(AccountId, OwedAmountScaled)>)| pending_entry_bytes(e),
            ) =~= Seq::<Seq<u8>>::empty());
            assert(out@ =~= base + Seq::<Seq<u8>>::empty().flatten());
        }
        while i < self.pending_boosts.len()
            invariant
                self.encodable(),
                v == self.pending_seq(),
                i <= v.len(),
                base == head + compact_bytes(v.len() as nat),
                out@ == base + v.take(i as int).map_values(
                    |e: (PrewitnessedDepositId, Seq<(AccountId, OwedAmountScaled)>)|
                        pending_entry_bytes(e),
                ).flatten(),
            decreases v.len() - i,
        {
            let entry = &self.pending_boosts[i];
            proof {
                assert(v[i as int] == (entry.0, entry.1@));
                assert(v[i as int].1.len() <= u32::MAX);
            }
            let ghost before = out@;
            let mut id_bytes = encode_u64(entry.0);
            out.append(&mut id_bytes);
            append_owed(&mut out, &entry.1);
            proof {
                let prev = v.take(i as int).map_values(
                    |e: (PrewitnessedDepositId, Seq<(AccountId, OwedAmountScaled)>)|
                        pending_entry_bytes(e),
                );
                assert(v.take(i as int + 1).map_values(
                    |e: (PrewitnessedDepositId, Seq<(AccountId, OwedAmountScaled)>)|
                        pending_entry_bytes(e),
                ) =~= prev.push(pending_entry_bytes(v[i as int])));
                prev.lemma_flatten_push(pending_entry_bytes(v[i as int]));
                assert(out@ =~= base + v.take(i as int + 1).map_values(
                    |e: (PrewitnessedDepositId, Seq<(AccountId, OwedAmountScaled)>)|
                        pending_entry_bytes(e),
                ).flatten());
            }
            i = i + 1;
        }
        proof {
            assert(v.take(v.len() as int) =~= v);
            assert(out@ =~= head + pending_bytes(v));
            assert forall|b: u64| self.pending_withdrawals@.contains_key(b) implies #[trigger] self.pending_withdrawals@[b]@.len() <= u32::MAX by {
                assert(self.withdrawals_map().contains_key(b));
                assert(self.withdrawals_map()[b] == self.pending_withdrawals@[b]@);
                assert(self.withdrawals_map()[b].len() <= u32::MAX);
            }
            assert(self.pending_withdrawals@.dom() =~= self.withdrawals_map().dom());
        }
        let mut withdrawals = encode_withdrawals(&self.pending_withdrawals);
        out.append(&mut withdrawals);
        proof {
            assert(out@ =~= self.encoding());
        }
        out
    }

    /// Whether `amount` (native units) can come into the pool without what
    /// the pool holds or owes going past 128 bits, as `add_funds` and
    /// `provide_funds_for_boosting` require.
    pub fn has_room_for(&self, amount: ChainAmount) -> (r: bool)
        requires
            self.wf(),
        ensures
            r == (self.total_value() + scaled_from_chain(amount) <= u128::MAX),
    {
        let ghost v = self.pending_seq();
        let ghost totals = boost_totals(v);
        proof {
            assert forall|k: int| 0 <= k < totals.len() implies totals[k] >= 0 by {
                let o = owed_totals(v[k].1);
                assert forall|m: int| 0 <= m < o.len() implies o[m] >= 0 by {}
                lemma_sum_nonneg(o);
            }
            lemma_sum_nonneg(totals);
            assert(totals.take(0) =~= Seq::<int>::empty());
        }
        let mut owed: u128 = 0;
        let mut i: usize = 0;
        while i < self.pending_boosts.len()
            invariant
                self.wf(),
                v == self.pending_seq(),
                totals == boost_totals(v),
                forall|k: int| 0 <= k < totals.len() ==> totals[k] >= 0,
                i <= v.len(),
                owed == sum_of(totals.take(i as int)),
            decreases v.len() - i,
        {
            let contributions = &self.pending_boosts[i].1;
            let ghost c = contributions@;
            let ghost o = owed_totals(c);
            proof {
                assert(v[i as int].1 == c);
                assert(totals.take(i as int + 1) =~= totals.take(i as int).push(totals[i as int]));
                lemma_sum_push(totals.take(i as int), totals[i as int]);
                lemma_sum_prefix_le(totals, i as int + 1);
                assert forall|m: int| 0 <= m < o.len() implies o[m] >= 0 by {}
                assert(o.take(0) =~= Seq::<int>::empty());
            }
            let mut j: usize = 0;
            while j < contributions.len()
                invariant
                    c == contributions@,
                    o == owed_totals(c),
                    forall|m: int| 0 <= m < o.len() ==> o[m] >= 0,
                    j <= c.len(),
                    owed == sum_of(totals.take(i as int)) + sum_of(o.take(j as int)),
                    sum_of(totals.take(i as int)) + sum_of(o) <= sum_of(totals),
                    sum_of(totals) <= u128::MAX,
                decreases c.len() - j,
            {
                proof {
                    assert(o.take(j as int + 1) =~= o.take(j as int).push(o[j as int]));
                    lemma_sum_push(o.take(j as int), o[j as int]);
                    lemma_sum_prefix_le(o, j as int + 1);
                }
                owed = owed + contributions[j].1.total.val;
                j = j + 1;
            }
            proof {
                assert(o.take(c.len() as int) =~= o);
            }
            i = i + 1;
        }
        proof {
            assert(totals.take(v.len() as int) =~= totals);
        }
        let headroom = u128::MAX - self.available_amount.val - owed;
        ScaledAmount::from_chain_amount(amount).val <= headroom
    }

    /// The state that `stop_boosting` leaves when it takes out an active
    /// booster of `before`.
    pub open spec fn stopped_from(self, before: BoostPool, booster: AccountId) -> bool {
        let deposits = before.deposits_of(booster);
        &&& self.fee_bps_spec() == before.fee_bps_spec()
        &&& self.amounts_map() == before.amounts_map().remove(booster)
        &&& self.available_spec() == before.available_spec() - before.amounts_map()[booster].val
        &&& self.pending_seq() == before.pending_seq()
        &&& self.withdrawals_map() == if deposits.is_empty() {
            before.withdrawals_map()
        } else {
            before.withdrawals_map().insert(booster, deposits)
        }
    }
}

} // verus!
