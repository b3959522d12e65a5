//! The SCALE byte layout of the pool's parts: integers in little-endian
//! order, collections as a compact count followed by their items.

use crate::boost_pool::AccountId;
use crate::boost_pool::OwedAmountScaled;
use crate::boost_pool::PrewitnessedDepositId;
use crate::scaled_amount::ScaledAmount;
use parity_scale_codec::Compact;
use parity_scale_codec::Decode;
use parity_scale_codec::Encode;
use std::collections::BTreeMap;
use std::collections::BTreeSet;
use vstd::arithmetic::power::pow;
use vstd::prelude::*;

verus! {

/// The `width` lowest bytes of `n`, least significant first.
pub open spec fn le_bytes(n: nat, width: nat) -> Seq<u8> {
    Seq::new(width, |i: int| ((n as int / pow(256, i as nat)) % 256) as u8)
}

/// The number whose little-endian bytes are `bytes`.
pub open spec fn le_value(bytes: Seq<u8>) -> nat
    decreases bytes.len(),
{
    if bytes.len() == 0 {
        0
    } else {
        bytes[0] as nat + 256 * le_value(bytes.drop_first())
    }
}

/// SCALE's compact form of a count: one, two or four bytes holding the count
/// shifted left by two with the size in the low bits, or a marker byte and the
/// count's four bytes.
pub open spec fn compact_bytes(n: nat) -> Seq<u8> {
    if n < 64 {
        seq![(n * 4) as u8]
    } else if n < 16384 {
        le_bytes(n * 4 + 1, 2)
    } else if n < 1073741824 {
        le_bytes(n * 4 + 2, 4)
    } else {
        seq![3u8] + le_bytes(n, 4)
    }
}

/// The elements of a finite set of integers in increasing order.
pub open spec fn ascending(s: Set<u64>) -> Seq<u64> {
    choose|q: Seq<u64>|
        q.to_set() == s && forall|i: int, j: int| 0 <= i < j < q.len() ==> q[i] < q[j]
}

/// A set of deposit ids: its size, then each id, in increasing order.
pub open spec fn id_set_bytes(s: Set<u64>) -> Seq<u8> {
    let q = ascending(s);
    compact_bytes(q.len()) + q.map_values(|d: u64| le_bytes(d as nat, 8)).flatten()
}

/// Withdrawals: their number, then each booster with the set it waits on, in
/// increasing booster order.
pub open spec fn withdrawals_bytes(w: Map<u64, Set<u64>>) -> Seq<u8> {
    let q = ascending(w.dom());
    compact_bytes(q.len()) + q.map_values(|b: u64| le_bytes(b as nat, 8) + id_set_bytes(w[b])).flatten()
}

/// Relies on parity-scale-codec's `Encode` for `u16`: its little-endian bytes.
#[verifier::external_body]
pub(crate) fn encode_u16(v: u16) -> (r: Vec<u8>)
    ensures
        r@ == le_bytes(v as nat, 2),
{
    v.encode()
}

/// Relies on parity-scale-codec's `Encode` for `u64`: its little-endian bytes.
#[verifier::external_body]
pub(crate) fn encode_u64(v: u64) -> (r: Vec<u8>)
    ensures
        r@ == le_bytes(v as nat, 8),
{
    v.encode()
}

/// Relies on parity-scale-codec's `Encode` for `u128`: its little-endian bytes.
#[verifier::external_body]
pub(crate) fn encode_u128(v: u128) -> (r: Vec<u8>)
    ensures
        r@ == le_bytes(v as nat, 16),
{
    v.encode()
}

/// Relies on parity-scale-codec's `Encode` for `Compact<u32>`, the form in
/// which it writes the length of a collection.
#[verifier::external_body]
pub(crate) fn encode_compact(n: u32) -> (r: Vec<u8>)
    ensures
        r@ == compact_bytes(n as nat),
{
    Compact(n).encode()
}

/// Relies on parity-scale-codec's `Decode` for `u64`: the first eight bytes,
/// little-endian; an error when fewer are there.
#[verifier::external_body]
pub(crate) fn decode_u64(data: &Vec<u8>) -> (r: Option<u64>)
    ensures
        r == (if data@.len() >= 8 {
            Some(le_value(data@.take(8)) as u64)
        } else {
            None::<u64>
        }),
{
    u64::decode(&mut data.as_slice()).ok()
}

/// Relies on parity-scale-codec's `Encode` for `BTreeMap` and `BTreeSet`: the
/// entry count in compact form, then each entry in key order (a set likewise,
/// in element order). The encoder panics on a collection of more than
/// `u32::MAX` entries.
#[verifier::external_body]
pub(crate) fn encode_withdrawals(w: &BTreeMap<u64, BTreeSet<u64>>) -> (r: Vec<u8>)
    requires
        w@.dom().len() <= u32::MAX,
        forall|b: u64| w@.contains_key(b) ==> #[trigger] w@[b]@.len() <= u32::MAX,
    ensures
        r@ == withdrawals_bytes(Map::new(|b: u64| w@.contains_key(b), |b: u64| w@[b]@)),
{
    w.encode()
}

/// One booster's amount: the booster id, then the scaled amount.
pub open spec fn amount_entry_bytes(p: (AccountId, ScaledAmount)) -> Seq<u8> {
    le_bytes(p.0 as nat, 8) + le_bytes(p.1.val as nat, 16)
}

/// Booster amounts: their number, then each entry in booster order.
pub open spec fn amounts_bytes(s: Seq<(AccountId, ScaledAmount)>) -> Seq<u8> {
    compact_bytes(s.len()) + s.map_values(|p: (AccountId, ScaledAmount)| amount_entry_bytes(p)).flatten()
}

/// One booster's share of a boost: the booster id, the total, then the fee.
pub open spec fn owed_entry_bytes(p: (AccountId, OwedAmountScaled)) -> Seq<u8> {
    le_bytes(p.0 as nat, 8) + le_bytes(p.1.total.val as nat, 16) + le_bytes(p.1.fee.val as nat, 16)
}

/// The shares of a boost: their number, then each share in booster order.
pub open spec fn owed_bytes(c: Seq<(AccountId, OwedAmountScaled)>) -> Seq<u8> {
    compact_bytes(c.len()) + c.map_values(|p: (AccountId, OwedAmountScaled)| owed_entry_bytes(p)).flatten()
}

/// One pending boost: the deposit id, then its shares.
pub open spec fn pending_entry_bytes(
    e: (PrewitnessedDepositId, Seq<(AccountId, OwedAmountScaled)>),
) -> Seq<u8> {
    le_bytes(e.0 as nat, 8) + owed_bytes(e.1)
}

/// Pending boosts: their number, then each boost in deposit order.
pub open spec fn pending_bytes(
    v: Seq<(PrewitnessedDepositId, Seq<(AccountId, OwedAmountScaled)>)>,
) -> Seq<u8> {
    compact_bytes(v.len()) + v.map_values(
        |e: (PrewitnessedDepositId, Seq<(AccountId, OwedAmountScaled)>)| pending_entry_bytes(e),
    ).flatten()
}

/// Appends the encoding of key-ordered booster amounts.
pub(crate) fn append_amounts(out: &mut Vec<u8>, s: &Vec<(AccountId, ScaledAmount)>)
    requires
        s@.len() <= u32::MAX,
    ensures
        final(out)@ == old(out)@ + amounts_bytes(s@),
{
    let mut count = encode_compact(s.len() as u32);
    out.append(&mut count);
    let ghost base = out@;
    let mut i: usize = 0;
    proof {
        assert(s@.take(0).map_values(|p: (AccountId, ScaledAmount)| amount_entry_bytes(p)) =~= Seq::<Seq<u8>>::empty());
        assert(out@ =~= base + Seq::<Seq<u8>>::empty().flatten());
    }
    while i < s.len()
        invariant
            i <= s@.len(),
            base == old(out)@ + compact_bytes(s@.len() as nat),
            out@ == base + s@.take(i as int).map_values(
                |p: (AccountId, ScaledAmount)| amount_entry_bytes(p),
            ).flatten(),
        decreases s@.len() - i,
    {
        let (booster_id, amount) = s[i];
        let mut id_bytes = encode_u64(booster_id);
        out.append(&mut id_bytes);
        let mut amount_bytes = encode_u128(amount.val);
        out.append(&mut amount_bytes);
        proof {
            let prev = s@.take(i as int).map_values(|p: (AccountId, ScaledAmount)| amount_entry_bytes(p));
            assert(s@.take(i as int + 1).map_values(|p: (AccountId, ScaledAmount)| amount_entry_bytes(p)) =~= prev.push(amount_entry_bytes(s@[i as int])));
            prev.lemma_flatten_push(amount_entry_bytes(s@[i as int]));
            assert(out@ =~= base + s@.take(i as int + 1).map_values(
                |p: (AccountId, ScaledAmount)| amount_entry_bytes(p),
            ).flatten());
        }
        i = i + 1;
    }
    proof {
        assert(s@.take(s@.len() as int) =~= s@);
        assert(out@ =~= old(out)@ + amounts_bytes(s@));
    }
}

/// Appends the encoding of a boost's key-ordered shares.
pub(crate) fn append_owed(out: &mut Vec<u8>, c: &Vec<(AccountId, OwedAmountScaled)>)
    requires
        c@.len() <= u32::MAX,
    ensures
        final(out)@ == old(out)@ + owed_bytes(c@),
{
    let mut count = encode_compact(c.len() as u32);
    out.append(&mut count);
    let ghost base = out@;
    let mut i: usize = 0;
    proof {
        assert(c@.take(0).map_values(|p: (AccountId, OwedAmountScaled)| owed_entry_bytes(p)) =~= Seq::<Seq<u8>>::empty());
        assert(out@ =~= base + Seq::<Seq<u8>>::empty().flatten());
    }
    while i < c.len()
        invariant
            i <= c@.len(),
            base == old(out)@ + compact_bytes(c@.len() as nat),
            out@ == base + c@.take(i as int).map_values(
                |p: (AccountId, OwedAmountScaled)| owed_entry_bytes(p),
            ).flatten(),
        decreases c@.len() - i,
    {
        let (booster_id, owed) = c[i];
        let mut id_bytes = encode_u64(booster_id);
        out.append(&mut id_bytes);
        let mut total_bytes = encode_u128(owed.total.val);
        out.append(&mut total_bytes);
        let mut fee_bytes = encode_u128(owed.fee.val);
        out.append(&mut fee_bytes);
        proof {
            let prev = c@.take(i as int).map_values(|p: (AccountId, OwedAmountScaled)| owed_entry_bytes(p));
            assert(c@.take(i as int + 1).map_values(|p: (AccountId, OwedAmountScaled)| owed_entry_bytes(p)) =~= prev.push(owed_entry_bytes(c@[i as int])));
            prev.lemma_flatten_push(owed_entry_bytes(c@[i as int]));
            assert(out@ =~= base + c@.take(i as int + 1).map_values(
                |p: (AccountId, OwedAmountScaled)| owed_entry_bytes(p),
            ).flatten());
        }
        i = i + 1;
    }
    proof {
        assert(c@.take(c@.len() as int) =~= c@);
        assert(out@ =~= old(out)@ + owed_bytes(c@));
    }
}

} // verus!
