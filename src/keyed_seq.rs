//! Sequences of `(key, value)` pairs kept in strictly increasing key order,
//! seen as maps, and sums of integer sequences.

use vstd::prelude::*;

verus! {

/// Keys strictly increase along the sequence (so each key occurs once).
pub open spec fn keys_increasing<V>(s: Seq<(u64, V)>) -> bool {
    forall|i: int, j: int| 0 <= i < j < s.len() ==> s[i].0 < s[j].0
}

pub open spec fn has_key<V>(s: Seq<(u64, V)>, k: u64) -> bool {
    exists|i: int| 0 <= i < s.len() && s[i].0 == k
}

/// The position of key `k` in `s` (meaningful when `has_key(s, k)`).
pub open spec fn key_index<V>(s: Seq<(u64, V)>, k: u64) -> int {
    choose|i: int| 0 <= i < s.len() && s[i].0 == k
}

/// The map from each key of `s` to its value.
pub open spec fn to_map<V>(s: Seq<(u64, V)>) -> Map<u64, V> {
    Map::new(|k: u64| has_key(s, k), |k: u64| s[key_index(s, k)].1)
}

pub proof fn lemma_key_index<V>(s: Seq<(u64, V)>, i: int)
    requires
        keys_increasing(s),
        0 <= i < s.len(),
    ensures
        has_key(s, s[i].0),
        key_index(s, s[i].0) == i,
        to_map(s).contains_key(s[i].0),
        to_map(s)[s[i].0] == s[i].1,
{
    assert(has_key(s, s[i].0));
    let j = key_index(s, s[i].0);
    assert(0 <= j < s.len() && s[j].0 == s[i].0);
    if j < i {
        assert(s[j].0 < s[i].0);
    } else if i < j {
        assert(s[i].0 < s[j].0);
    }
}

pub proof fn lemma_to_map_all<V>(s: Seq<(u64, V)>)
    requires
        keys_increasing(s),
    ensures
        forall|i: int|
            0 <= i < s.len() ==> #[trigger] key_index(s, s[i].0) == i && to_map(s)[s[i].0] == s[i].1,
        forall|k: u64| to_map(s).contains_key(k) <==> has_key(s, k),
{
    assert forall|i: int| 0 <= i < s.len() implies #[trigger] key_index(s, s[i].0) == i && to_map(
        s,
    )[s[i].0] == s[i].1 by {
        lemma_key_index(s, i);
    }
}

/// Replacing the value at position `i` replaces it in the map.
pub proof fn lemma_to_map_update<V>(s: Seq<(u64, V)>, i: int, v: V)
    requires
        keys_increasing(s),
        0 <= i < s.len(),
    ensures
        keys_increasing(s.update(i, (s[i].0, v))),
        to_map(s.update(i, (s[i].0, v))) == to_map(s).insert(s[i].0, v),
{
    let t = s.update(i, (s[i].0, v));
    assert(keys_increasing(t));
    lemma_to_map_all(s);
    lemma_to_map_all(t);
    assert forall|k: u64| #[trigger] has_key(t, k) <==> has_key(s, k) by {
        if has_key(t, k) {
            let j = choose|j: int| 0 <= j < t.len() && t[j].0 == k;
            assert(s[j].0 == k);
        }
        if has_key(s, k) {
            let j = choose|j: int| 0 <= j < s.len() && s[j].0 == k;
            assert(t[j].0 == k);
        }
    }
    assert forall|k: u64| #[trigger] to_map(t).contains_key(k) implies to_map(t)[k] == to_map(
        s,
    ).insert(s[i].0, v)[k] by {
        let j = choose|j: int| 0 <= j < t.len() && t[j].0 == k;
        assert(key_index(t, t[j].0) == j);
        assert(key_index(s, s[j].0) == j);
    }
    assert(to_map(t) =~= to_map(s).insert(s[i].0, v));
}

/// Inserting a new key at its ordered position inserts it in the map.
pub proof fn lemma_to_map_insert<V>(s: Seq<(u64, V)>, pos: int, k: u64, v: V)
    requires
        keys_increasing(s),
        0 <= pos <= s.len(),
        forall|j: int| 0 <= j < pos ==> s[j].0 < k,
        forall|j: int| pos <= j < s.len() ==> s[j].0 > k,
    ensures
        keys_increasing(s.insert(pos, (k, v))),
        to_map(s.insert(pos, (k, v))) == to_map(s).insert(k, v),
{
    let t = s.insert(pos, (k, v));
    assert forall|a: int, b: int| 0 <= a < b < t.len() implies t[a].0 < t[b].0 by {
        if b < pos {
        } else if b == pos {
        } else if a < pos {
            assert(t[b] == s[b - 1]);
        } else if a == pos {
            assert(t[b] == s[b - 1]);
        } else {
            assert(t[a] == s[a - 1] && t[b] == s[b - 1]);
        }
    }
    lemma_to_map_all(s);
    lemma_to_map_all(t);
    assert forall|q: u64| #[trigger] has_key(t, q) <==> (has_key(s, q) || q == k) by {
        if has_key(t, q) {
            let j = choose|j: int| 0 <= j < t.len() && t[j].0 == q;
            if j < pos {
                assert(s[j].0 == q);
            } else if j > pos {
                assert(s[j - 1].0 == q);
            }
        }
        if has_key(s, q) {
            let j = choose|j: int| 0 <= j < s.len() && s[j].0 == q;
            if j < pos {
                assert(t[j].0 == q);
            } else {
                assert(t[j + 1].0 == q);
            }
        }
        if q == k {
            assert(t[pos].0 == q);
        }
    }
    assert forall|q: u64| #[trigger] to_map(t).contains_key(q) implies to_map(t)[q] == to_map(
        s,
    ).insert(k, v)[q] by {
        let j = choose|j: int| 0 <= j < t.len() && t[j].0 == q;
        assert(key_index(t, t[j].0) == j);
        if j < pos {
            assert(key_index(s, s[j].0) == j);
        } else if j > pos {
            assert(t[j] == s[j - 1]);
            assert(key_index(s, s[j - 1].0) == j - 1);
        }
    }
    assert(to_map(t) =~= to_map(s).insert(k, v));
}

/// Removing position `i` removes its key from the map.
pub proof fn lemma_to_map_remove<V>(s: Seq<(u64, V)>, i: int)
    requires
        keys_increasing(s),
        0 <= i < s.len(),
    ensures
        keys_increasing(s.remove(i)),
        to_map(s.remove(i)) == to_map(s).remove(s[i].0),
{
    let t = s.remove(i);
    assert forall|a: int, b: int| 0 <= a < b < t.len() implies t[a].0 < t[b].0 by {
        if b < i {
        } else if a < i {
            assert(t[b] == s[b + 1]);
        } else {
            assert(t[a] == s[a + 1] && t[b] == s[b + 1]);
        }
    }
    lemma_to_map_all(s);
    lemma_to_map_all(t);
    assert forall|q: u64| #[trigger] has_key(t, q) <==> (has_key(s, q) && q != s[i].0) by {
        if has_key(t, q) {
            let j = choose|j: int| 0 <= j < t.len() && t[j].0 == q;
            if j < i {
                assert(s[j].0 == q);
            } else {
                assert(s[j + 1].0 == q);
            }
        }
        if has_key(s, q) && q != s[i].0 {
            let j = choose|j: int| 0 <= j < s.len() && s[j].0 == q;
            if j < i {
                assert(t[j].0 == q);
            } else {
                assert(j != i);
                assert(t[j - 1].0 == q);
            }
        }
    }
    assert forall|q: u64| #[trigger] to_map(t).contains_key(q) implies to_map(t)[q] == to_map(
        s,
    ).remove(s[i].0)[q] by {
        let j = choose|j: int| 0 <= j < t.len() && t[j].0 == q;
        assert(key_index(t, t[j].0) == j);
        if j < i {
            assert(key_index(s, s[j].0) == j);
        } else {
            assert(t[j] == s[j + 1]);
            assert(key_index(s, s[j + 1].0) == j + 1);
        }
    }
    assert(to_map(t) =~= to_map(s).remove(s[i].0));
}

/// Growing a prefix of `s` by one pair adds exactly that pair's key, which
/// the shorter prefix does not hold.
pub proof fn lemma_has_key_take<V>(s: Seq<(u64, V)>, j: int)
    requires
        keys_increasing(s),
        0 <= j < s.len(),
    ensures
        keys_increasing(s.take(j)),
        keys_increasing(s.take(j + 1)),
        !has_key(s.take(j), s[j].0),
        forall|k: u64| #[trigger] has_key(s.take(j + 1), k) <==> (has_key(s.take(j), k) || k == s[j].0),
{
    assert forall|k: u64| #[trigger] has_key(s.take(j + 1), k) <==> (has_key(s.take(j), k) || k
        == s[j].0) by {
        let longer = s.take(j + 1);
        let shorter = s.take(j);
        if has_key(longer, k) {
            let i = choose|i: int| 0 <= i < longer.len() && #[trigger] longer[i].0 == k;
            if i < j {
                assert(shorter[i].0 == k);
            }
        }
        if has_key(shorter, k) {
            let i = choose|i: int| 0 <= i < shorter.len() && #[trigger] shorter[i].0 == k;
            assert(longer[i].0 == k);
        }
        if k == s[j].0 {
            assert(s.take(j + 1)[j].0 == k);
        }
    }
    let shorter = s.take(j);
    if has_key(shorter, s[j].0) {
        let i = choose|i: int| 0 <= i < shorter.len() && #[trigger] shorter[i].0 == s[j].0;
        assert(s[i].0 < s[j].0);
    }
}

/// Finds `k` in a key-ordered vector: `Ok` with its position, or `Err` with the
/// position where it would be inserted.
pub fn find_key<V>(v: &Vec<(u64, V)>, k: u64) -> (r: Result<usize, usize>)
    requires
        keys_increasing(v@),
    ensures
        r matches Ok(i) ==> i < v@.len() && v@[i as int].0 == k,
        r matches Err(pos) ==> {
            &&& pos <= v@.len()
            &&& forall|j: int| 0 <= j < pos ==> v@[j].0 < k
            &&& forall|j: int| pos <= j < v@.len() ==> v@[j].0 > k
        },
        r is Ok <==> has_key(v@, k),
{
    let mut i: usize = 0;
    while i < v.len() && v[i].0 < k
        invariant
            i <= v@.len(),
            keys_increasing(v@),
            forall|j: int| 0 <= j < i ==> v@[j].0 < k,
        decreases v@.len() - i,
    {
        i = i + 1;
    }
    if i < v.len() && v[i].0 == k {
        Ok(i)
    } else {
        assert forall|j: int| i <= j < v@.len() implies v@[j].0 > k by {
            if j > i {
                assert(v@[i as int].0 < v@[j].0);
            }
        }
        assert(!has_key(v@, k)) by {
            if has_key(v@, k) {
                let j = choose|j: int| 0 <= j < v@.len() && v@[j].0 == k;
                if j < i {
                } else {
                }
            }
        }
        Err(i)
    }
}

/// The sum of a sequence of integers.
pub open spec fn sum_of(s: Seq<int>) -> int
    decreases s.len(),
{
    if s.len() == 0 {
        0
    } else {
        sum_of(s.drop_last()) + s.last()
    }
}

pub proof fn lemma_sum_push(s: Seq<int>, x: int)
    ensures
        sum_of(s.push(x)) == sum_of(s) + x,
{
    assert(s.push(x).drop_last() =~= s);
}

pub proof fn lemma_sum_insert(s: Seq<int>, i: int, x: int)
    requires
        0 <= i <= s.len(),
    ensures
        sum_of(s.insert(i, x)) == sum_of(s) + x,
    decreases s.len(),
{
    if i == s.len() {
        assert(s.insert(i, x) =~= s.push(x));
        lemma_sum_push(s, x);
    } else {
        assert(s.insert(i, x).drop_last() =~= s.drop_last().insert(i, x));
        lemma_sum_insert(s.drop_last(), i, x);
    }
}

pub proof fn lemma_sum_remove(s: Seq<int>, i: int)
    requires
        0 <= i < s.len(),
    ensures
        sum_of(s.remove(i)) == sum_of(s) - s[i],
{
    assert(s.remove(i).insert(i, s[i]) =~= s);
    lemma_sum_insert(s.remove(i), i, s[i]);
}

pub proof fn lemma_sum_update(s: Seq<int>, i: int, x: int)
    requires
        0 <= i < s.len(),
    ensures
        sum_of(s.update(i, x)) == sum_of(s) - s[i] + x,
{
    assert(s.update(i, x).remove(i) =~= s.remove(i));
    lemma_sum_remove(s, i);
    lemma_sum_remove(s.update(i, x), i);
}

/// A sum of non-negative integers is at least each of them.
pub proof fn lemma_sum_bounds(s: Seq<int>, i: int)
    requires
        forall|j: int| 0 <= j < s.len() ==> s[j] >= 0,
        0 <= i < s.len(),
    ensures
        0 <= s[i] <= sum_of(s),
{
    lemma_sum_remove(s, i);
    lemma_sum_nonneg(s.remove(i));
}

/// A prefix of non-negative integers sums to at most the whole.
pub proof fn lemma_sum_prefix_le(s: Seq<int>, i: int)
    requires
        forall|j: int| 0 <= j < s.len() ==> s[j] >= 0,
        0 <= i <= s.len(),
    ensures
        sum_of(s.take(i)) <= sum_of(s),
    decreases s.len(),
{
    if i == s.len() {
        assert(s.take(i) =~= s);
    } else {
        assert(s.take(i) =~= s.drop_last().take(i));
        lemma_sum_prefix_le(s.drop_last(), i);
    }
}

pub proof fn lemma_sum_nonneg(s: Seq<int>)
    requires
        forall|j: int| 0 <= j < s.len() ==> s[j] >= 0,
    ensures
        sum_of(s) >= 0,
    decreases s.len(),
{
    if s.len() > 0 {
        lemma_sum_nonneg(s.drop_last());
    }
}

} // verus!
