//! Mathematical model of one book side's resting contents.
//!
//! A side's contents are modelled as the flattened sequence of
//! `(price tick, order)` pairs in iteration order: ascending tick, and
//! insertion (arrival) order within a tick.  Time priority at a price level
//! is therefore exactly the order of the pairs that share that tick.

use vstd::prelude::*;
use crate::order_data::OrderData;

verus! {

/// The pairs are sorted by tick (ties keep their relative order).
pub open spec fn pairs_sorted(s: Seq<(i32, OrderData)>) -> bool {
    forall|i: int, j: int| #![trigger s[i], s[j]] 0 <= i <= j < s.len() ==> s[i].0 <= s[j].0
}

/// How many pairs carry a tick strictly below `k`.
pub open spec fn count_lt(s: Seq<(i32, OrderData)>, k: i32) -> int
    decreases s.len(),
{
    if s.len() == 0 {
        0
    } else {
        count_lt(s.drop_last(), k) + if s.last().0 < k {
            1int
        } else {
            0int
        }
    }
}

/// How many pairs carry a tick at most `k`.
pub open spec fn count_le(s: Seq<(i32, OrderData)>, k: i32) -> int
    decreases s.len(),
{
    if s.len() == 0 {
        0
    } else {
        count_le(s.drop_last(), k) + if s.last().0 <= k {
            1int
        } else {
            0int
        }
    }
}

/// Some pair carries tick `k`.
pub open spec fn has_key(s: Seq<(i32, OrderData)>, k: i32) -> bool {
    exists|i: int| 0 <= i < s.len() && (#[trigger] s[i]).0 == k
}

/// Some pair carries an order with id `id`.
pub open spec fn has_id(s: Seq<(i32, OrderData)>, id: u64) -> bool {
    exists|i: int| 0 <= i < s.len() && (#[trigger] s[i]).1.id == id
}

/// The index of the pair whose order carries `id` (unique in a well-formed
/// side).
pub open spec fn idx_of_id(s: Seq<(i32, OrderData)>, id: u64) -> int {
    choose|i: int| 0 <= i < s.len() && (#[trigger] s[i]).1.id == id
}

/// The orders of the pairs, in the same sequence order.
pub open spec fn vals(s: Seq<(i32, OrderData)>) -> Seq<OrderData> {
    Seq::new(s.len(), |i: int| s[i].1)
}

/// The contents after filing `o` at tick `k`: the new pair lands right after
/// every pair with tick at most `k`, i.e. at the back of its level's queue.
pub open spec fn insert_pairs(s: Seq<(i32, OrderData)>, k: i32, o: OrderData) -> Seq<
    (i32, OrderData),
> {
    s.insert(count_le(s, k), (k, o))
}

/// The orders tagged with one tick, in the same sequence order.
pub open spec fn with_key(k: i32, os: Seq<OrderData>) -> Seq<(i32, OrderData)> {
    Seq::new(os.len(), |i: int| (k, os[i]))
}

/// Total resting quantity of the pairs.
pub open spec fn qty_sum(s: Seq<(i32, OrderData)>) -> int
    decreases s.len(),
{
    if s.len() == 0 {
        0
    } else {
        qty_sum(s.drop_last()) + s.last().1.quantity
    }
}

/// Total traded quantity of a trade sequence.
pub open spec fn trade_qty_sum(ts: Seq<crate::order_data::Trade>) -> int
    decreases ts.len(),
{
    if ts.len() == 0 {
        0
    } else {
        trade_qty_sum(ts.drop_last()) + ts.last().qty
    }
}

/// The tick counts are non-negative, ordered, and bounded by the length.
pub proof fn lemma_count_bounds(s: Seq<(i32, OrderData)>, k: i32)
    ensures
        0 <= count_lt(s, k) <= count_le(s, k) <= s.len(),
    decreases s.len(),
{
    if s.len() > 0 {
        lemma_count_bounds(s.drop_last(), k);
    }
}

/// In a sorted sequence the pairs below `k`, at `k`, and above `k` form three
/// contiguous regions whose boundaries are the two counts.
pub proof fn lemma_sorted_partition(s: Seq<(i32, OrderData)>, k: i32)
    requires
        pairs_sorted(s),
    ensures
        0 <= count_lt(s, k) <= count_le(s, k) <= s.len(),
        forall|i: int| 0 <= i < s.len() ==> (((#[trigger] s[i]).0 < k) <==> i < count_lt(s, k)),
        forall|i: int| 0 <= i < s.len() ==> (((#[trigger] s[i]).0 <= k) <==> i < count_le(s, k)),
    decreases s.len(),
{
    lemma_count_bounds(s, k);
    if s.len() > 0 {
        let s0 = s.drop_last();
        lemma_count_bounds(s0, k);
        assert forall|i: int, j: int| 0 <= i <= j < s0.len() implies (#[trigger] s0[i]).0 <= (
        #[trigger] s0[j]).0 by {
            assert(s0[i] == s[i]);
            assert(s0[j] == s[j]);
        }
        lemma_sorted_partition(s0, k);
        let c_lt0 = count_lt(s0, k);
        let c_le0 = count_le(s0, k);
        let last = s.last();
        // Sortedness bounds every tick by the last pair's tick.
        assert forall|i: int| 0 <= i < s.len() implies (#[trigger] s[i]).0 <= last.0 by {
            assert(s[i].0 <= s[s.len() - 1].0);
        }
        if last.0 < k {
            assert(c_lt0 == s0.len()) by {
                if c_lt0 < s0.len() {
                    assert(s0[c_lt0] == s[c_lt0]);
                    assert(s[c_lt0].0 <= last.0);
                }
            }
            assert(c_le0 == s0.len()) by {
                if c_le0 < s0.len() {
                    assert(s0[c_le0] == s[c_le0]);
                    assert(s[c_le0].0 <= last.0);
                }
            }
        } else if last.0 == k {
            assert(c_le0 == s0.len()) by {
                if c_le0 < s0.len() {
                    assert(s0[c_le0] == s[c_le0]);
                    assert(s[c_le0].0 <= last.0);
                }
            }
        }
        assert forall|i: int| 0 <= i < s.len() implies (((#[trigger] s[i]).0 < k) <==> i
            < count_lt(s, k)) by {
            if i < s.len() - 1 {
                assert(s0[i] == s[i]);
            }
        }
        assert forall|i: int| 0 <= i < s.len() implies (((#[trigger] s[i]).0 <= k) <==> i
            < count_le(s, k)) by {
            if i < s.len() - 1 {
                assert(s0[i] == s[i]);
            }
        }
    }
}

/// A pair with tick `k` exists exactly when the two counts differ.
pub proof fn lemma_has_key_counts(s: Seq<(i32, OrderData)>, k: i32)
    requires
        pairs_sorted(s),
    ensures
        has_key(s, k) <==> count_lt(s, k) < count_le(s, k),
{
    lemma_sorted_partition(s, k);
    if count_lt(s, k) < count_le(s, k) {
        assert(s[count_lt(s, k)].0 == k);
    }
}

/// Both counts distribute over concatenation.
pub proof fn lemma_count_add(a: Seq<(i32, OrderData)>, b: Seq<(i32, OrderData)>, k: i32)
    ensures
        count_lt(a + b, k) == count_lt(a, k) + count_lt(b, k),
        count_le(a + b, k) == count_le(a, k) + count_le(b, k),
    decreases b.len(),
{
    if b.len() == 0 {
        assert(a + b =~= a);
    } else {
        assert((a + b).drop_last() =~= a + b.drop_last());
        assert((a + b).last() == b.last());
        lemma_count_add(a, b.drop_last(), k);
    }
}

/// Quantity totals distribute over concatenation.
pub proof fn lemma_qty_sum_add(a: Seq<(i32, OrderData)>, b: Seq<(i32, OrderData)>)
    ensures
        qty_sum(a + b) == qty_sum(a) + qty_sum(b),
    decreases b.len(),
{
    if b.len() == 0 {
        assert(a + b =~= a);
    } else {
        assert((a + b).drop_last() =~= a + b.drop_last());
        assert((a + b).last() == b.last());
        lemma_qty_sum_add(a, b.drop_last());
    }
}

/// Removing one pair subtracts exactly its quantity from the total.
pub proof fn lemma_qty_sum_remove(s: Seq<(i32, OrderData)>, i: int)
    requires
        0 <= i < s.len(),
    ensures
        qty_sum(s.remove(i)) == qty_sum(s) - s[i].1.quantity,
{
    let a = s.take(i);
    let mid = seq![s[i]];
    let b = s.skip(i + 1);
    assert(s =~= a + mid + b);
    assert(s.remove(i) =~= a + b);
    lemma_qty_sum_add(a + mid, b);
    lemma_qty_sum_add(a, mid);
    lemma_qty_sum_add(a, b);
    assert(qty_sum(mid) == s[i].1.quantity) by {
        assert(mid.drop_last() =~= Seq::<(i32, OrderData)>::empty());
        assert(qty_sum(Seq::<(i32, OrderData)>::empty()) == 0);
    }
}

/// Replacing one pair shifts the total by the quantity difference.
pub proof fn lemma_qty_sum_update(s: Seq<(i32, OrderData)>, i: int, p: (i32, OrderData))
    requires
        0 <= i < s.len(),
    ensures
        qty_sum(s.update(i, p)) == qty_sum(s) - s[i].1.quantity + p.1.quantity,
{
    let a = s.take(i);
    let b = s.skip(i + 1);
    assert(s =~= a + seq![s[i]] + b);
    assert(s.update(i, p) =~= a + seq![p] + b);
    lemma_qty_sum_add(a + seq![s[i]], b);
    lemma_qty_sum_add(a, seq![s[i]]);
    lemma_qty_sum_add(a + seq![p], b);
    lemma_qty_sum_add(a, seq![p]);
    assert(qty_sum(seq![s[i]]) == s[i].1.quantity) by {
        assert(seq![s[i]].drop_last() =~= Seq::<(i32, OrderData)>::empty());
        assert(qty_sum(Seq::<(i32, OrderData)>::empty()) == 0);
    }
    assert(qty_sum(seq![p]) == p.1.quantity) by {
        assert(seq![p].drop_last() =~= Seq::<(i32, OrderData)>::empty());
        assert(qty_sum(Seq::<(i32, OrderData)>::empty()) == 0);
    }
}

/// Counting a sequence whose ticks all lie below `k`.
pub proof fn lemma_count_all_lt(s: Seq<(i32, OrderData)>, k: i32)
    requires
        forall|i: int| 0 <= i < s.len() ==> (#[trigger] s[i]).0 < k,
    ensures
        count_lt(s, k) == s.len(),
        count_le(s, k) == s.len(),
    decreases s.len(),
{
    if s.len() > 0 {
        let s0 = s.drop_last();
        assert(forall|i: int| 0 <= i < s0.len() ==> #[trigger] s0[i] == s[i]);
        lemma_count_all_lt(s0, k);
    }
}

/// Counting a sequence whose ticks all equal `k`.
pub proof fn lemma_count_all_eq(s: Seq<(i32, OrderData)>, k: i32)
    requires
        forall|i: int| 0 <= i < s.len() ==> (#[trigger] s[i]).0 == k,
    ensures
        count_lt(s, k) == 0,
        count_le(s, k) == s.len(),
    decreases s.len(),
{
    if s.len() > 0 {
        let s0 = s.drop_last();
        assert(forall|i: int| 0 <= i < s0.len() ==> #[trigger] s0[i] == s[i]);
        lemma_count_all_eq(s0, k);
    }
}

/// Counting a sequence whose ticks all lie above `k`.
pub proof fn lemma_count_all_gt(s: Seq<(i32, OrderData)>, k: i32)
    requires
        forall|i: int| 0 <= i < s.len() ==> (#[trigger] s[i]).0 > k,
    ensures
        count_lt(s, k) == 0,
        count_le(s, k) == 0,
    decreases s.len(),
{
    if s.len() > 0 {
        let s0 = s.drop_last();
        assert(forall|i: int| 0 <= i < s0.len() ==> #[trigger] s0[i] == s[i]);
        lemma_count_all_gt(s0, k);
    }
}

/// How `Seq::insert` maps indices.
pub proof fn lemma_insert_index(s: Seq<(i32, OrderData)>, c: int, p: (i32, OrderData))
    requires
        0 <= c <= s.len(),
    ensures
        s.insert(c, p).len() == s.len() + 1,
        forall|i: int| 0 <= i < c ==> #[trigger] s.insert(c, p)[i] == s[i],
        s.insert(c, p)[c] == p,
        forall|i: int| c < i < s.len() + 1 ==> #[trigger] s.insert(c, p)[i] == s[i - 1],
{
}

/// How `Seq::remove` maps indices.
pub proof fn lemma_remove_index(s: Seq<(i32, OrderData)>, c: int)
    requires
        0 <= c < s.len(),
    ensures
        s.remove(c).len() == s.len() - 1,
        forall|i: int| 0 <= i < c ==> #[trigger] s.remove(c)[i] == s[i],
        forall|i: int| c <= i < s.len() - 1 ==> #[trigger] s.remove(c)[i] == s[i + 1],
{
}

/// Traded-quantity totals distribute over concatenation.
pub proof fn lemma_trade_qty_sum_add(a: Seq<crate::order_data::Trade>, b: Seq<crate::order_data::Trade>)
    ensures
        trade_qty_sum(a + b) == trade_qty_sum(a) + trade_qty_sum(b),
    decreases b.len(),
{
    if b.len() == 0 {
        assert(a + b =~= a);
    } else {
        assert((a + b).drop_last() =~= a + b.drop_last());
        assert((a + b).last() == b.last());
        lemma_trade_qty_sum_add(a, b.drop_last());
    }
}

/// Total quantity of a sequence of orders.
pub open spec fn order_qty_sum(os: Seq<OrderData>) -> int
    decreases os.len(),
{
    if os.len() == 0 {
        0
    } else {
        order_qty_sum(os.drop_last()) + os.last().quantity
    }
}

/// A strictly ascending list of ticks.
pub open spec fn ticks_ascending(ks: Seq<i32>) -> bool {
    forall|j1: int, j2: int| #![trigger ks[j1], ks[j2]] 0 <= j1 < j2 < ks.len() ==> ks[j1] < ks[j2]
}

/// The tick `k` is listed.
pub open spec fn has_tick(ks: Seq<i32>, k: i32) -> bool {
    exists|j: int| 0 <= j < ks.len() && (#[trigger] ks[j]) == k
}

/// Every pair's tick is listed.
pub open spec fn ticks_cover(ks: Seq<i32>, s: Seq<(i32, OrderData)>) -> bool
    decreases s.len(),
{
    if s.len() == 0 {
        true
    } else {
        ticks_cover(ks, s.drop_last()) && has_tick(ks, s.last().0)
    }
}

/// A covering list has every indexed pair's tick.
pub proof fn lemma_cover_index(ks: Seq<i32>, s: Seq<(i32, OrderData)>, i: int)
    requires
        ticks_cover(ks, s),
        0 <= i < s.len(),
    ensures
        has_tick(ks, s[i].0),
    decreases s.len(),
{
    if i < s.len() - 1 {
        lemma_cover_index(ks, s.drop_last(), i);
        assert(s.drop_last()[i] == s[i]);
    }
}

/// A list with every indexed pair's tick is covering.
pub proof fn lemma_cover_build(ks: Seq<i32>, s: Seq<(i32, OrderData)>)
    requires
        forall|i: int| 0 <= i < s.len() ==> has_tick(ks, (#[trigger] s[i]).0),
    ensures
        ticks_cover(ks, s),
    decreases s.len(),
{
    if s.len() > 0 {
        let s0 = s.drop_last();
        assert(forall|i: int| 0 <= i < s0.len() ==> #[trigger] s0[i] == s[i]);
        lemma_cover_build(ks, s0);
        assert(has_tick(ks, s[s.len() - 1].0));
    }
}

/// Every listed tick carries at least one pair.
pub open spec fn ticks_resting(ks: Seq<i32>, s: Seq<(i32, OrderData)>) -> bool {
    forall|j: int| 0 <= j < ks.len() ==> has_key(s, #[trigger] ks[j])
}

} // verus!
