//! The engine's global guarantees, stated and proved over the matching
//! model that the lifecycle operations' contracts are written in.

use vstd::prelude::*;
use crate::book_model::{
    count_le, has_id, idx_of_id, insert_pairs, lemma_count_bounds, lemma_insert_index,
    lemma_qty_sum_remove, lemma_qty_sum_update, lemma_remove_index, lemma_sorted_partition,
    lemma_trade_qty_sum_add, qty_sum, trade_qty_sum,
};
use crate::book_side::{best_idx, best_order, side_inv, BookSideView};
use crate::engine::{
    books_overlap, lemma_best_idx_bounds, lemma_step_sides_wf, match_loop, side_after_fill,
    step_fault, step_trade,
};
use crate::order_data::{OrderData, Trade, TradeType};

verus! {

/// Price-time priority of one matching step.  Across prices, the matched
/// bid rests at the numerically highest tick and the matched ask at the
/// lowest; within that best price, the matched order is the front of its
/// queue (no earlier arrival shares its tick); and the step touches no
/// other resting order: every other pair survives, in order.
pub proof fn lemma_step_price_time_priority(bids: BookSideView, asks: BookSideView, tt: TradeType)
    requires
        side_inv(bids),
        side_inv(asks),
        bids.is_buy,
        !asks.is_buy,
        books_overlap(bids, asks),
    ensures
        forall|i: int|
            0 <= i < bids.pairs.len() ==> (#[trigger] bids.pairs[i]).0 <= bids.pairs[best_idx(
                bids,
            )].0,
        forall|i: int|
            0 <= i < asks.pairs.len() ==> (#[trigger] asks.pairs[i]).0 >= asks.pairs[best_idx(
                asks,
            )].0,
        forall|i: int|
            0 <= i < best_idx(bids) ==> (#[trigger] bids.pairs[i]).0 != bids.pairs[best_idx(
                bids,
            )].0,
        best_idx(asks) == 0,
        ({
            let t = step_trade(bids, asks, tt);
            let nb = side_after_fill(bids, t.qty);
            let na = side_after_fill(asks, t.qty);
            &&& (forall|i: int| 0 <= i < best_idx(bids) ==> #[trigger] nb.pairs[i] == bids.pairs[i])
            &&& (best_order(bids).quantity == t.qty ==> forall|i: int|
                best_idx(bids) <= i < nb.pairs.len() ==> #[trigger] nb.pairs[i] == bids.pairs[i
                    + 1])
            &&& (best_order(bids).quantity > t.qty ==> forall|i: int|
                best_idx(bids) < i < nb.pairs.len() ==> #[trigger] nb.pairs[i] == bids.pairs[i])
            &&& (best_order(asks).quantity == t.qty ==> forall|i: int|
                0 <= i < na.pairs.len() ==> #[trigger] na.pairs[i] == asks.pairs[i + 1])
            &&& (best_order(asks).quantity > t.qty ==> forall|i: int|
                0 < i < na.pairs.len() ==> #[trigger] na.pairs[i] == asks.pairs[i])
        }),
{
    lemma_best_idx_bounds(bids);
    lemma_best_idx_bounds(asks);
    let bk = bids.pairs.last().0;
    lemma_sorted_partition(bids.pairs, bk);
    assert forall|i: int| 0 <= i < bids.pairs.len() implies (#[trigger] bids.pairs[i]).0
        <= bids.pairs[best_idx(bids)].0 by {
        assert(bids.pairs[i].0 <= bids.pairs[bids.pairs.len() - 1].0);
    }
    assert forall|i: int| 0 <= i < asks.pairs.len() implies (#[trigger] asks.pairs[i]).0
        >= asks.pairs[best_idx(asks)].0 by {
        assert(asks.pairs[0].0 <= asks.pairs[i].0);
    }
    let t = step_trade(bids, asks, tt);
    if best_order(bids).quantity == t.qty {
        lemma_remove_index(bids.pairs, best_idx(bids));
    }
    if best_order(asks).quantity == t.qty {
        lemma_remove_index(asks.pairs, best_idx(asks));
    }
}

/// One matching step's conservation: the trade's quantity is positive and
/// is taken from both sides exactly — each side's total resting quantity
/// falls by precisely the trade's quantity.
pub proof fn lemma_step_conservation(bids: BookSideView, asks: BookSideView, tt: TradeType)
    requires
        side_inv(bids),
        side_inv(asks),
        books_overlap(bids, asks),
    ensures
        step_trade(bids, asks, tt).qty > 0,
        qty_sum(side_after_fill(bids, step_trade(bids, asks, tt).qty).pairs) == qty_sum(bids.pairs)
            - step_trade(bids, asks, tt).qty,
        qty_sum(side_after_fill(asks, step_trade(bids, asks, tt).qty).pairs) == qty_sum(asks.pairs)
            - step_trade(bids, asks, tt).qty,
{
    lemma_best_idx_bounds(bids);
    lemma_best_idx_bounds(asks);
    let size = step_trade(bids, asks, tt).qty;
    lemma_side_sum_after_fill(bids, size);
    lemma_side_sum_after_fill(asks, size);
}

/// A fill of `size` against a side's top order lowers that side's total
/// resting quantity by exactly `size`.
proof fn lemma_side_sum_after_fill(v: BookSideView, size: u32)
    requires
        side_inv(v),
        v.pairs.len() > 0,
        0 < size <= v.pairs[best_idx(v)].1.quantity,
    ensures
        qty_sum(side_after_fill(v, size).pairs) == qty_sum(v.pairs) - size,
{
    lemma_best_idx_bounds(v);
    let w = best_idx(v);
    let o = v.pairs[w].1;
    if o.quantity == size {
        lemma_qty_sum_remove(v.pairs, w);
    } else {
        lemma_qty_sum_update(
            v.pairs,
            w,
            (v.pairs[w].0, OrderData { quantity: (o.quantity - size) as u32, ..o }),
        );
    }
}

/// Matching terminates (witnessed by `match_loop`'s decreasing measure and
/// the matching loop's own termination proof), every produced trade carries
/// a positive quantity, and quantity is conserved: on each side, the total
/// quantity traded away plus the quantity remaining equals the quantity at
/// loop start.
pub proof fn lemma_matching_conservation(bids: BookSideView, asks: BookSideView, tt: TradeType)
    requires
        side_inv(bids),
        side_inv(asks),
    ensures
        ({
            let m = match_loop(bids, asks, tt);
            &&& qty_sum(bids.pairs) == qty_sum(m.bids.pairs) + trade_qty_sum(m.trades)
            &&& qty_sum(asks.pairs) == qty_sum(m.asks.pairs) + trade_qty_sum(m.trades)
            &&& forall|i: int| 0 <= i < m.trades.len() ==> (#[trigger] m.trades[i]).qty > 0
        }),
    decreases bids.pairs.len() + asks.pairs.len(),
{
    let m = match_loop(bids, asks, tt);
    if books_overlap(bids, asks) && !step_fault(bids, asks) {
        let t = step_trade(bids, asks, tt);
        let nb = side_after_fill(bids, t.qty);
        let na = side_after_fill(asks, t.qty);
        let rest = match_loop(nb, na, tt);
        lemma_step_sides_wf(bids, asks, tt);
        lemma_step_conservation(bids, asks, tt);
        lemma_matching_conservation(nb, na, tt);
        lemma_trade_qty_sum_add(seq![t], rest.trades);
        assert(trade_qty_sum(seq![t]) == t.qty) by {
            assert(seq![t].drop_last() =~= Seq::<Trade>::empty());
            assert(trade_qty_sum(Seq::<Trade>::empty()) == 0);
        }
        assert forall|i: int| 0 <= i < m.trades.len() implies (#[trigger] m.trades[i]).qty > 0 by {
            if i == 0 {
                assert(m.trades[0] == t);
            } else {
                assert(m.trades[i] == rest.trades[i - 1]);
            }
        }
    }
}

/// The full-fill invariant of one matching step: the trade's quantity is
/// the minimum of the two top quantities, and exactly the side(s) whose top
/// order's quantity equals it are removed from the book — the other side's
/// top order survives in place with the difference remaining.
pub proof fn lemma_step_full_fill(bids: BookSideView, asks: BookSideView, tt: TradeType)
    requires
        side_inv(bids),
        side_inv(asks),
        books_overlap(bids, asks),
    ensures
        ({
            let t = step_trade(bids, asks, tt);
            let b = best_order(bids);
            let a = best_order(asks);
            let nb = side_after_fill(bids, t.qty);
            let na = side_after_fill(asks, t.qty);
            &&& t.qty == (if b.quantity <= a.quantity {
                b.quantity
            } else {
                a.quantity
            })
            &&& t.qty > 0
            &&& b.quantity == t.qty || a.quantity == t.qty
            &&& b.quantity == t.qty ==> nb.pairs == bids.pairs.remove(best_idx(bids)) && !has_id(
                nb.pairs,
                b.id,
            )
            &&& b.quantity > t.qty ==> nb.pairs == bids.pairs.update(
                best_idx(bids),
                (
                    bids.pairs[best_idx(bids)].0,
                    OrderData { quantity: (b.quantity - t.qty) as u32, ..b },
                ),
            ) && has_id(nb.pairs, b.id)
            &&& a.quantity == t.qty ==> na.pairs == asks.pairs.remove(best_idx(asks)) && !has_id(
                na.pairs,
                a.id,
            )
            &&& a.quantity > t.qty ==> na.pairs == asks.pairs.update(
                best_idx(asks),
                (
                    asks.pairs[best_idx(asks)].0,
                    OrderData { quantity: (a.quantity - t.qty) as u32, ..a },
                ),
            ) && has_id(na.pairs, a.id)
        }),
{
    lemma_best_idx_bounds(bids);
    lemma_best_idx_bounds(asks);
    let t = step_trade(bids, asks, tt);
    lemma_fill_id_presence(bids, t.qty);
    lemma_fill_id_presence(asks, t.qty);
}

/// After a fill, the filled order's id is gone exactly when it was fully
/// consumed.
proof fn lemma_fill_id_presence(v: BookSideView, size: u32)
    requires
        side_inv(v),
        v.pairs.len() > 0,
        0 < size <= v.pairs[best_idx(v)].1.quantity,
    ensures
        v.pairs[best_idx(v)].1.quantity == size ==> !has_id(
            side_after_fill(v, size).pairs,
            v.pairs[best_idx(v)].1.id,
        ),
        v.pairs[best_idx(v)].1.quantity > size ==> has_id(
            side_after_fill(v, size).pairs,
            v.pairs[best_idx(v)].1.id,
        ),
{
    lemma_best_idx_bounds(v);
    let w = best_idx(v);
    let o = v.pairs[w].1;
    let np = side_after_fill(v, size).pairs;
    if o.quantity == size {
        lemma_remove_index(v.pairs, w);
        assert forall|i: int| 0 <= i < np.len() implies (#[trigger] np[i]).1.id != o.id by {
            if i < w {
                assert(np[i] == v.pairs[i]);
            } else {
                assert(np[i] == v.pairs[i + 1]);
            }
        }
    } else {
        assert(np[w].1.id == o.id);
    }
}

/// Round trip: filing a fresh order on a side and then cancelling it by id
/// restores both the book queues and the id index exactly; the order was
/// not resting before, and it is found at the back of its level's queue in
/// between.
pub proof fn lemma_create_cancel_round_trip(v: BookSideView, tick: i32, o: OrderData)
    requires
        side_inv(v),
        !v.index.contains_key(o.id),
    ensures
        ({
            let v1 = BookSideView {
                pairs: insert_pairs(v.pairs, tick, o),
                index: v.index.insert(o.id, tick),
                is_buy: v.is_buy,
            };
            &&& !has_id(v.pairs, o.id)
            &&& has_id(v1.pairs, o.id)
            &&& idx_of_id(v1.pairs, o.id) == count_le(v.pairs, tick)
            &&& v1.pairs.remove(idx_of_id(v1.pairs, o.id)) == v.pairs
            &&& v1.index.remove(o.id) == v.index
        }),
{
    let c = count_le(v.pairs, tick);
    lemma_count_bounds(v.pairs, tick);
    lemma_insert_index(v.pairs, c, (tick, o));
    let np = insert_pairs(v.pairs, tick, o);
    assert(!has_id(v.pairs, o.id)) by {
        if has_id(v.pairs, o.id) {
            let i = choose|i: int| 0 <= i < v.pairs.len() && (#[trigger] v.pairs[i]).1.id == o.id;
            assert(v.index.contains_key(o.id));
        }
    }
    assert(np[c].1.id == o.id);
    assert(has_id(np, o.id));
    let w = idx_of_id(np, o.id);
    assert(0 <= w < np.len() && np[w].1.id == o.id);
    assert(w == c) by {
        if w < c {
            assert(np[w] == v.pairs[w]);
        } else if w > c {
            assert(np[w] == v.pairs[w - 1]);
        }
    }
    assert(np.remove(c) =~= v.pairs);
    assert(v.index.insert(o.id, tick).remove(o.id) =~= v.index);
}

} // verus!
