//! One side of the book: a price-ordered collection of time-ordered order
//! queues, plus the id-to-tick reverse index restricted to this side.

use vstd::prelude::*;
use btreemultimap::BTreeMultiMap;
use std::collections::HashMap;
use crate::book_model::{
    count_le, count_lt, has_id, has_key, idx_of_id, insert_pairs, lemma_count_add,
    lemma_count_all_eq, lemma_count_all_gt, lemma_count_all_lt, lemma_count_bounds,
    lemma_has_key_counts, lemma_insert_index, lemma_remove_index, lemma_sorted_partition,
    has_tick, lemma_cover_build, lemma_cover_index, order_qty_sum, pairs_sorted, ticks_ascending,
    ticks_cover, ticks_resting, vals, with_key,
};
use crate::level_map::{
    level_map_first_key, level_map_get_vec, level_map_insert, level_map_keys, level_map_last_key,
    level_map_new, level_map_remove, level_pairs,
};
use crate::order_data::{EngineError, OrderData};

verus! {

broadcast use vstd::std_specs::hash::group_hash_axioms;

/// Re-file one level's queue: insert the orders of `kept`, in order, at tick
/// `tick`, into a map that currently has no pair at that tick.  The orders
/// end up as one contiguous run between the ticks below and above.
fn put_level(m: &mut BTreeMultiMap<i32, OrderData>, tick: i32, kept: &Vec<OrderData>)
    requires
        pairs_sorted(level_pairs(*old(m))),
        !has_key(level_pairs(*old(m)), tick),
    ensures
        pairs_sorted(level_pairs(*final(m))),
        level_pairs(*final(m)) == level_pairs(*old(m)).take(count_le(level_pairs(*old(m)), tick))
            + with_key(tick, kept@) + level_pairs(*old(m)).skip(
            count_le(level_pairs(*old(m)), tick),
        ),
{
    let ghost base = level_pairs(*old(m));
    let ghost c = count_le(base, tick);
    proof {
        lemma_sorted_partition(base, tick);
        lemma_has_key_counts(base, tick);
        assert(count_lt(base, tick) == c);
        assert(level_pairs(*m) =~= base.take(c) + with_key(tick, kept@.take(0)) + base.skip(c));
    }
    let mut n: usize = 0;
    while n < kept.len()
        invariant
            n <= kept.len(),
            pairs_sorted(base),
            0 <= c <= base.len(),
            count_le(base, tick) == c,
            forall|i: int| 0 <= i < c ==> (#[trigger] base[i]).0 < tick,
            forall|i: int| c <= i < base.len() ==> (#[trigger] base[i]).0 > tick,
            pairs_sorted(level_pairs(*m)),
            level_pairs(*m) == base.take(c) + with_key(tick, kept@.take(n as int)) + base.skip(c),
        decreases kept.len() - n,
    {
        let o = kept[n];
        let ghost cur = level_pairs(*m);
        let ghost front = base.take(c) + with_key(tick, kept@.take(n as int));
        proof {
            assert forall|i: int| 0 <= i < base.take(c).len() implies (#[trigger] base.take(
                c,
            )[i]).0 < tick by {
                assert(base.take(c)[i] == base[i]);
            }
            lemma_count_all_lt(base.take(c), tick);
            lemma_count_all_eq(with_key(tick, kept@.take(n as int)), tick);
            assert forall|i: int| 0 <= i < base.skip(c).len() implies (#[trigger] base.skip(
                c,
            )[i]).0 > tick by {
                assert(base.skip(c)[i] == base[i + c]);
            }
            lemma_count_all_gt(base.skip(c), tick);
            lemma_count_add(front, base.skip(c), tick);
            lemma_count_add(base.take(c), with_key(tick, kept@.take(n as int)), tick);
            assert(count_le(cur, tick) == c + n);
        }
        level_map_insert(m, tick, o);
        proof {
            lemma_insert_index(cur, c + n, (tick, o));
            assert(level_pairs(*m) =~= base.take(c) + with_key(tick, kept@.take(n + 1)) + base.skip(
                c,
            ));
        }
        n += 1;
    }
    proof {
        assert(kept@.take(kept@.len() as int) =~= kept@);
    }
}

/// Ghost model of one book side: the flattened (tick, order) pairs, the
/// id-to-tick index, and which side this is.
#[verifier::ext_equal]
pub struct BookSideView {
    pub pairs: Seq<(i32, OrderData)>,
    pub index: Map<u64, i32>,
    pub is_buy: bool,
}

/// Well-formedness of a side: pairs sorted by tick, every resting quantity
/// positive, the index and the queues agree exactly, and ids are unique.
pub open spec fn side_inv(v: BookSideView) -> bool {
    &&& pairs_sorted(v.pairs)
    &&& forall|i: int| 0 <= i < v.pairs.len() ==> (#[trigger] v.pairs[i]).1.quantity > 0
    &&& forall|i: int|
        0 <= i < v.pairs.len() ==> v.index.contains_key((#[trigger] v.pairs[i]).1.id)
            && v.index[v.pairs[i].1.id] == v.pairs[i].0
    &&& forall|id: u64|
        #[trigger] v.index.contains_key(id) ==> has_id(v.pairs, id)
    &&& forall|i: int, j: int|
        0 <= i < v.pairs.len() && 0 <= j < v.pairs.len() && i != j ==> (
        #[trigger] v.pairs[i]).1.id != (#[trigger] v.pairs[j]).1.id
}

/// The best tick of a non-empty side: numerically highest for bids, lowest
/// for asks.
pub open spec fn best_tick(v: BookSideView) -> i32 {
    if v.is_buy {
        v.pairs.last().0
    } else {
        v.pairs.first().0
    }
}

/// The index of the top-of-book pair of a non-empty side: the front of the
/// best-priced queue.
pub open spec fn best_idx(v: BookSideView) -> int {
    if v.is_buy {
        count_lt(v.pairs, v.pairs.last().0)
    } else {
        0
    }
}

/// The top-of-book order of a non-empty side.
pub open spec fn best_order(v: BookSideView) -> OrderData {
    v.pairs[best_idx(v)].1
}

/// The total resting quantity at one tick, saturated at `u32::MAX`.
pub open spec fn level_qty_capped(pairs: Seq<(i32, OrderData)>, tick: i32) -> int {
    let run = vals(pairs.subrange(count_lt(pairs, tick), count_le(pairs, tick)));
    if order_qty_sum(run) <= u32::MAX as int {
        order_qty_sum(run)
    } else {
        u32::MAX as int
    }
}

/// The number of orders resting at one tick, saturated at `u32::MAX`.
pub open spec fn level_count_capped(pairs: Seq<(i32, OrderData)>, tick: i32) -> int {
    let run = pairs.subrange(count_lt(pairs, tick), count_le(pairs, tick));
    if run.len() <= u32::MAX as int {
        run.len() as int
    } else {
        u32::MAX as int
    }
}

/// After cutting the run at `tick` out of sorted contents, no pair at that
/// tick remains, and the counts at `tick` both equal the cut position.
proof fn lemma_cut_level(s: Seq<(i32, OrderData)>, tick: i32)
    requires
        pairs_sorted(s),
    ensures
        !has_key(s.take(count_lt(s, tick)) + s.skip(count_le(s, tick)), tick),
        count_le(s.take(count_lt(s, tick)) + s.skip(count_le(s, tick)), tick) == count_lt(s, tick),
{
    lemma_sorted_partition(s, tick);
    let c_lt = count_lt(s, tick);
    let c_le = count_le(s, tick);
    let mid = s.take(c_lt) + s.skip(c_le);
    assert forall|i: int| 0 <= i < s.take(c_lt).len() implies (#[trigger] s.take(c_lt)[i]).0
        < tick by {
        assert(s.take(c_lt)[i] == s[i]);
    }
    lemma_count_all_lt(s.take(c_lt), tick);
    assert forall|i: int| 0 <= i < s.skip(c_le).len() implies (#[trigger] s.skip(c_le)[i]).0
        > tick by {
        assert(s.skip(c_le)[i] == s[i + c_le]);
    }
    lemma_count_all_gt(s.skip(c_le), tick);
    lemma_count_add(s.take(c_lt), s.skip(c_le), tick);
    assert forall|i: int| 0 <= i < mid.len() implies (#[trigger] mid[i]).0 != tick by {
        if i < c_lt {
            assert(mid[i] == s[i]);
        } else {
            assert(mid[i] == s[i + (c_le - c_lt)]);
        }
    }
}

/// Rebuilding the run at `tick` with its `wr`-th order dropped yields the
/// whole contents with the corresponding pair removed.
proof fn lemma_rebuild_remove(s: Seq<(i32, OrderData)>, tick: i32, w: int)
    requires
        pairs_sorted(s),
        0 <= w < s.len(),
        s[w].0 == tick,
    ensures
        ({
            let c_lt = count_lt(s, tick);
            let c_le = count_le(s, tick);
            let rvals = vals(s.subrange(c_lt, c_le));
            s.take(c_lt) + with_key(tick, rvals.remove(w - c_lt)) + s.skip(c_le) == s.remove(w)
        }),
{
    lemma_sorted_partition(s, tick);
    let c_lt = count_lt(s, tick);
    let c_le = count_le(s, tick);
    let rrun = s.subrange(c_lt, c_le);
    let rvals = vals(rrun);
    let wr = w - c_lt;
    assert(c_lt <= w < c_le);
    lemma_remove_index(rrun, wr);
    lemma_remove_index(s, w);
    assert forall|i: int| 0 <= i < with_key(tick, rvals.remove(wr)).len() implies #[trigger] with_key(
        tick,
        rvals.remove(wr),
    )[i] == rrun.remove(wr)[i] by {
        assert(rrun.remove(wr)[i].0 == tick) by {
            if i < wr {
                assert(rrun[i] == s[c_lt + i]);
            } else {
                assert(rrun[i + 1] == s[c_lt + i + 1]);
            }
        }
        assert(rvals.remove(wr)[i] == rrun.remove(wr)[i].1);
    }
    assert(with_key(tick, rvals.remove(wr)) =~= rrun.remove(wr));
    assert(s.take(c_lt) + with_key(tick, rvals.remove(wr)) + s.skip(c_le) =~= s.remove(w));
}

/// Removing one pair, and its id from the index, keeps a side well-formed.
pub proof fn lemma_inv_after_remove(v: BookSideView, w: int)
    requires
        side_inv(v),
        0 <= w < v.pairs.len(),
    ensures
        side_inv(
            BookSideView {
                pairs: v.pairs.remove(w),
                index: v.index.remove(v.pairs[w].1.id),
                is_buy: v.is_buy,
            },
        ),
{
    let s = v.pairs;
    let id = s[w].1.id;
    let np = s.remove(w);
    let ni = v.index.remove(id);
    lemma_remove_index(s, w);
    assert forall|i: int, j: int| 0 <= i <= j < np.len() implies (#[trigger] np[i]).0 <= (
    #[trigger] np[j]).0 by {
        if i < w {
            assert(np[i] == s[i]);
        } else {
            assert(np[i] == s[i + 1]);
        }
        if j < w {
            assert(np[j] == s[j]);
        } else {
            assert(np[j] == s[j + 1]);
        }
    }
    assert forall|i: int| 0 <= i < np.len() implies (#[trigger] np[i]).1.quantity > 0
        && ni.contains_key(np[i].1.id) && ni[np[i].1.id] == np[i].0 by {
        if i < w {
            assert(np[i] == s[i]);
            assert(s[i].1.id != s[w].1.id);
        } else {
            assert(np[i] == s[i + 1]);
            assert(s[i + 1].1.id != s[w].1.id);
        }
    }
    assert forall|id2: u64| #[trigger] ni.contains_key(id2) implies has_id(np, id2) by {
        let w2 = choose|i: int| 0 <= i < s.len() && (#[trigger] s[i]).1.id == id2;
        assert(0 <= w2 < s.len() && s[w2].1.id == id2);
        assert(w2 != w);
        if w2 < w {
            assert(np[w2].1.id == id2);
        } else {
            assert(np[w2 - 1].1.id == id2);
        }
    }
    assert forall|i: int, j: int| 0 <= i < np.len() && 0 <= j < np.len() && i != j implies (
    #[trigger] np[i]).1.id != (#[trigger] np[j]).1.id by {
        if i < w {
            assert(np[i] == s[i]);
        } else {
            assert(np[i] == s[i + 1]);
        }
        if j < w {
            assert(np[j] == s[j]);
        } else {
            assert(np[j] == s[j + 1]);
        }
    }
}

/// Rebuilding the run at `tick` with its `wr`-th order replaced yields the
/// whole contents with the corresponding pair updated.
proof fn lemma_rebuild_update(s: Seq<(i32, OrderData)>, tick: i32, w: int, o: OrderData)
    requires
        pairs_sorted(s),
        0 <= w < s.len(),
        s[w].0 == tick,
    ensures
        ({
            let c_lt = count_lt(s, tick);
            let c_le = count_le(s, tick);
            let rvals = vals(s.subrange(c_lt, c_le));
            s.take(c_lt) + with_key(tick, rvals.update(w - c_lt, o)) + s.skip(c_le) == s.update(
                w,
                (tick, o),
            )
        }),
{
    lemma_sorted_partition(s, tick);
    let c_lt = count_lt(s, tick);
    let c_le = count_le(s, tick);
    let rrun = s.subrange(c_lt, c_le);
    let rvals = vals(rrun);
    let wr = w - c_lt;
    assert(c_lt <= w < c_le);
    assert forall|i: int| 0 <= i < with_key(tick, rvals.update(wr, o)).len() implies #[trigger] with_key(
        tick,
        rvals.update(wr, o),
    )[i] == rrun.update(wr, (tick, o))[i] by {
        assert(rrun[i] == s[c_lt + i]);
        assert(rrun[i].0 == tick);
    }
    assert(with_key(tick, rvals.update(wr, o)) =~= rrun.update(wr, (tick, o)));
    assert(s.take(c_lt) + rrun.update(wr, (tick, o)) + s.skip(c_le) =~= s.update(w, (tick, o)));
}

/// Replacing one pair's order, keeping its id and a positive quantity,
/// keeps a side well-formed.
pub proof fn lemma_inv_after_update(v: BookSideView, w: int, o: OrderData)
    requires
        side_inv(v),
        0 <= w < v.pairs.len(),
        o.id == v.pairs[w].1.id,
        o.quantity > 0,
    ensures
        side_inv(
            BookSideView {
                pairs: v.pairs.update(w, (v.pairs[w].0, o)),
                index: v.index,
                is_buy: v.is_buy,
            },
        ),
{
    let s = v.pairs;
    let np = s.update(w, (s[w].0, o));
    assert forall|id2: u64| #[trigger] v.index.contains_key(id2) implies has_id(np, id2) by {
        let w2 = choose|i: int| 0 <= i < s.len() && (#[trigger] s[i]).1.id == id2;
        assert(np[w2].1.id == id2);
    }
}

/// A covering tick list, restricted to the ticks that actually rest
/// orders, still covers.
proof fn lemma_cover_transfer(ks: Seq<i32>, kept: Seq<i32>, s: Seq<(i32, OrderData)>)
    requires
        ticks_cover(ks, s),
        forall|t: int|
            #![trigger ks[t]]
            0 <= t < ks.len() && has_key(s, ks[t]) ==> has_tick(kept, ks[t]),
    ensures
        ticks_cover(kept, s),
{
    assert forall|i: int| 0 <= i < s.len() implies has_tick(kept, (#[trigger] s[i]).0) by {
        lemma_cover_index(ks, s, i);
        let t = choose|j: int| 0 <= j < ks.len() && (#[trigger] ks[j]) == s[i].0;
        assert(has_key(s, ks[t]));
    }
    lemma_cover_build(kept, s);
}

pub struct BookSide {
    is_buy: bool,
    levels: BTreeMultiMap<i32, OrderData>,
    index: HashMap<u64, i32>,
}

impl View for BookSide {
    type V = BookSideView;

    closed spec fn view(&self) -> BookSideView {
        BookSideView { pairs: level_pairs(self.levels), index: self.index@, is_buy: self.is_buy }
    }
}

impl BookSide {
    /// Well-formedness, as a predicate over the side's model.
    pub open spec fn wf(&self) -> bool {
        side_inv(self@)
    }

    /// An empty side.
    pub fn new(is_buy: bool) -> (r: BookSide)
        ensures
            r.wf(),
            r@.pairs == Seq::<(i32, OrderData)>::empty(),
            r@.index == Map::<u64, i32>::empty(),
            r@.is_buy == is_buy,
    {
        let r = BookSide { is_buy, levels: level_map_new(), index: HashMap::new() };
        proof {
            assert(r@.pairs.len() == 0);
        }
        r
    }

    /// File an order at a tick: append it to that tick's queue (creating the
    /// queue if absent) and record its id in the index.
    pub fn insert_order(&mut self, tick: i32, order: OrderData)
        requires
            old(self).wf(),
            order.quantity > 0,
            !old(self)@.index.contains_key(order.id),
        ensures
            final(self).wf(),
            final(self)@.pairs == insert_pairs(old(self)@.pairs, tick, order),
            final(self)@.index == old(self)@.index.insert(order.id, tick),
            final(self)@.is_buy == old(self)@.is_buy,
    {
        proof {
            lemma_count_bounds(level_pairs(self.levels), tick);
        }
        let ghost op = level_pairs(self.levels);
        let ghost oindex = self.index@;
        let ghost c = count_le(op, tick);
        level_map_insert(&mut self.levels, tick, order);
        self.index.insert(order.id, tick);
        proof {
            let np = level_pairs(self.levels);
            lemma_insert_index(op, c, (tick, order));
            // The fresh id differs from every resting id.
            assert(forall|i: int|
                0 <= i < op.len() ==> (#[trigger] op[i]).1.id != order.id);
            assert forall|i: int| 0 <= i < np.len() implies (#[trigger] np[i]).1.quantity > 0
                && self.index@.contains_key(np[i].1.id) && self.index@[np[i].1.id] == np[i].0 by {
                if i < c {
                    assert(np[i] == op[i]);
                } else if i > c {
                    assert(np[i] == op[i - 1]);
                }
            }
            assert forall|id: u64| #[trigger] self.index@.contains_key(id) implies has_id(
                np,
                id,
            ) by {
                if id == order.id {
                    assert(np[c].1.id == id);
                } else {
                    let w = choose|i: int| 0 <= i < op.len() && (#[trigger] op[i]).1.id == id;
                    if w < c {
                        assert(np[w].1.id == id);
                    } else {
                        assert(np[w + 1].1.id == id);
                    }
                }
            }
            assert forall|i: int, j: int|
                0 <= i < np.len() && 0 <= j < np.len() && i != j implies (
            #[trigger] np[i]).1.id != (#[trigger] np[j]).1.id by {
                if i < c {
                    assert(np[i] == op[i]);
                } else if i > c {
                    assert(np[i] == op[i - 1]);
                }
                if j < c {
                    assert(np[j] == op[j]);
                } else if j > c {
                    assert(np[j] == op[j - 1]);
                }
            }
        }
    }
    /// Look up the resting order with the given id, via the index.
    pub fn get_order(&self, id: u64) -> (r: Option<OrderData>)
        requires
            self.wf(),
        ensures
            (r is Some) <==> self@.index.contains_key(id),
            (r is Some) <==> has_id(self@.pairs, id),
            match r {
                Some(o) => o == self@.pairs[idx_of_id(self@.pairs, id)].1 && o.id == id,
                None => true,
            },
    {
        let tick: i32 = match self.index.get(&id) {
            None => {
                return None;
            },
            Some(t) => {
                proof {
                    assert(self.index@.contains_key(id) && self.index@[id] == *t);
                }
                *t
            },
        };
        let ghost s = self@.pairs;
        let ghost w = idx_of_id(s, id);
        proof {
            assert(self@.index.contains_key(id) && self@.index[id] == tick);
            assert(has_id(s, id));
            assert(0 <= w < s.len() && s[w].1.id == id);
            assert(s[w].0 == tick);
            assert(has_key(s, tick));
            lemma_sorted_partition(s, tick);
        }
        let ghost c_lt = count_lt(s, tick);
        let ghost c_le = count_le(s, tick);
        let v = match level_map_get_vec(&self.levels, tick) {
            Some(v) => v,
            None => {
                proof {
                    lemma_has_key_counts(s, tick);
                }
                return None;  // unreachable: the index entry guarantees the level exists
            },
        };
        proof {
            assert(v@ == vals(s.subrange(c_lt, c_le)));
            assert(c_lt <= w < c_le);
            assert(v@[w - c_lt].id == id);
        }
        let mut j: usize = 0;
        loop
            invariant
                self.wf(),
                s == self@.pairs,
                v@ == vals(s.subrange(c_lt, c_le)),
                0 <= c_lt <= c_le <= s.len(),
                0 <= w < s.len() && s[w].1.id == id,
                c_lt <= w < c_le,
                j <= v.len(),
                v@.len() == c_le - c_lt,
                forall|t: int| 0 <= t < j ==> (#[trigger] v@[t]).id != id,
            decreases v@.len() - j,
        {
            proof {
                assert(v@[w - c_lt].id == id);
                assert(j <= w - c_lt);
            }
            if v[j].id == id {
                proof {
                    assert(v@[j as int] == s[c_lt + j].1);
                    assert(s[c_lt + j].1.id == id);
                    assert(c_lt + j == w);
                }
                return Some(v[j]);
            }
            j += 1;
        }
    }

    /// Remove the resting order with the given id from this side's queues
    /// and from the index.  Fails with `NotFound` if the id is not resting
    /// here; the side is then left unchanged.
    #[verifier::rlimit(100)]
    pub fn remove_order(&mut self, id: u64) -> (r: Result<(), EngineError>)
        requires
            old(self).wf(),
        ensures
            final(self).wf(),
            final(self)@.is_buy == old(self)@.is_buy,
            (r is Ok) <==> old(self)@.index.contains_key(id),
            (r is Ok) <==> has_id(old(self)@.pairs, id),
            r is Ok ==> final(self)@.pairs == old(self)@.pairs.remove(
                idx_of_id(old(self)@.pairs, id),
            ) && final(self)@.index == old(self)@.index.remove(id),
            r is Err ==> r == Err::<(), EngineError>(EngineError::NotFound) && final(self)@ == old(
                self,
            )@,
    {
        let tick: i32 = match self.index.get(&id) {
            None => {
                return Err(EngineError::NotFound);
            },
            Some(t) => {
                proof {
                    assert(self.index@.contains_key(id) && self.index@[id] == *t);
                }
                *t
            },
        };
        let ghost s = self@.pairs;
        let ghost oi = self@.index;
        let ghost w = idx_of_id(s, id);
        proof {
            assert(self@.index.contains_key(id) && self@.index[id] == tick);
            assert(has_id(s, id));
            assert(0 <= w < s.len() && s[w].1.id == id);
            assert(s[w].0 == tick);
            assert(has_key(s, tick));
            lemma_sorted_partition(s, tick);
        }
        let ghost c_lt = count_lt(s, tick);
        let ghost c_le = count_le(s, tick);
        let ghost rrun = s.subrange(c_lt, c_le);
        let v = match level_map_remove(&mut self.levels, tick) {
            Some(v) => v,
            None => {
                proof {
                    assert(false);
                }
                return Err(EngineError::NotFound);
            },
        };
        let ghost wr = w - c_lt;
        proof {
            assert(v@ == vals(rrun));
            assert(c_lt <= w < c_le);
            assert(v@[wr].id == id);
            assert forall|t: int| 0 <= t < v@.len() && t != wr implies (#[trigger] v@[t]).id
                != id by {
                assert(v@[t] == s[c_lt + t].1);
                assert(s[c_lt + t].1.id != s[w].1.id);
            }
        }
        let mut kept: Vec<OrderData> = Vec::new();
        let mut j: usize = 0;
        while j < v.len()
            invariant
                j <= v.len(),
                0 <= wr < v@.len(),
                v@[wr].id == id,
                forall|t: int| 0 <= t < v@.len() && t != wr ==> (#[trigger] v@[t]).id != id,
                j as int <= wr ==> kept@ == v@.take(j as int),
                j as int > wr ==> kept@ == v@.take(j as int).remove(wr),
            decreases v.len() - j,
        {
            if v[j].id != id {
                kept.push(v[j]);
            }
            proof {
                let jj = j as int;
                if jj < wr {
                    assert(kept@ =~= v@.take(jj + 1));
                } else if jj == wr {
                    assert(kept@ =~= v@.take(jj + 1).remove(wr));
                } else {
                    assert(kept@ =~= v@.take(jj + 1).remove(wr));
                }
            }
            j += 1;
        }
        proof {
            assert(v@.take(v@.len() as int) =~= v@);
            assert(kept@ == v@.remove(wr));
        }
        let ghost mid = level_pairs(self.levels);
        proof {
            assert(mid == s.take(c_lt) + s.skip(c_le));
            lemma_cut_level(s, tick);
        }
        put_level(&mut self.levels, tick, &kept);
        self.index.remove(&id);
        proof {
            assert(self.index@ == oi.remove(id));
            let np = level_pairs(self.levels);
            assert(np == mid.take(c_lt) + with_key(tick, kept@) + mid.skip(c_lt));
            assert(mid.take(c_lt) =~= s.take(c_lt));
            assert(mid.skip(c_lt) =~= s.skip(c_le));
            lemma_rebuild_remove(s, tick, w);
            assert(np == s.remove(w));
            lemma_inv_after_remove(BookSideView { pairs: s, index: oi, is_buy: self.is_buy }, w);
            assert(self@ == BookSideView { pairs: s.remove(w), index: oi.remove(id), is_buy: self.is_buy });
        }
        Ok(())
    }

    /// Replace the resting order carrying `new_order.id` by `new_order`,
    /// in place: the order keeps its position in its level's queue, and the
    /// index is untouched.
    #[verifier::rlimit(100)]
    fn replace_order(&mut self, new_order: OrderData) -> (r: Result<(), EngineError>)
        requires
            old(self).wf(),
            new_order.quantity > 0,
        ensures
            final(self).wf(),
            final(self)@.is_buy == old(self)@.is_buy,
            final(self)@.index == old(self)@.index,
            (r is Ok) <==> old(self)@.index.contains_key(new_order.id),
            (r is Ok) <==> has_id(old(self)@.pairs, new_order.id),
            r is Ok ==> final(self)@.pairs == old(self)@.pairs.update(
                idx_of_id(old(self)@.pairs, new_order.id),
                (old(self)@.pairs[idx_of_id(old(self)@.pairs, new_order.id)].0, new_order),
            ),
            r is Err ==> r == Err::<(), EngineError>(EngineError::NotFound) && final(self)@ == old(
                self,
            )@,
    {
        let id = new_order.id;
        let tick: i32 = match self.index.get(&id) {
            None => {
                return Err(EngineError::NotFound);
            },
            Some(t) => {
                proof {
                    assert(self.index@.contains_key(id) && self.index@[id] == *t);
                }
                *t
            },
        };
        let ghost s = self@.pairs;
        let ghost oi = self@.index;
        let ghost w = idx_of_id(s, id);
        proof {
            assert(self@.index.contains_key(id) && self@.index[id] == tick);
            assert(has_id(s, id));
            assert(0 <= w < s.len() && s[w].1.id == id);
            assert(s[w].0 == tick);
            assert(has_key(s, tick));
            lemma_sorted_partition(s, tick);
        }
        let ghost c_lt = count_lt(s, tick);
        let ghost c_le = count_le(s, tick);
        let ghost rrun = s.subrange(c_lt, c_le);
        let v = match level_map_remove(&mut self.levels, tick) {
            Some(v) => v,
            None => {
                proof {
                    assert(false);
                }
                return Err(EngineError::NotFound);
            },
        };
        let ghost wr = w - c_lt;
        proof {
            assert(v@ == vals(rrun));
            assert(c_lt <= w < c_le);
            assert(v@[wr].id == id);
            assert forall|t: int| 0 <= t < v@.len() && t != wr implies (#[trigger] v@[t]).id
                != id by {
                assert(v@[t] == s[c_lt + t].1);
                assert(s[c_lt + t].1.id != s[w].1.id);
            }
        }
        let mut kept: Vec<OrderData> = Vec::new();
        let mut j: usize = 0;
        while j < v.len()
            invariant
                j <= v.len(),
                0 <= wr < v@.len(),
                v@[wr].id == id,
                new_order.id == id,
                forall|t: int| 0 <= t < v@.len() && t != wr ==> (#[trigger] v@[t]).id != id,
                j as int <= wr ==> kept@ == v@.take(j as int),
                j as int > wr ==> kept@ == v@.take(j as int).update(wr, new_order),
            decreases v.len() - j,
        {
            if v[j].id == id {
                kept.push(new_order);
            } else {
                kept.push(v[j]);
            }
            proof {
                let jj = j as int;
                if jj < wr {
                    assert(kept@ =~= v@.take(jj + 1));
                } else {
                    assert(kept@ =~= v@.take(jj + 1).update(wr, new_order));
                }
            }
            j += 1;
        }
        proof {
            assert(v@.take(v@.len() as int) =~= v@);
            assert(kept@ == v@.update(wr, new_order));
        }
        let ghost mid = level_pairs(self.levels);
        proof {
            assert(mid == s.take(c_lt) + s.skip(c_le));
            lemma_cut_level(s, tick);
        }
        put_level(&mut self.levels, tick, &kept);
        proof {
            let np = level_pairs(self.levels);
            assert(np == mid.take(c_lt) + with_key(tick, kept@) + mid.skip(c_lt));
            assert(mid.take(c_lt) =~= s.take(c_lt));
            assert(mid.skip(c_lt) =~= s.skip(c_le));
            lemma_rebuild_update(s, tick, w, new_order);
            assert(np == s.update(w, (tick, new_order)));
            lemma_inv_after_update(
                BookSideView { pairs: s, index: oi, is_buy: self.is_buy },
                w,
                new_order,
            );
            assert(self@ == BookSideView {
                pairs: s.update(w, (s[w].0, new_order)),
                index: oi,
                is_buy: self.is_buy,
            });
        }
        Ok(())
    }

    /// Reduce (or generally overwrite) the resting order's quantity in
    /// place, preserving its queue position and its id.
    pub fn reduce_quantity(&mut self, id: u64, new_quantity: u32) -> (r: Result<(), EngineError>)
        requires
            old(self).wf(),
            new_quantity > 0,
        ensures
            final(self).wf(),
            final(self)@.is_buy == old(self)@.is_buy,
            final(self)@.index == old(self)@.index,
            (r is Ok) <==> old(self)@.index.contains_key(id),
            (r is Ok) <==> has_id(old(self)@.pairs, id),
            r is Ok ==> ({
                let w = idx_of_id(old(self)@.pairs, id);
                let o = old(self)@.pairs[w].1;
                final(self)@.pairs == old(self)@.pairs.update(
                    w,
                    (old(self)@.pairs[w].0, OrderData { quantity: new_quantity, ..o }),
                )
            }),
            r is Err ==> r == Err::<(), EngineError>(EngineError::NotFound) && final(self)@ == old(
                self,
            )@,
    {
        let o = match self.get_order(id) {
            None => {
                return Err(EngineError::NotFound);
            },
            Some(o) => o,
        };
        self.replace_order(OrderData { quantity: new_quantity, ..o })
    }

    /// Overwrite the resting order's price tick in place, without relocating
    /// it: the order keeps its queue position and stays filed under the tick
    /// it was inserted at.
    pub fn amend_price_tick(&mut self, id: u64, new_price: i32) -> (r: Result<(), EngineError>)
        requires
            old(self).wf(),
        ensures
            final(self).wf(),
            final(self)@.is_buy == old(self)@.is_buy,
            final(self)@.index == old(self)@.index,
            (r is Ok) <==> old(self)@.index.contains_key(id),
            (r is Ok) <==> has_id(old(self)@.pairs, id),
            r is Ok ==> ({
                let w = idx_of_id(old(self)@.pairs, id);
                let o = old(self)@.pairs[w].1;
                final(self)@.pairs == old(self)@.pairs.update(
                    w,
                    (old(self)@.pairs[w].0, OrderData { price: new_price, ..o }),
                )
            }),
            r is Err ==> r == Err::<(), EngineError>(EngineError::NotFound) && final(self)@ == old(
                self,
            )@,
    {
        let o = match self.get_order(id) {
            None => {
                return Err(EngineError::NotFound);
            },
            Some(o) => o,
        };
        self.replace_order(OrderData { price: new_price, ..o })
    }

    /// The top of the book: the tick of the best-priced non-empty queue and
    /// the earliest-arriving order resting there, or nothing if this side is
    /// empty.
    pub fn best(&self) -> (r: Option<(i32, OrderData)>)
        requires
            self.wf(),
        ensures
            (r is Some) <==> self@.pairs.len() > 0,
            match r {
                Some((t, o)) => self@.pairs.len() > 0 && t == best_tick(self@) && 0 <= best_idx(
                    self@,
                ) < self@.pairs.len() && o == best_order(self@) && self@.pairs[best_idx(self@)].0
                    == t,
                None => self@.pairs.len() == 0,
            },
    {
        let kopt = if self.is_buy {
            level_map_last_key(&self.levels)
        } else {
            level_map_first_key(&self.levels)
        };
        let t: i32 = match kopt {
            None => {
                return None;
            },
            Some(t) => t,
        };
        let ghost s = self@.pairs;
        proof {
            if self.is_buy {
                assert(s[s.len() - 1].0 == t);
            } else {
                assert(s[0].0 == t);
            }
            assert(has_key(s, t));
            lemma_sorted_partition(s, t);
            lemma_has_key_counts(s, t);
        }
        let v = match level_map_get_vec(&self.levels, t) {
            Some(v) => v,
            None => {
                proof {
                    assert(false);
                }
                return None;
            },
        };
        proof {
            assert(v@.len() == count_le(s, t) - count_lt(s, t));
            assert(v@[0] == s[count_lt(s, t)].1);
            if !self.is_buy {
                assert(count_lt(s, t) == 0) by {
                    if 0 < count_lt(s, t) {
                        assert(s[0].0 < t);
                    }
                }
            }
        }
        Some((t, v[0]))
    }

    /// The total resting quantity and order count at one tick, each
    /// saturated at `u32::MAX`.  An absent or empty level reports zeros.
    pub fn level_summary(&self, tick: i32) -> (r: (u32, u32))
        requires
            self.wf(),
        ensures
            r.0 as int == level_qty_capped(self@.pairs, tick),
            r.1 as int == level_count_capped(self@.pairs, tick),
    {
        let ghost s = self@.pairs;
        proof {
            lemma_sorted_partition(s, tick);
            lemma_has_key_counts(s, tick);
        }
        let v = match level_map_get_vec(&self.levels, tick) {
            None => {
                proof {
                    assert(vals(s.subrange(count_lt(s, tick), count_le(s, tick))) =~= Seq::<
                        OrderData,
                    >::empty());
                }
                return (0, 0);
            },
            Some(v) => v,
        };
        let ghost run = vals(s.subrange(count_lt(s, tick), count_le(s, tick)));
        let cap: u64 = 4294967295;
        let mut acc: u64 = 0;
        let mut j: usize = 0;
        while j < v.len()
            invariant
                j <= v.len(),
                v@ == run,
                cap == u32::MAX as u64,
                acc as int == if order_qty_sum(run.take(j as int)) <= cap as int {
                    order_qty_sum(run.take(j as int))
                } else {
                    cap as int
                },
            decreases v.len() - j,
        {
            let q = v[j].quantity as u64;
            proof {
                assert(run.take(j + 1).drop_last() =~= run.take(j as int));
                assert(run.take(j + 1).last() == run[j as int]);
            }
            acc = acc + q;
            if acc > cap {
                acc = cap;
            }
            j += 1;
        }
        proof {
            assert(run.take(run.len() as int) =~= run);
        }
        let qty: u32 = acc as u32;
        let count: u32 = if v.len() >= 4294967295 {
            4294967295
        } else {
            v.len() as u32
        };
        (qty, count)
    }

    /// The ticks of this side's non-empty levels, in ascending order: every
    /// listed tick rests at least one order, and every resting order's tick
    /// is listed.
    pub fn ticks(&self) -> (r: Vec<i32>)
        requires
            self.wf(),
        ensures
            ticks_ascending(r@),
            ticks_resting(r@, self@.pairs),
            ticks_cover(r@, self@.pairs),
    {
        let ghost s = self@.pairs;
        let keys = level_map_keys(&self.levels);
        proof {
            assert(s == level_pairs(self.levels));
            assert(ticks_cover(keys@, s));
        }
        let mut out: Vec<i32> = Vec::new();
        let mut idx: usize = 0;
        while idx < keys.len()
            invariant
                self.wf(),
                s == self@.pairs,
                idx <= keys.len(),
                ticks_ascending(keys@),
                ticks_cover(keys@, s),
                ticks_ascending(out@),
                ticks_resting(out@, s),
                forall|j: int|
                    0 <= j < out@.len() ==> has_tick(keys@.take(idx as int), #[trigger] out@[j]),
                forall|t: int|
                    #![trigger keys@[t]]
                    0 <= t < idx && has_key(s, keys@[t]) ==> has_tick(out@, keys@[t]),
            decreases keys.len() - idx,
        {
            let k = keys[idx];
            proof {
                lemma_sorted_partition(s, k);
                lemma_has_key_counts(s, k);
            }
            let keep: bool = match level_map_get_vec(&self.levels, k) {
                Some(v) => v.len() > 0,
                None => false,
            };
            proof {
                assert(keep == has_key(s, k));
            }
            if keep {
                let ghost pre = out@;
                out.push(k);
                proof {
                    assert(ticks_ascending(out@)) by {
                        assert forall|j1: int, j2: int|
                            #![trigger out@[j1], out@[j2]]
                            0 <= j1 < j2 < out@.len() implies out@[j1] < out@[j2] by {
                            if j2 == out@.len() - 1 {
                                let t = choose|t: int|
                                    0 <= t < keys@.take(idx as int).len() && (#[trigger] keys@.take(
                                        idx as int,
                                    )[t]) == pre[j1];
                                assert(keys@[t] < keys@[idx as int]);
                            }
                        }
                    }
                    assert forall|t: int|
                        #![trigger keys@[t]]
                        0 <= t < idx + 1 && has_key(s, keys@[t]) implies has_tick(
                        out@,
                        keys@[t],
                    ) by {
                        if t == idx as int {
                            assert(out@[out@.len() - 1] == keys@[t]);
                        } else {
                            let j0 = choose|j: int|
                                0 <= j < pre.len() && (#[trigger] pre[j]) == keys@[t];
                            assert(out@[j0] == keys@[t]);
                        }
                    }
                }
            }
            proof {
                assert forall|j: int| 0 <= j < out@.len() implies has_tick(
                    keys@.take(idx as int + 1),
                    #[trigger] out@[j],
                ) by {
                    if keep && j == out@.len() - 1 {
                        assert(keys@.take(idx as int + 1)[idx as int] == out@[j]);
                    } else {
                        let t = choose|t: int|
                            0 <= t < keys@.take(idx as int).len() && (#[trigger] keys@.take(
                                idx as int,
                            )[t]) == out@[j];
                        assert(keys@.take(idx as int + 1)[t] == out@[j]);
                    }
                }
            }
            idx += 1;
        }
        proof {
            assert(keys@.take(keys@.len() as int) =~= keys@);
            lemma_cover_transfer(keys@, out@, s);
        }
        out
    }

    /// Full per-level depth of this side: the non-empty ticks in ascending
    /// order, with each level's total quantity and order count (both
    /// saturated at `u32::MAX`).
    pub fn depth(&self) -> (r: (Vec<i32>, Vec<u32>, Vec<u32>))
        requires
            self.wf(),
        ensures
            r.1@.len() == r.0@.len(),
            r.2@.len() == r.0@.len(),
            ticks_ascending(r.0@),
            ticks_resting(r.0@, self@.pairs),
            ticks_cover(r.0@, self@.pairs),
            forall|j: int|
                0 <= j < r.0@.len() ==> (#[trigger] r.1@[j]) as int == level_qty_capped(
                    self@.pairs,
                    r.0@[j],
                ),
            forall|j: int|
                0 <= j < r.0@.len() ==> (#[trigger] r.2@[j]) as int == level_count_capped(
                    self@.pairs,
                    r.0@[j],
                ),
    {
        let ts = self.ticks();
        let mut qs: Vec<u32> = Vec::new();
        let mut ns: Vec<u32> = Vec::new();
        let mut j: usize = 0;
        while j < ts.len()
            invariant
                self.wf(),
                j <= ts.len(),
                qs@.len() == j,
                ns@.len() == j,
                forall|jj: int|
                    0 <= jj < j ==> (#[trigger] qs@[jj]) as int == level_qty_capped(
                        self@.pairs,
                        ts@[jj],
                    ),
                forall|jj: int|
                    0 <= jj < j ==> (#[trigger] ns@[jj]) as int == level_count_capped(
                        self@.pairs,
                        ts@[jj],
                    ),
            decreases ts.len() - j,
        {
            let (q, n) = self.level_summary(ts[j]);
            qs.push(q);
            ns.push(n);
            j += 1;
        }
        (ts, qs, ns)
    }
}

} // verus!