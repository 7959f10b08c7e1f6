//! The matching engine: owns both book sides, the id generator and the
//! market state; exposes the order-lifecycle operations and the continuous
//! matching algorithm.

use vstd::prelude::*;
use crate::book_model::{
    has_id, idx_of_id, insert_pairs, lemma_count_bounds, lemma_insert_index, ticks_ascending,
    ticks_cover, ticks_resting,
};
use crate::book_side::{
    best_idx, best_order, best_tick, level_count_capped, level_qty_capped, side_inv, BookSide,
    BookSideView,
};
use crate::market_data::{L1QuoteShapShot, L2QuoteSnapShot};
use crate::order_actions::OrderEvent;
use crate::order_data::{EngineError, OrderData, OrderType, Trade, TradeType};
use crate::price::{spec_tick_of, to_int_price, MAX_PRICE, MIN_PRICE};

verus! {

/// Which side of the book an order rests on.
#[derive(Clone, Copy, Debug, PartialEq, Eq, Structural)]
pub enum OrderSide {
    Buy,
    Sell,
}

/// The market-state gate: matching runs only while the market is `Open`.
/// In every other state, order entry mutates the book but produces no
/// trades.
#[derive(Clone, Copy, Debug, PartialEq, Eq, Structural)]
pub enum MarketState {
    PreOpen,
    Matching,
    Open,
    PreClose,
    Closed,
}

/// Ghost model of the whole engine.
#[verifier::ext_equal]
pub struct EngineView {
    pub bids: BookSideView,
    pub asks: BookSideView,
    pub market_state: MarketState,
    pub next_id: u64,
    pub faulted: bool,
    pub events: Seq<OrderEvent>,
    pub security_id: u32,
}

/// Engine well-formedness: both sides well-formed, with the right
/// orientation, and every resting id below the id generator's next value.
pub open spec fn engine_inv(v: EngineView) -> bool {
    &&& side_inv(v.bids)
    &&& side_inv(v.asks)
    &&& v.bids.is_buy
    &&& !v.asks.is_buy
    &&& forall|i: int|
        0 <= i < v.bids.pairs.len() ==> (#[trigger] v.bids.pairs[i]).1.id < v.next_id
    &&& forall|i: int|
        0 <= i < v.asks.pairs.len() ==> (#[trigger] v.asks.pairs[i]).1.id < v.next_id
}

/// The tick at which an order is willing to cross: its own price tick for a
/// limit order, and the extreme tick for a Market order, whose price is
/// unconstrained-to-cross and so meets any opposing liquidity.
pub open spec fn crossing_tick(o: OrderData, is_buy: bool) -> i32 {
    if o.order_type is Market {
        if is_buy {
            i32::MAX
        } else {
            i32::MIN
        }
    } else {
        o.price
    }
}

/// The book is overlapping: both sides rest liquidity and the best bid tick
/// is at least the best ask tick.
pub open spec fn books_overlap(bids: BookSideView, asks: BookSideView) -> bool {
    bids.pairs.len() > 0 && asks.pairs.len() > 0 && bids.pairs.last().0 >= asks.pairs.first().0
}

/// The internal-invariant fault: the two top-of-book orders' own prices do
/// not cross although the book keys said they do.  This indicates a corrupt
/// book (e.g. a price amended without re-filing), never a client error.
pub open spec fn step_fault(bids: BookSideView, asks: BookSideView) -> bool {
    !(crossing_tick(best_order(bids), true) >= crossing_tick(best_order(asks), false))
}

/// The trade one matching step produces: the minimum of the two top
/// quantities, printed at the passive side's price — the resting ask's price
/// for a bid-initiated match, the resting bid's price otherwise.
pub open spec fn step_trade(bids: BookSideView, asks: BookSideView, tt: TradeType) -> Trade {
    let b = best_order(bids);
    let a = best_order(asks);
    let size: u32 = if b.quantity <= a.quantity {
        b.quantity
    } else {
        a.quantity
    };
    Trade {
        price: if tt is BidInitiated {
            a.price
        } else {
            b.price
        },
        qty: size,
        buy_owner: b.owner,
        sell_owner: a.owner,
        trade_type: tt,
    }
}

/// One side after its top order trades `size`: removed outright when fully
/// filled (with its index entry), otherwise reduced in place, keeping its
/// queue position.
pub open spec fn side_after_fill(v: BookSideView, size: u32) -> BookSideView {
    let i = best_idx(v);
    let o = v.pairs[i].1;
    if o.quantity == size {
        BookSideView { pairs: v.pairs.remove(i), index: v.index.remove(o.id), is_buy: v.is_buy }
    } else {
        BookSideView {
            pairs: v.pairs.update(
                i,
                (v.pairs[i].0, OrderData { quantity: (o.quantity - size) as u32, ..o }),
            ),
            index: v.index,
            is_buy: v.is_buy,
        }
    }
}

/// The fill event a trade yields for one resting order: a full fill when the
/// trade consumes it, else a partial fill with the remaining quantity.
pub open spec fn fill_event(o: OrderData, size: u32, price: i32) -> OrderEvent {
    if o.quantity == size {
        OrderEvent::FullFill { id: o.id, qty: size, price }
    } else {
        OrderEvent::PartialFill { id: o.id, qty: size, price, remaining: (o.quantity - size) as u32 }
    }
}

/// The two fill events of one matching step: buy side first, then sell side.
pub open spec fn step_events(bids: BookSideView, asks: BookSideView, tt: TradeType) -> Seq<
    OrderEvent,
> {
    let t = step_trade(bids, asks, tt);
    seq![
        fill_event(best_order(bids), t.qty, t.price),
        fill_event(best_order(asks), t.qty, t.price),
    ]
}

/// Everything one run of the matching loop produces: the trades in order,
/// both sides as left behind, the fill events, and whether the loop stopped
/// on the internal-invariant fault.
#[verifier::ext_equal]
pub struct MatchOut {
    pub trades: Seq<Trade>,
    pub bids: BookSideView,
    pub asks: BookSideView,
    pub events: Seq<OrderEvent>,
    pub faulted: bool,
}

/// The matching loop: while the book overlaps, trade the two top-of-book
/// orders and remove or reduce them; stop at the first invariant fault.
/// Each step removes at least one resting order, so the loop terminates.
pub open spec fn match_loop(bids: BookSideView, asks: BookSideView, tt: TradeType) -> MatchOut
    decreases bids.pairs.len() + asks.pairs.len(),
        when side_inv(bids) && side_inv(asks)
        via match_loop_decreases
{
    if !books_overlap(bids, asks) {
        MatchOut {
            trades: Seq::<Trade>::empty(),
            bids,
            asks,
            events: Seq::<OrderEvent>::empty(),
            faulted: false,
        }
    } else if step_fault(bids, asks) {
        MatchOut {
            trades: Seq::<Trade>::empty(),
            bids,
            asks,
            events: Seq::<OrderEvent>::empty(),
            faulted: true,
        }
    } else {
        let t = step_trade(bids, asks, tt);
        let nb = side_after_fill(bids, t.qty);
        let na = side_after_fill(asks, t.qty);
        let rest = match_loop(nb, na, tt);
        MatchOut {
            trades: seq![t] + rest.trades,
            bids: rest.bids,
            asks: rest.asks,
            events: step_events(bids, asks, tt) + rest.events,
            faulted: rest.faulted,
        }
    }
}

#[via_fn]
proof fn match_loop_decreases(bids: BookSideView, asks: BookSideView, tt: TradeType) {
    if books_overlap(bids, asks) && !step_fault(bids, asks) {
        lemma_step_sides_wf(bids, asks, tt);
    }
}

/// One matching step keeps both sides well-formed, shrinks at least one of
/// them, and never grows either.
pub proof fn lemma_step_sides_wf(bids: BookSideView, asks: BookSideView, tt: TradeType)
    requires
        side_inv(bids),
        side_inv(asks),
        books_overlap(bids, asks),
    ensures
        0 <= best_idx(bids) < bids.pairs.len(),
        0 <= best_idx(asks) < asks.pairs.len(),
        side_inv(side_after_fill(bids, step_trade(bids, asks, tt).qty)),
        side_inv(side_after_fill(asks, step_trade(bids, asks, tt).qty)),
        side_after_fill(bids, step_trade(bids, asks, tt).qty).is_buy == bids.is_buy,
        side_after_fill(asks, step_trade(bids, asks, tt).qty).is_buy == asks.is_buy,
        side_after_fill(bids, step_trade(bids, asks, tt).qty).pairs.len() + side_after_fill(
            asks,
            step_trade(bids, asks, tt).qty,
        ).pairs.len() < bids.pairs.len() + asks.pairs.len(),
{
    lemma_best_idx_bounds(bids);
    lemma_best_idx_bounds(asks);
    let size = step_trade(bids, asks, tt).qty;
    lemma_side_after_fill_wf(bids, size);
    lemma_side_after_fill_wf(asks, size);
    assert(best_order(bids).quantity == size || best_order(asks).quantity == size);
}

/// The top-of-book index of a non-empty well-formed side is in range and
/// carries the best tick.
pub proof fn lemma_best_idx_bounds(v: BookSideView)
    requires
        side_inv(v),
        v.pairs.len() > 0,
    ensures
        0 <= best_idx(v) < v.pairs.len(),
        v.pairs[best_idx(v)].0 == best_tick(v),
{
    if v.is_buy {
        let k = v.pairs.last().0;
        crate::book_model::lemma_sorted_partition(v.pairs, k);
        assert(v.pairs[v.pairs.len() - 1].0 == k);
    }
}

/// A fill keeps every resting id below a bound it was below before.
proof fn lemma_fill_ids(v: BookSideView, size: u32, bound: u64)
    requires
        side_inv(v),
        v.pairs.len() > 0,
        0 < size <= v.pairs[best_idx(v)].1.quantity,
        forall|i: int| 0 <= i < v.pairs.len() ==> (#[trigger] v.pairs[i]).1.id < bound,
    ensures
        forall|i: int|
            0 <= i < side_after_fill(v, size).pairs.len() ==> (#[trigger] side_after_fill(
                v,
                size,
            ).pairs[i]).1.id < bound,
{
    lemma_best_idx_bounds(v);
    let w = best_idx(v);
    let np = side_after_fill(v, size).pairs;
    crate::book_model::lemma_remove_index(v.pairs, w);
    assert forall|i: int| 0 <= i < np.len() implies (#[trigger] np[i]).1.id < bound by {
        if v.pairs[w].1.quantity == size {
            if i < w {
                assert(np[i] == v.pairs[i]);
            } else {
                assert(np[i] == v.pairs[i + 1]);
            }
        } else {
            assert(np[i].1.id == v.pairs[i].1.id);
        }
    }
}

/// After its top order trades `size` (at most its quantity, positive), a
/// well-formed side stays well-formed.
pub proof fn lemma_side_after_fill_wf(v: BookSideView, size: u32)
    requires
        side_inv(v),
        v.pairs.len() > 0,
        0 < size <= v.pairs[best_idx(v)].1.quantity,
    ensures
        side_inv(side_after_fill(v, size)),
        side_after_fill(v, size).is_buy == v.is_buy,
{
    lemma_best_idx_bounds(v);
    let i = best_idx(v);
    let o = v.pairs[i].1;
    if o.quantity == size {
        crate::book_side::lemma_inv_after_remove(v, i);
    } else {
        crate::book_side::lemma_inv_after_update(
            v,
            i,
            OrderData { quantity: (o.quantity - size) as u32, ..o },
        );
    }
}


/// Removing one pair keeps every resting id below a bound it was below.
proof fn lemma_remove_ids(s: Seq<(i32, OrderData)>, w: int, bound: u64)
    requires
        0 <= w < s.len(),
        forall|i: int| 0 <= i < s.len() ==> (#[trigger] s[i]).1.id < bound,
    ensures
        forall|i: int| 0 <= i < s.remove(w).len() ==> (#[trigger] s.remove(w)[i]).1.id < bound,
{
    crate::book_model::lemma_remove_index(s, w);
    assert forall|i: int| 0 <= i < s.remove(w).len() implies (#[trigger] s.remove(w)[i]).1.id
        < bound by {
        if i < w {
            assert(s.remove(w)[i] == s[i]);
        } else {
            assert(s.remove(w)[i] == s[i + 1]);
        }
    }
}

/// Filing one more order keeps every resting id below a bound both respect.
proof fn lemma_insert_ids(s: Seq<(i32, OrderData)>, ft: i32, o: OrderData, bound: u64)
    requires
        forall|i: int| 0 <= i < s.len() ==> (#[trigger] s[i]).1.id < bound,
        o.id < bound,
    ensures
        forall|i: int|
            0 <= i < insert_pairs(s, ft, o).len() ==> (#[trigger] insert_pairs(s, ft, o)[i]).1.id
                < bound,
{
    lemma_count_bounds(s, ft);
    let c = crate::book_model::count_le(s, ft);
    lemma_insert_index(s, c, (ft, o));
    assert forall|i: int|
        0 <= i < insert_pairs(s, ft, o).len() implies (#[trigger] insert_pairs(s, ft, o)[i]).1.id
        < bound by {
        if i < c {
            assert(insert_pairs(s, ft, o)[i] == s[i]);
        } else if i > c {
            assert(insert_pairs(s, ft, o)[i] == s[i - 1]);
        }
    }
}

pub struct LitEngine {
    security_id: u32,
    bids: BookSide,
    asks: BookSide,
    market_state: MarketState,
    order_id: u64,
    faulted: bool,
    events: Vec<OrderEvent>,
}

impl View for LitEngine {
    type V = EngineView;

    closed spec fn view(&self) -> EngineView {
        EngineView {
            bids: self.bids@,
            asks: self.asks@,
            market_state: self.market_state,
            next_id: self.order_id,
            faulted: self.faulted,
            events: self.events@,
            security_id: self.security_id,
        }
    }
}

impl LitEngine {
    /// Engine well-formedness.
    pub open spec fn wf(&self) -> bool {
        engine_inv(self@)
    }

    /// A fresh engine for one instrument: empty book, market open, id
    /// generator at zero, no fault, no events.
    pub fn new(security_id: u32) -> (r: LitEngine)
        ensures
            r.wf(),
            r@.bids.pairs.len() == 0,
            r@.asks.pairs.len() == 0,
            r@.bids.index == Map::<u64, i32>::empty(),
            r@.asks.index == Map::<u64, i32>::empty(),
            r@.market_state is Open,
            r@.next_id == 0,
            !r@.faulted,
            r@.events.len() == 0,
            r@.security_id == security_id,
    {
        LitEngine {
            security_id,
            bids: BookSide::new(true),
            asks: BookSide::new(false),
            market_state: MarketState::Open,
            order_id: 0,
            faulted: false,
            events: Vec::new(),
        }
    }

    /// The id the next created order will receive.
    pub fn next_order_id(&self) -> (r: u64)
        ensures
            r == self@.next_id,
    {
        self.order_id
    }

    /// Whether matching has been halted by an internal-invariant fault.
    pub fn is_faulted(&self) -> (r: bool)
        ensures
            r == self@.faulted,
    {
        self.faulted
    }

    /// Hand out the events recorded so far, oldest first, and clear the log.
    pub fn take_events(&mut self) -> (r: Vec<OrderEvent>)
        ensures
            r@ == old(self)@.events,
            final(self)@ == (EngineView { events: Seq::<OrderEvent>::empty(), ..old(self)@ }),
    {
        let mut out: Vec<OrderEvent> = Vec::new();
        std::mem::swap(&mut out, &mut self.events);
        out
    }

    /// The next order id, consuming it.
    fn get_and_increment_id(&mut self) -> (id: u64)
        requires
            old(self)@.next_id < u64::MAX,
        ensures
            id == old(self)@.next_id,
            final(self)@ == (EngineView { next_id: (old(self)@.next_id + 1) as u64, ..old(self)@ }),
    {
        let cur_id = self.order_id;
        self.order_id = self.order_id + 1;
        cur_id
    }

    /// Whether the book currently overlaps: best bid tick at least best ask
    /// tick, both sides non-empty.
    fn is_overlapping(&self) -> (r: bool)
        requires
            self.wf(),
        ensures
            r == books_overlap(self@.bids, self@.asks),
    {
        let b = self.bids.best();
        let a = self.asks.best();
        match (b, a) {
            (Some((bt, _)), Some((at, _))) => bt >= at,
            _ => false,
        }
    }

    /// One matching step on an overlapping book: read both tops, check the
    /// price invariant, emit the trade and its two fill events, and remove
    /// or reduce the matched orders.  Returns `None` exactly when the
    /// invariant fault was detected; the fault then latches and the book is
    /// left untouched.
    #[verifier::rlimit(100)]
    fn get_trade(&mut self, trade_type: TradeType) -> (r: Option<Trade>)
        requires
            old(self).wf(),
            books_overlap(old(self)@.bids, old(self)@.asks),
            !old(self)@.faulted,
        ensures
            final(self).wf(),
            match r {
                Some(t) => !step_fault(old(self)@.bids, old(self)@.asks) && t == step_trade(
                    old(self)@.bids,
                    old(self)@.asks,
                    trade_type,
                ) && final(self)@ == (EngineView {
                    bids: side_after_fill(old(self)@.bids, t.qty),
                    asks: side_after_fill(old(self)@.asks, t.qty),
                    events: old(self)@.events + step_events(
                        old(self)@.bids,
                        old(self)@.asks,
                        trade_type,
                    ),
                    ..old(self)@
                }),
                None => step_fault(old(self)@.bids, old(self)@.asks) && final(self)@ == (
                EngineView { faulted: true, ..old(self)@ }),
            },
    {
        let ghost ov = self@;
        proof {
            lemma_best_idx_bounds(ov.bids);
            lemma_best_idx_bounds(ov.asks);
        }
        let (bt, buy): (i32, OrderData) = match self.bids.best() {
            Some(p) => p,
            None => {
                proof {
                    assert(false);
                }
                return None;
            },
        };
        let (at, sell): (i32, OrderData) = match self.asks.best() {
            Some(p) => p,
            None => {
                proof {
                    assert(false);
                }
                return None;
            },
        };
        let bx: i32 = if buy.is_market() {
            i32::MAX
        } else {
            buy.price
        };
        let sx: i32 = if sell.is_market() {
            i32::MIN
        } else {
            sell.price
        };
        proof {
            assert(bx == crossing_tick(buy, true));
            assert(sx == crossing_tick(sell, false));
        }
        if !(bx >= sx) {
            self.faulted = true;
            proof {
                assert(self@ =~= (EngineView { faulted: true, ..ov }));
            }
            return None;
        }
        let size: u32 = if buy.quantity <= sell.quantity {
            buy.quantity
        } else {
            sell.quantity
        };
        let price: i32 = match trade_type {
            TradeType::BidInitiated => sell.price,
            _ => buy.price,
        };
        let trade = Trade { price, qty: size, buy_owner: buy.owner, sell_owner: sell.owner, trade_type };
        let ghost st = step_trade(ov.bids, ov.asks, trade_type);
        proof {
            assert(st == trade);
        }
        let bev: OrderEvent = if buy.quantity == size {
            OrderEvent::FullFill { id: buy.id, qty: size, price }
        } else {
            OrderEvent::PartialFill { id: buy.id, qty: size, price, remaining: buy.quantity - size }
        };
        let sev: OrderEvent = if sell.quantity == size {
            OrderEvent::FullFill { id: sell.id, qty: size, price }
        } else {
            OrderEvent::PartialFill { id: sell.id, qty: size, price, remaining: sell.quantity - size }
        };
        self.events.push(bev);
        self.events.push(sev);
        proof {
            assert(self.events@ =~= ov.events + step_events(ov.bids, ov.asks, trade_type));
        }
        // Adjust the bid side: full fills are removed, the rest reduced in
        // place so time priority is kept.
        if buy.quantity == size {
            let rr = self.bids.remove_order(buy.id);
            proof {
                assert(rr is Ok);
                assert(idx_of_id(ov.bids.pairs, buy.id) == best_idx(ov.bids));
            }
        } else {
            let rr = self.bids.reduce_quantity(buy.id, buy.quantity - size);
            proof {
                assert(rr is Ok);
                assert(idx_of_id(ov.bids.pairs, buy.id) == best_idx(ov.bids));
            }
        }
        proof {
            assert(self.bids@ =~= side_after_fill(ov.bids, size));
        }
        if sell.quantity == size {
            let rr = self.asks.remove_order(sell.id);
            proof {
                assert(rr is Ok);
                assert(idx_of_id(ov.asks.pairs, sell.id) == best_idx(ov.asks));
            }
        } else {
            let rr = self.asks.reduce_quantity(sell.id, sell.quantity - size);
            proof {
                assert(rr is Ok);
                assert(idx_of_id(ov.asks.pairs, sell.id) == best_idx(ov.asks));
            }
        }
        proof {
            assert(self.asks@ =~= side_after_fill(ov.asks, size));
            lemma_step_sides_wf(ov.bids, ov.asks, trade_type);
            lemma_fill_ids(ov.bids, size, ov.next_id);
            lemma_fill_ids(ov.asks, size, ov.next_id);
            assert(self@ =~= (EngineView {
                bids: side_after_fill(ov.bids, size),
                asks: side_after_fill(ov.asks, size),
                events: ov.events + step_events(ov.bids, ov.asks, trade_type),
                ..ov
            }));
        }
        Some(trade)
    }

    /// Run the matching loop if the market-state gate permits: only while
    /// `Open`, and only while no fault has latched.  Returns `None` when
    /// matching did not run or the book did not overlap on entry, and
    /// otherwise the trades produced, in order.  A detected invariant fault
    /// latches, halts matching, and leaves the trades made before it.
    pub fn check(&mut self, trade_type: TradeType) -> (r: Option<Vec<Trade>>)
        requires
            old(self).wf(),
        ensures
            final(self).wf(),
            ({
                let ran = (old(self)@.market_state is Open) && !old(self)@.faulted;
                let m = match_loop(old(self)@.bids, old(self)@.asks, trade_type);
                if ran {
                    &&& final(self)@ == (EngineView {
                        bids: m.bids,
                        asks: m.asks,
                        faulted: m.faulted,
                        events: old(self)@.events + m.events,
                        ..old(self)@
                    })
                    &&& match r {
                        Some(ts) => books_overlap(old(self)@.bids, old(self)@.asks) && ts@
                            == m.trades,
                        None => !books_overlap(old(self)@.bids, old(self)@.asks),
                    }
                } else {
                    &&& final(self)@ == old(self)@
                    &&& r is None
                }
            }),
    {
        let ghost ov = self@;
        match self.market_state {
            MarketState::Closed => None,
            MarketState::PreClose => None,
            MarketState::PreOpen => None,
            MarketState::Matching => None,
            MarketState::Open => {
                if self.faulted {
                    return None;
                }
                if !self.is_overlapping() {
                    proof {
                        let m = match_loop(ov.bids, ov.asks, trade_type);
                        assert(ov.events + m.events =~= ov.events);
                        assert(self@ =~= (EngineView {
                            bids: m.bids,
                            asks: m.asks,
                            faulted: m.faulted,
                            events: ov.events + m.events,
                            ..ov
                        }));
                    }
                    return None;
                }
                let mut trades: Vec<Trade> = Vec::new();
                let ghost m0 = match_loop(ov.bids, ov.asks, trade_type);
                proof {
                    assert(m0.trades =~= trades@ + match_loop(self@.bids, self@.asks, trade_type).trades);
                    assert(ov.events + m0.events =~= self@.events + match_loop(
                        self@.bids,
                        self@.asks,
                        trade_type,
                    ).events);
                }
                loop
                    invariant_except_break
                        self.wf(),
                        !self@.faulted,
                        self@.market_state == ov.market_state,
                        self@.next_id == ov.next_id,
                        self@.security_id == ov.security_id,
                        m0 == match_loop(ov.bids, ov.asks, trade_type),
                        m0.trades == trades@ + match_loop(self@.bids, self@.asks, trade_type).trades,
                        m0.bids == match_loop(self@.bids, self@.asks, trade_type).bids,
                        m0.asks == match_loop(self@.bids, self@.asks, trade_type).asks,
                        m0.faulted == match_loop(self@.bids, self@.asks, trade_type).faulted,
                        ov.events + m0.events == self@.events + match_loop(
                            self@.bids,
                            self@.asks,
                            trade_type,
                        ).events,
                    ensures
                        self.wf(),
                        self@.market_state == ov.market_state,
                        self@.next_id == ov.next_id,
                        self@.security_id == ov.security_id,
                        m0 == match_loop(ov.bids, ov.asks, trade_type),
                        m0.trades == trades@,
                        self@.bids == m0.bids,
                        self@.asks == m0.asks,
                        self@.faulted == m0.faulted,
                        self@.events == ov.events + m0.events,
                    decreases self@.bids.pairs.len() + self@.asks.pairs.len(),
                {
                    if !self.is_overlapping() {
                        proof {
                            let mc = match_loop(self@.bids, self@.asks, trade_type);
                            assert(mc.trades =~= Seq::<Trade>::empty());
                            assert(mc.events =~= Seq::<OrderEvent>::empty());
                            assert(m0.trades =~= trades@);
                            assert(self@.events =~= ov.events + m0.events);
                        }
                        break;
                    }
                    let ghost cur = self@;
                    let topt = self.get_trade(trade_type);
                    match topt {
                        Some(t) => {
                            trades.push(t);
                            proof {
                                lemma_step_sides_wf(cur.bids, cur.asks, trade_type);
                                let mc = match_loop(cur.bids, cur.asks, trade_type);
                                let rest = match_loop(self@.bids, self@.asks, trade_type);
                                assert(self@.bids == side_after_fill(cur.bids, t.qty));
                                assert(self@.asks == side_after_fill(cur.asks, t.qty));
                                assert(mc.trades == seq![t] + rest.trades);
                                assert(mc.events == step_events(cur.bids, cur.asks, trade_type)
                                    + rest.events);
                                assert(m0.trades =~= trades@ + rest.trades);
                                assert(ov.events + m0.events =~= self@.events + rest.events);
                            }
                        },
                        None => {
                            proof {
                                let mc = match_loop(cur.bids, cur.asks, trade_type);
                                assert(mc.faulted);
                                assert(mc.trades =~= Seq::<Trade>::empty());
                                assert(mc.events =~= Seq::<OrderEvent>::empty());
                                assert(m0.trades =~= trades@);
                                assert(self@.events =~= ov.events + m0.events);
                            }
                            break;
                        },
                    }
                }
                proof {
                    assert(self@ =~= (EngineView {
                        bids: m0.bids,
                        asks: m0.asks,
                        faulted: m0.faulted,
                        events: ov.events + m0.events,
                        ..ov
                    }));
                }
                Some(trades)
            },
        }
    }

    /// Create an order: validate it, assign the next id, normalize the
    /// price, file the order on its side, and — only while the market is
    /// open and unfaulted — run the matching loop tagged with the incoming
    /// side's trade direction.  Dark orders, zero quantities and
    /// non-positive prices on non-Market orders are rejected without
    /// touching the book.
    pub fn create_order(
        &mut self,
        price: i64,
        quantity: u32,
        side: OrderSide,
        owner: i32,
        order_type: OrderType,
    ) -> (r: Result<(u64, Option<Vec<Trade>>), EngineError>)
        requires
            old(self).wf(),
            MIN_PRICE <= price <= MAX_PRICE,
            old(self)@.next_id < u64::MAX,
        ensures
            final(self).wf(),
            order_type is Dark ==> r == Err::<(u64, Option<Vec<Trade>>), EngineError>(
                EngineError::DarkOrder,
            ),
            !(order_type is Dark) && quantity == 0 ==> r == Err::<
                (u64, Option<Vec<Trade>>),
                EngineError,
            >(EngineError::InvalidQuantity),
            !(order_type is Dark) && quantity > 0 && !(order_type is Market) && price <= 0 ==> r
                == Err::<(u64, Option<Vec<Trade>>), EngineError>(EngineError::InvalidPrice),
            (r is Ok) <==> (!(order_type is Dark) && quantity > 0 && ((order_type is Market)
                || price > 0)),
            r matches Err(e) ==> final(self)@ == (EngineView {
                events: old(self)@.events.push(OrderEvent::NewReject { reason: e }),
                ..old(self)@
            }),
            r matches Ok((rid, topt)) ==> ({
                let o = OrderData {
                    price: spec_tick_of(price as int) as i32,
                    quantity,
                    owner,
                    order_type,
                    id: old(self)@.next_id,
                };
                let ft = crossing_tick(o, side is Buy);
                let bids1 = if side is Buy {
                    BookSideView {
                        pairs: insert_pairs(old(self)@.bids.pairs, ft, o),
                        index: old(self)@.bids.index.insert(o.id, ft),
                        is_buy: true,
                    }
                } else {
                    old(self)@.bids
                };
                let asks1 = if side is Buy {
                    old(self)@.asks
                } else {
                    BookSideView {
                        pairs: insert_pairs(old(self)@.asks.pairs, ft, o),
                        index: old(self)@.asks.index.insert(o.id, ft),
                        is_buy: false,
                    }
                };
                let tt = if side is Buy {
                    TradeType::BidInitiated
                } else {
                    TradeType::AskInitiated
                };
                let ran = (old(self)@.market_state is Open) && !old(self)@.faulted;
                let m = match_loop(bids1, asks1, tt);
                &&& rid == old(self)@.next_id
                &&& final(self)@ == (EngineView {
                    bids: if ran {
                        m.bids
                    } else {
                        bids1
                    },
                    asks: if ran {
                        m.asks
                    } else {
                        asks1
                    },
                    faulted: if ran {
                        m.faulted
                    } else {
                        old(self)@.faulted
                    },
                    next_id: (old(self)@.next_id + 1) as u64,
                    events: old(self)@.events.push(OrderEvent::NewAck { id: rid }) + (if ran {
                        m.events
                    } else {
                        Seq::<OrderEvent>::empty()
                    }),
                    ..old(self)@
                })
                &&& match topt {
                    Some(ts) => ran && books_overlap(bids1, asks1) && ts@ == m.trades,
                    None => !(ran && books_overlap(bids1, asks1)),
                }
            }),
    {
        let ghost ov = self@;
        if order_type.is_dark() {
            self.events.push(OrderEvent::NewReject { reason: EngineError::DarkOrder });
            return Err(EngineError::DarkOrder);
        }
        if quantity == 0 {
            self.events.push(OrderEvent::NewReject { reason: EngineError::InvalidQuantity });
            return Err(EngineError::InvalidQuantity);
        }
        if !order_type.is_market() && price <= 0 {
            self.events.push(OrderEvent::NewReject { reason: EngineError::InvalidPrice });
            return Err(EngineError::InvalidPrice);
        }
        let new_order_id = self.get_and_increment_id();
        let o = match OrderData::new(price, quantity, owner, order_type, new_order_id) {
            Ok(o) => o,
            Err(e) => {
                proof {
                    assert(false);
                }
                return Err(e);
            },
        };
        let is_buy = matches!(side, OrderSide::Buy);
        let ft: i32 = if o.is_market() {
            if is_buy {
                i32::MAX
            } else {
                i32::MIN
            }
        } else {
            o.price
        };
        proof {
            assert(ft == crossing_tick(o, side is Buy));
        }
        if is_buy {
            proof {
                if self.bids@.index.contains_key(o.id) {
                    let w = choose|i: int|
                        0 <= i < ov.bids.pairs.len() && (#[trigger] ov.bids.pairs[i]).1.id == o.id;
                    assert(false);
                }
            }
            self.bids.insert_order(ft, o);
            proof {
                lemma_insert_ids(ov.bids.pairs, ft, o, self.order_id);
            }
        } else {
            proof {
                if self.asks@.index.contains_key(o.id) {
                    let w = choose|i: int|
                        0 <= i < ov.asks.pairs.len() && (#[trigger] ov.asks.pairs[i]).1.id == o.id;
                    assert(false);
                }
            }
            self.asks.insert_order(ft, o);
            proof {
                lemma_insert_ids(ov.asks.pairs, ft, o, self.order_id);
            }
        }
        self.events.push(OrderEvent::NewAck { id: new_order_id });
        let trade_type = if is_buy {
            TradeType::BidInitiated
        } else {
            TradeType::AskInitiated
        };
        let ghost pre = self@;
        let trades = self.check(trade_type);
        proof {
            let m = match_loop(pre.bids, pre.asks, trade_type);
            let ran = (ov.market_state is Open) && !ov.faulted;
            if ran {
                assert(self@ =~= (EngineView {
                    bids: m.bids,
                    asks: m.asks,
                    faulted: m.faulted,
                    next_id: (ov.next_id + 1) as u64,
                    events: ov.events.push(OrderEvent::NewAck { id: new_order_id }) + m.events,
                    ..ov
                }));
            } else {
                assert(ov.events.push(OrderEvent::NewAck { id: new_order_id })
                    + Seq::<OrderEvent>::empty() =~= pre.events);
                assert(self@ =~= (EngineView {
                    bids: pre.bids,
                    asks: pre.asks,
                    faulted: ov.faulted,
                    next_id: (ov.next_id + 1) as u64,
                    events: ov.events.push(OrderEvent::NewAck { id: new_order_id })
                        + Seq::<OrderEvent>::empty(),
                    ..ov
                }));
            }
        }
        Ok((new_order_id, trades))
    }

    /// Cancel the resting order with this id on the given side, removing it
    /// from the book and the index.  Fails with `NotFound` if the id is not
    /// resting there, leaving all state unchanged.
    pub fn cancel_order(&mut self, id: u64, is_buy: bool) -> (r: Result<(), EngineError>)
        requires
            old(self).wf(),
        ensures
            final(self).wf(),
            ({
                let side = if is_buy {
                    old(self)@.bids
                } else {
                    old(self)@.asks
                };
                &&& (r is Ok) <==> side.index.contains_key(id)
                &&& (r is Ok) <==> has_id(side.pairs, id)
                &&& r is Ok ==> ({
                    let ns = BookSideView {
                        pairs: side.pairs.remove(idx_of_id(side.pairs, id)),
                        index: side.index.remove(id),
                        is_buy: side.is_buy,
                    };
                    final(self)@ == (EngineView {
                        bids: if is_buy {
                            ns
                        } else {
                            old(self)@.bids
                        },
                        asks: if is_buy {
                            old(self)@.asks
                        } else {
                            ns
                        },
                        events: old(self)@.events.push(OrderEvent::Cancel { id }),
                        ..old(self)@
                    })
                })
                &&& r is Err ==> r == Err::<(), EngineError>(EngineError::NotFound) && final(self)@ == (EngineView {
                    events: old(self)@.events.push(
                        OrderEvent::CancelReject { reason: EngineError::NotFound },
                    ),
                    ..old(self)@
                })
            }),
    {
        let ghost ov = self@;
        let rr = if is_buy {
            self.bids.remove_order(id)
        } else {
            self.asks.remove_order(id)
        };
        match rr {
            Ok(()) => {
                self.events.push(OrderEvent::Cancel { id });
                proof {
                    if is_buy {
                        lemma_remove_ids(ov.bids.pairs, idx_of_id(ov.bids.pairs, id), ov.next_id);
                    } else {
                        lemma_remove_ids(ov.asks.pairs, idx_of_id(ov.asks.pairs, id), ov.next_id);
                    }
                    assert(final(self)@ =~= self@);
                }
                Ok(())
            },
            Err(e) => {
                self.events.push(OrderEvent::CancelReject { reason: EngineError::NotFound });
                Err(e)
            },
        }
    }

    /// Amend the resting order's price in place: the order keeps its queue
    /// position and stays filed under its original tick, only its own price
    /// changes.  Fails with `NotFound` if the id is not resting there.
    pub fn amend_order_price(&mut self, id: u64, new_price: i64, is_buy: bool) -> (r: Result<
        (),
        EngineError,
    >)
        requires
            old(self).wf(),
            MIN_PRICE <= new_price <= MAX_PRICE,
        ensures
            final(self).wf(),
            ({
                let side = if is_buy {
                    old(self)@.bids
                } else {
                    old(self)@.asks
                };
                &&& (r is Ok) <==> side.index.contains_key(id)
                &&& (r is Ok) <==> has_id(side.pairs, id)
                &&& r is Ok ==> ({
                    let w = idx_of_id(side.pairs, id);
                    let o = side.pairs[w].1;
                    let ns = BookSideView {
                        pairs: side.pairs.update(
                            w,
                            (
                                side.pairs[w].0,
                                OrderData { price: spec_tick_of(new_price as int) as i32, ..o },
                            ),
                        ),
                        index: side.index,
                        is_buy: side.is_buy,
                    };
                    final(self)@ == (EngineView {
                        bids: if is_buy {
                            ns
                        } else {
                            old(self)@.bids
                        },
                        asks: if is_buy {
                            old(self)@.asks
                        } else {
                            ns
                        },
                        events: old(self)@.events.push(OrderEvent::AmendAck { id }),
                        ..old(self)@
                    })
                })
                &&& r is Err ==> r == Err::<(), EngineError>(EngineError::NotFound) && final(self)@ == (EngineView {
                    events: old(self)@.events.push(
                        OrderEvent::AmendReject { reason: EngineError::NotFound },
                    ),
                    ..old(self)@
                })
            }),
    {
        let ghost ov = self@;
        let t = to_int_price(new_price);
        let rr = if is_buy {
            self.bids.amend_price_tick(id, t)
        } else {
            self.asks.amend_price_tick(id, t)
        };
        match rr {
            Ok(()) => {
                self.events.push(OrderEvent::AmendAck { id });
                proof {
                    let side = if is_buy {
                        ov.bids
                    } else {
                        ov.asks
                    };
                    let w = idx_of_id(side.pairs, id);
                    let np = side.pairs.update(
                        w,
                        (side.pairs[w].0, OrderData { price: t, ..side.pairs[w].1 }),
                    );
                    assert forall|i: int| 0 <= i < np.len() implies (#[trigger] np[i]).1.id
                        < ov.next_id by {
                        assert(side.pairs[i].1.id < ov.next_id);
                    }
                }
                Ok(())
            },
            Err(e) => {
                self.events.push(OrderEvent::AmendReject { reason: EngineError::NotFound });
                Err(e)
            },
        }
    }

    /// Amend the resting order's quantity.  A reduction is made in place and
    /// keeps time priority; an increase loses it: the original order is
    /// removed and a new order with the same price, owner, type and side is
    /// created under a fresh id at the back of its level's queue.  Fails
    /// with `NotFound` if the id is not resting there, and rejects a zero
    /// quantity.
    pub fn amend_order_quantity(&mut self, id: u64, new_quantity: u32, is_buy: bool) -> (r: Result<
        (),
        EngineError,
    >)
        requires
            old(self).wf(),
            ({
                // Only an upward amend consumes an id, so only there must
                // the id space have room for the fresh id it promises.
                let side = if is_buy {
                    old(self)@.bids
                } else {
                    old(self)@.asks
                };
                side.index.contains_key(id) && new_quantity > side.pairs[idx_of_id(
                    side.pairs,
                    id,
                )].1.quantity ==> old(self)@.next_id < u64::MAX
            }),
        ensures
            final(self).wf(),
            ({
                let side = if is_buy {
                    old(self)@.bids
                } else {
                    old(self)@.asks
                };
                let present = side.index.contains_key(id);
                let w = idx_of_id(side.pairs, id);
                let o = side.pairs[w].1;
                &&& !present ==> r == Err::<(), EngineError>(EngineError::NotFound) && final(self)@ == (EngineView {
                    events: old(self)@.events.push(
                        OrderEvent::AmendReject { reason: EngineError::NotFound },
                    ),
                    ..old(self)@
                })
                &&& present && new_quantity == 0 ==> r == Err::<(), EngineError>(
                    EngineError::InvalidQuantity,
                ) && final(self)@ == (EngineView {
                    events: old(self)@.events.push(
                        OrderEvent::AmendReject { reason: EngineError::InvalidQuantity },
                    ),
                    ..old(self)@
                })
                &&& present && 0 < new_quantity <= o.quantity ==> ({
                    let ns = BookSideView {
                        pairs: side.pairs.update(
                            w,
                            (side.pairs[w].0, OrderData { quantity: new_quantity, ..o }),
                        ),
                        index: side.index,
                        is_buy: side.is_buy,
                    };
                    r == Ok::<(), EngineError>(()) && final(self)@ == (EngineView {
                        bids: if is_buy {
                            ns
                        } else {
                            old(self)@.bids
                        },
                        asks: if is_buy {
                            old(self)@.asks
                        } else {
                            ns
                        },
                        events: old(self)@.events.push(OrderEvent::AmendAck { id }),
                        ..old(self)@
                    })
                })
                &&& present && new_quantity > o.quantity ==> ({
                    let no = OrderData { quantity: new_quantity, id: old(self)@.next_id, ..o };
                    let ft = crossing_tick(no, is_buy);
                    let removed = side.pairs.remove(w);
                    let ns = BookSideView {
                        pairs: insert_pairs(removed, ft, no),
                        index: side.index.remove(id).insert(no.id, ft),
                        is_buy: side.is_buy,
                    };
                    r == Ok::<(), EngineError>(()) && final(self)@ == (EngineView {
                        bids: if is_buy {
                            ns
                        } else {
                            old(self)@.bids
                        },
                        asks: if is_buy {
                            old(self)@.asks
                        } else {
                            ns
                        },
                        next_id: (old(self)@.next_id + 1) as u64,
                        events: old(self)@.events.push(OrderEvent::AmendAck { id: no.id }),
                        ..old(self)@
                    })
                })
            }),
    {
        let ghost ov = self@;
        if is_buy {
            let o = match self.bids.get_order(id) {
                None => {
                    self.events.push(OrderEvent::AmendReject { reason: EngineError::NotFound });
                    return Err(EngineError::NotFound);
                },
                Some(o) => o,
            };
            if new_quantity == 0 {
                self.events.push(OrderEvent::AmendReject { reason: EngineError::InvalidQuantity });
                return Err(EngineError::InvalidQuantity);
            }
            if o.is_amend_qty_up(new_quantity) {
                // Upward amend loses priority: cancel, then re-create under
                // a fresh id at the back of its level's queue.
                let rr = self.bids.remove_order(id);
                proof {
                    assert(rr is Ok);
                    lemma_remove_ids(ov.bids.pairs, idx_of_id(ov.bids.pairs, id), ov.next_id);
                }
                let nid = self.get_and_increment_id();
                let no = OrderData {
                    price: o.price,
                    quantity: new_quantity,
                    owner: o.owner,
                    order_type: o.order_type,
                    id: nid,
                };
                let ft: i32 = if no.is_market() {
                    i32::MAX
                } else {
                    no.price
                };
                proof {
                    assert(ft == crossing_tick(no, true));
                    if self.bids@.index.contains_key(no.id) {
                        let w2 = choose|i: int|
                            0 <= i < self.bids@.pairs.len() && (#[trigger] self.bids@.pairs[i]).1.id
                                == no.id;
                        assert(false);
                    }
                }
                self.bids.insert_order(ft, no);
                proof {
                    lemma_insert_ids(
                        ov.bids.pairs.remove(idx_of_id(ov.bids.pairs, id)),
                        ft,
                        no,
                        self.order_id,
                    );
                }
                self.events.push(OrderEvent::AmendAck { id: nid });
                Ok(())
            } else {
                let rr = self.bids.reduce_quantity(id, new_quantity);
                proof {
                    assert(rr is Ok);
                    let w = idx_of_id(ov.bids.pairs, id);
                    let np = ov.bids.pairs.update(
                        w,
                        (ov.bids.pairs[w].0, OrderData { quantity: new_quantity, ..o }),
                    );
                    assert forall|i: int| 0 <= i < np.len() implies (#[trigger] np[i]).1.id
                        < ov.next_id by {
                        assert(ov.bids.pairs[i].1.id < ov.next_id);
                    }
                }
                self.events.push(OrderEvent::AmendAck { id });
                Ok(())
            }
        } else {
            let o = match self.asks.get_order(id) {
                None => {
                    self.events.push(OrderEvent::AmendReject { reason: EngineError::NotFound });
                    return Err(EngineError::NotFound);
                },
                Some(o) => o,
            };
            if new_quantity == 0 {
                self.events.push(OrderEvent::AmendReject { reason: EngineError::InvalidQuantity });
                return Err(EngineError::InvalidQuantity);
            }
            if o.is_amend_qty_up(new_quantity) {
                let rr = self.asks.remove_order(id);
                proof {
                    assert(rr is Ok);
                    lemma_remove_ids(ov.asks.pairs, idx_of_id(ov.asks.pairs, id), ov.next_id);
                }
                let nid = self.get_and_increment_id();
                let no = OrderData {
                    price: o.price,
                    quantity: new_quantity,
                    owner: o.owner,
                    order_type: o.order_type,
                    id: nid,
                };
                let ft: i32 = if no.is_market() {
                    i32::MIN
                } else {
                    no.price
                };
                proof {
                    assert(ft == crossing_tick(no, false));
                    if self.asks@.index.contains_key(no.id) {
                        let w2 = choose|i: int|
                            0 <= i < self.asks@.pairs.len() && (#[trigger] self.asks@.pairs[i]).1.id
                                == no.id;
                        assert(false);
                    }
                }
                self.asks.insert_order(ft, no);
                proof {
                    lemma_insert_ids(
                        ov.asks.pairs.remove(idx_of_id(ov.asks.pairs, id)),
                        ft,
                        no,
                        self.order_id,
                    );
                }
                self.events.push(OrderEvent::AmendAck { id: nid });
                Ok(())
            } else {
                let rr = self.asks.reduce_quantity(id, new_quantity);
                proof {
                    assert(rr is Ok);
                    let w = idx_of_id(ov.asks.pairs, id);
                    let np = ov.asks.pairs.update(
                        w,
                        (ov.asks.pairs[w].0, OrderData { quantity: new_quantity, ..o }),
                    );
                    assert forall|i: int| 0 <= i < np.len() implies (#[trigger] np[i]).1.id
                        < ov.next_id by {
                        assert(ov.asks.pairs[i].1.id < ov.next_id);
                    }
                }
                self.events.push(OrderEvent::AmendAck { id });
                Ok(())
            }
        }
    }

    /// A top-of-book (L1) snapshot: for each side, the best tick with the
    /// level's total quantity and order count (both saturated at
    /// `u32::MAX`), or zeros when the side is empty.
    pub fn l1_snapshot(&self) -> (r: L1QuoteShapShot)
        requires
            self.wf(),
        ensures
            self@.bids.pairs.len() == 0 ==> r.bid_price == 0 && r.bid_quantity == 0 && r.bid_number
                == 0,
            self@.asks.pairs.len() == 0 ==> r.ask_price == 0 && r.ask_quantity == 0 && r.ask_number
                == 0,
            self@.bids.pairs.len() > 0 ==> ({
                &&& r.bid_price == best_tick(self@.bids)
                &&& r.bid_quantity as int == level_qty_capped(self@.bids.pairs, r.bid_price)
                &&& r.bid_number as int == level_count_capped(self@.bids.pairs, r.bid_price)
            }),
            self@.asks.pairs.len() > 0 ==> ({
                &&& r.ask_price == best_tick(self@.asks)
                &&& r.ask_quantity as int == level_qty_capped(self@.asks.pairs, r.ask_price)
                &&& r.ask_number as int == level_count_capped(self@.asks.pairs, r.ask_price)
            }),
    {
        let (bid_price, bid_quantity, bid_number): (i32, u32, u32) = match self.bids.best() {
            None => (0, 0, 0),
            Some((t, _)) => {
                let (q, n) = self.bids.level_summary(t);
                (t, q, n)
            },
        };
        let (ask_price, ask_quantity, ask_number): (i32, u32, u32) = match self.asks.best() {
            None => (0, 0, 0),
            Some((t, _)) => {
                let (q, n) = self.asks.level_summary(t);
                (t, q, n)
            },
        };
        L1QuoteShapShot { bid_price, bid_quantity, bid_number, ask_price, ask_quantity, ask_number }
    }

    /// A full-depth (L2) snapshot: for each side, the non-empty price
    /// levels in ascending tick order, with each level's total quantity and
    /// order count (both saturated at `u32::MAX`).
    pub fn l2_snapshot(&self) -> (r: L2QuoteSnapShot)
        requires
            self.wf(),
        ensures
            r.bid_quantity@.len() == r.bid_price@.len(),
            r.bid_number@.len() == r.bid_price@.len(),
            ticks_ascending(r.bid_price@),
            ticks_resting(r.bid_price@, self@.bids.pairs),
            ticks_cover(r.bid_price@, self@.bids.pairs),
            forall|j: int|
                0 <= j < r.bid_price@.len() ==> (#[trigger] r.bid_quantity@[j]) as int
                    == level_qty_capped(self@.bids.pairs, r.bid_price@[j]),
            forall|j: int|
                0 <= j < r.bid_price@.len() ==> (#[trigger] r.bid_number@[j]) as int
                    == level_count_capped(self@.bids.pairs, r.bid_price@[j]),
            r.ask_quantity@.len() == r.ask_price@.len(),
            r.ask_number@.len() == r.ask_price@.len(),
            ticks_ascending(r.ask_price@),
            ticks_resting(r.ask_price@, self@.asks.pairs),
            ticks_cover(r.ask_price@, self@.asks.pairs),
            forall|j: int|
                0 <= j < r.ask_price@.len() ==> (#[trigger] r.ask_quantity@[j]) as int
                    == level_qty_capped(self@.asks.pairs, r.ask_price@[j]),
            forall|j: int|
                0 <= j < r.ask_price@.len() ==> (#[trigger] r.ask_number@[j]) as int
                    == level_count_capped(self@.asks.pairs, r.ask_price@[j]),
    {
        let (bid_price, bid_quantity, bid_number) = self.bids.depth();
        let (ask_price, ask_quantity, ask_number) = self.asks.depth();
        L2QuoteSnapShot { bid_price, bid_quantity, bid_number, ask_price, ask_quantity, ask_number }
    }

    /// Print the book.  The engine itself publishes nothing; market data is
    /// read through the snapshot accessors instead.
    pub fn print_book(&self) {
    }
}

} // verus!