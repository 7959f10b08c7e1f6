//! Order and trade data entities, with construction-time validation.

use vstd::prelude::*;
use crate::price::{to_int_price, spec_tick_of, MIN_PRICE, MAX_PRICE};

verus! {

/// How an order participates in matching.  `Dark` orders are rejected by this
/// lit engine: submitting one here is a routing error.
#[derive(Clone, Copy, Debug, PartialEq, Eq, Structural)]
pub enum OrderType {
    Limit,
    Market,
    Dark,
}

/// Which side initiated a trade, or how the trade was formed.
#[derive(Clone, Copy, Debug, PartialEq, Eq, Structural)]
pub enum TradeType {
    BidInitiated,
    AskInitiated,
    MidPoint,
    Auction,
}

/// Why an operation was refused.
///
/// `InvalidQuantity`, `InvalidPrice` and `DarkOrder` are construction-time
/// validation rejects; `NotFound` is a lookup failure on cancel or amend.
#[derive(Clone, Copy, Debug, PartialEq, Eq, Structural)]
pub enum EngineError {
    InvalidQuantity,
    InvalidPrice,
    DarkOrder,
    NotFound,
}

/// A resting order: immutable identity plus mutable price/quantity state.
///
/// `price` is the order's normalized price in ticks.  The invariant
/// `quantity > 0` holds for every order resting in a book.
#[derive(Clone, Copy, Debug, PartialEq, Eq, Structural)]
pub struct OrderData {
    pub price: i32,
    pub quantity: u32,
    pub owner: i32,
    pub order_type: OrderType,
    pub id: u64,
}

/// A derived trade.  `price` is tick-aligned; ownership passes to the caller
/// of the operation that produced it.
#[derive(Clone, Copy, Debug, PartialEq, Eq, Structural)]
pub struct Trade {
    pub price: i32,
    pub qty: u32,
    pub buy_owner: i32,
    pub sell_owner: i32,
    pub trade_type: TradeType,
}

impl OrderType {
    /// True exactly for `Dark`.
    pub fn is_dark(&self) -> (r: bool)
        ensures
            r == (*self is Dark),
    {
        match *self {
            OrderType::Dark => true,
            _ => false,
        }
    }

    /// True exactly for `Market`.
    pub fn is_market(&self) -> (r: bool)
        ensures
            r == (*self is Market),
    {
        match *self {
            OrderType::Market => true,
            _ => false,
        }
    }
}

impl OrderData {
    /// Construct an order from a decimal (sub-unit) price, normalizing the
    /// price to ticks.  Rejects a zero quantity, and a non-positive price on
    /// any non-Market order; a Market order's price is unconstrained.
    pub fn new(price: i64, quantity: u32, owner: i32, order_type: OrderType, id: u64) -> (r:
        Result<OrderData, EngineError>)
        requires
            MIN_PRICE <= price <= MAX_PRICE,
        ensures
            quantity == 0 ==> r == Err::<OrderData, EngineError>(EngineError::InvalidQuantity),
            quantity > 0 && !(order_type is Market) && price <= 0 ==> r == Err::<
                OrderData,
                EngineError,
            >(EngineError::InvalidPrice),
            quantity > 0 && ((order_type is Market) || price > 0) ==> r == Ok::<
                OrderData,
                EngineError,
            >(
                OrderData {
                    price: spec_tick_of(price as int) as i32,
                    quantity,
                    owner,
                    order_type,
                    id,
                },
            ),
    {
        if quantity == 0 {
            Err(EngineError::InvalidQuantity)
        } else if !order_type.is_market() && price <= 0 {
            Err(EngineError::InvalidPrice)
        } else {
            Ok(
                OrderData {
                    price: to_int_price(price),
                    quantity,
                    owner,
                    order_type,
                    id,
                },
            )
        }
    }

    /// True exactly for a `Dark` order.
    pub fn is_dark(&self) -> (r: bool)
        ensures
            r == (self.order_type is Dark),
    {
        self.order_type.is_dark()
    }

    /// True exactly for a `Market` order.
    pub fn is_market(&self) -> (r: bool)
        ensures
            r == (self.order_type is Market),
    {
        self.order_type.is_market()
    }

    /// Whether this order carries the given id.
    pub fn matches_id(&self, id: u64) -> (r: bool)
        ensures
            r == (self.id == id),
    {
        self.id == id
    }

    /// Overwrite the price with the tick of a new decimal (sub-unit) price.
    pub fn amend_order_price(&mut self, new_price: i64)
        requires
            MIN_PRICE <= new_price <= MAX_PRICE,
        ensures
            *final(self) == (OrderData {
                price: spec_tick_of(new_price as int) as i32,
                ..*old(self)
            }),
    {
        self.price = to_int_price(new_price);
    }

    /// Overwrite the quantity.
    pub fn amend_order_quantity(&mut self, new_quantity: u32)
        ensures
            *final(self) == (OrderData { quantity: new_quantity, ..*old(self) }),
    {
        self.quantity = new_quantity;
    }

    /// Whether the proposed quantity amends upward, strictly above the
    /// current quantity; an upward amend costs the order its time priority.
    pub fn is_amend_qty_up(&self, new_quantity: u32) -> (r: bool)
        ensures
            r == (new_quantity > self.quantity),
    {
        new_quantity > self.quantity
    }
}

} // verus!
