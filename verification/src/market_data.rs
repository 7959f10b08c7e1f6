//! Market-data snapshot records a publisher can fill from the engine's read
//! access to top-of-book and per-level state.  Prices are integer ticks.

use vstd::prelude::*;

verus! {

/// Top-of-book (L1) snapshot: best bid and best ask, each with the level's
/// total quantity and order count.
#[derive(Clone, Copy, Debug, PartialEq, Eq, Structural)]
pub struct L1QuoteShapShot {
    pub bid_price: i32,
    pub bid_quantity: u32,
    pub bid_number: u32,
    pub ask_price: i32,
    pub ask_quantity: u32,
    pub ask_number: u32,
}

/// Full-depth (L2) snapshot: per level, the tick, total quantity and order
/// count, for each side.
#[derive(Clone, Debug, PartialEq, Eq)]
pub struct L2QuoteSnapShot {
    pub bid_price: Vec<i32>,
    pub bid_quantity: Vec<u32>,
    pub bid_number: Vec<u32>,
    pub ask_price: Vec<i32>,
    pub ask_quantity: Vec<u32>,
    pub ask_number: Vec<u32>,
}

/// A change to one price level on one side.
#[derive(Clone, Copy, Debug, PartialEq, Eq, Structural)]
pub struct L2QuoteDelta {
    pub price: i32,
    pub quantity: u32,
    pub number: u32,
    pub is_buy: bool,
}

/// Indicative auction figures.
#[derive(Clone, Copy, Debug, PartialEq, Eq, Structural)]
pub struct AuctionData {
    pub match_price: i32,
    pub match_quantity: u32,
    pub imbalance: i32,
}

} // verus!
