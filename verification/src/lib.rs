//! Matching core of a continuous lit order book for a single instrument.
//!
//! The engine keeps price-time-ordered resting liquidity on two book sides,
//! exposes order-lifecycle operations (create, cancel, amend price, amend
//! quantity), and derives trades whenever buy and sell interest overlap while
//! the market is open.  All prices are handled as exact integer tick counts;
//! decimal prices enter the library as integer sub-units and are normalized
//! once at the boundary.

pub mod book_model;
pub mod book_side;
pub mod engine;
pub mod laws;
pub mod level_map;
pub mod market_data;
pub mod order_actions;
pub mod order_data;
pub mod price;
