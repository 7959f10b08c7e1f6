//! The client-facing order command and event vocabulary.
//!
//! Every mutating engine call yields exactly one lifecycle event (an ack or
//! a reject), and every trade that touches a resting order yields a
//! `PartialFill` or `FullFill` event.  `CancelReject` completes the
//! vocabulary so that a failed cancel also yields exactly one event.

use vstd::prelude::*;
use crate::order_data::EngineError;

verus! {

/// An action a client can apply to a resting order.
#[derive(Clone, Copy, Debug, PartialEq, Eq, Structural)]
pub enum OrderAction {
    Cancel,
    AmendPrice { price: i64 },
    AmendQuantity { quantity: u32 },
}

/// An event the engine reports for an order.  Prices are ticks; `qty` on a
/// fill is the traded quantity and `remaining` what still rests.
#[derive(Clone, Copy, Debug, PartialEq, Eq, Structural)]
pub enum OrderEvent {
    NewAck { id: u64 },
    NewReject { reason: EngineError },
    AmendAck { id: u64 },
    AmendReject { reason: EngineError },
    Cancel { id: u64 },
    CancelReject { reason: EngineError },
    PartialFill { id: u64, qty: u32, price: i32, remaining: u32 },
    FullFill { id: u64, qty: u32, price: i32 },
}

} // verus!
