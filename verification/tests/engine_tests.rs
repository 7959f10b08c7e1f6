//! End-to-end tests of the matching engine.  Prices are passed in sub-units
//! (one currency unit = 10000 sub-units) and reported as ticks (one tick =
//! 0.01 currency units), so 10.00 enters as 100000 and prints as 1000.

use lit_engine::engine::{LitEngine, OrderSide};
use lit_engine::order_data::{EngineError, OrderType};

#[test]
fn test_lit_engine() {
    let mut engine = LitEngine::new(1);

    // Place some orders.
    engine.create_order(100000, 100, OrderSide::Buy, 1, OrderType::Limit).unwrap();
    engine.create_order(100000, 200, OrderSide::Buy, 2, OrderType::Limit).unwrap();
    engine.create_order(100000, 300, OrderSide::Buy, 3, OrderType::Limit).unwrap();
    engine.create_order(100000, 400, OrderSide::Buy, 4, OrderType::Limit).unwrap();
    engine.create_order(90000, 500, OrderSide::Buy, 5, OrderType::Limit).unwrap();

    engine.create_order(110000, 100, OrderSide::Sell, 6, OrderType::Limit).unwrap();
    engine.create_order(110000, 200, OrderSide::Sell, 7, OrderType::Limit).unwrap();
    engine.create_order(110000, 300, OrderSide::Sell, 8, OrderType::Limit).unwrap();
    engine.create_order(110000, 400, OrderSide::Sell, 9, OrderType::Limit).unwrap();
    engine.create_order(120000, 500, OrderSide::Sell, 10, OrderType::Limit).unwrap();

    // Now cross the spread.
    let (_id, trades) = engine.create_order(110000, 10, OrderSide::Buy, 11, OrderType::Limit)
        .unwrap();

    assert!(trades.is_some());
    let trades = trades.unwrap();

    assert_eq!(1, trades.len());
    let trade = trades.iter().next().unwrap();

    assert_eq!(1100, trade.price);
    assert_eq!(10, trade.qty);
    assert_eq!(11, trade.buy_owner);
    assert_eq!(6, trade.sell_owner);
}

#[test]
fn test_aggressive_order() {
    let mut engine = LitEngine::new(1);

    // Place some orders.
    engine.create_order(100000, 100, OrderSide::Buy, 1, OrderType::Limit).unwrap();
    engine.create_order(110000, 100, OrderSide::Sell, 6, OrderType::Limit).unwrap();

    // Now cross the spread, priced lower than the best bid.
    let (_id, trades) = engine.create_order(90000, 10, OrderSide::Sell, 3, OrderType::Limit)
        .unwrap();

    // Should fill at the best bid price.
    assert!(trades.is_some());
    let trades = trades.unwrap();

    assert_eq!(1, trades.len());
    let trade = trades.iter().next().unwrap();

    assert_eq!(1000, trade.price);
    assert_eq!(10, trade.qty);
    assert_eq!(1, trade.buy_owner);
    assert_eq!(3, trade.sell_owner);
}

#[test]
fn test_multiple_trades() {
    let mut engine = LitEngine::new(1);

    // Place some orders.
    engine.create_order(100000, 10, OrderSide::Buy, 1, OrderType::Limit).unwrap();
    engine.create_order(100000, 1000, OrderSide::Buy, 2, OrderType::Limit).unwrap();
    engine.create_order(110000, 100, OrderSide::Sell, 6, OrderType::Limit).unwrap();

    // Now cross the spread, priced lower than the best bid.
    let (_id, trades) = engine.create_order(100000, 50, OrderSide::Sell, 3, OrderType::Limit)
        .unwrap();

    // Should fill at the best bid price.
    assert!(trades.is_some());
    let trades = trades.unwrap();

    assert_eq!(2, trades.len());

    // First trade.
    let mut trade = &trades[0];

    assert_eq!(1000, trade.price);
    assert_eq!(10, trade.qty);
    assert_eq!(1, trade.buy_owner);
    assert_eq!(3, trade.sell_owner);

    // Second trade.
    trade = &trades[1];

    assert_eq!(1000, trade.price);
    assert_eq!(40, trade.qty);
    assert_eq!(2, trade.buy_owner);
    assert_eq!(3, trade.sell_owner);
}

#[test]
fn create_rejects() {
    let mut engine = LitEngine::new(7);
    assert_eq!(
        Err(EngineError::DarkOrder),
        engine.create_order(100000, 100, OrderSide::Buy, 1, OrderType::Dark)
    );
    assert_eq!(
        Err(EngineError::InvalidQuantity),
        engine.create_order(100000, 0, OrderSide::Buy, 1, OrderType::Limit)
    );
    assert_eq!(
        Err(EngineError::InvalidPrice),
        engine.create_order(0, 100, OrderSide::Buy, 1, OrderType::Limit)
    );
    assert_eq!(
        Err(EngineError::InvalidPrice),
        engine.create_order(-10000, 100, OrderSide::Sell, 1, OrderType::Limit)
    );
    // A Market order's price is unconstrained.
    let (_id, trades) = engine.create_order(0, 100, OrderSide::Buy, 1, OrderType::Market).unwrap();
    assert!(trades.is_none());
}

#[test]
fn market_order_crosses_any_price() {
    let mut engine = LitEngine::new(1);
    engine.create_order(250000, 30, OrderSide::Sell, 5, OrderType::Limit).unwrap();
    // A market buy at price 0 still crosses, and prints at the resting
    // ask's price.
    let (_id, trades) = engine.create_order(0, 30, OrderSide::Buy, 9, OrderType::Market).unwrap();
    let trades = trades.unwrap();
    assert_eq!(1, trades.len());
    assert_eq!(2500, trades[0].price);
    assert_eq!(30, trades[0].qty);
    assert_eq!(9, trades[0].buy_owner);
    assert_eq!(5, trades[0].sell_owner);
}

#[test]
fn cancel_round_trip() {
    let mut engine = LitEngine::new(1);
    let (id, _) = engine.create_order(100000, 100, OrderSide::Buy, 1, OrderType::Limit).unwrap();
    assert_eq!(Ok(()), engine.cancel_order(id, true));
    // A second cancel, and amends, on the same id report NotFound and leave
    // the rest of the state intact.
    assert_eq!(Err(EngineError::NotFound), engine.cancel_order(id, true));
    assert_eq!(Err(EngineError::NotFound), engine.amend_order_price(id, 110000, true));
    assert_eq!(Err(EngineError::NotFound), engine.amend_order_quantity(id, 50, true));
    // Cancelling on the wrong side is also NotFound.
    let (id2, _) = engine.create_order(100000, 100, OrderSide::Buy, 1, OrderType::Limit).unwrap();
    assert_eq!(Err(EngineError::NotFound), engine.cancel_order(id2, false));
    assert_eq!(Ok(()), engine.cancel_order(id2, true));
}

#[test]
fn amend_down_keeps_priority() {
    let mut engine = LitEngine::new(1);
    let (first, _) = engine.create_order(100000, 100, OrderSide::Buy, 1, OrderType::Limit)
        .unwrap();
    let (_second, _) = engine.create_order(100000, 200, OrderSide::Buy, 2, OrderType::Limit)
        .unwrap();
    // Reducing the first order keeps its id and its queue position: an
    // incoming sell still fills owner 1 first.
    assert_eq!(Ok(()), engine.amend_order_quantity(first, 40, true));
    let (_id, trades) = engine.create_order(100000, 60, OrderSide::Sell, 3, OrderType::Limit)
        .unwrap();
    let trades = trades.unwrap();
    assert_eq!(2, trades.len());
    assert_eq!(1, trades[0].buy_owner);
    assert_eq!(40, trades[0].qty);
    assert_eq!(2, trades[1].buy_owner);
    assert_eq!(20, trades[1].qty);
}

#[test]
fn amend_up_loses_priority() {
    let mut engine = LitEngine::new(1);
    let (first, _) = engine.create_order(100000, 100, OrderSide::Buy, 1, OrderType::Limit)
        .unwrap();
    let (_second, _) = engine.create_order(100000, 200, OrderSide::Buy, 2, OrderType::Limit)
        .unwrap();
    // Increasing the first order's quantity removes its id and files a new
    // order at the back of the queue: owner 2 now matches first.
    assert_eq!(Ok(()), engine.amend_order_quantity(first, 150, true));
    assert_eq!(Err(EngineError::NotFound), engine.cancel_order(first, true));
    let (_id, trades) = engine.create_order(100000, 50, OrderSide::Sell, 3, OrderType::Limit)
        .unwrap();
    let trades = trades.unwrap();
    assert_eq!(1, trades.len());
    assert_eq!(2, trades[0].buy_owner);
    assert_eq!(50, trades[0].qty);
}

#[test]
fn amend_quantity_rejects_zero() {
    let mut engine = LitEngine::new(1);
    let (id, _) = engine.create_order(100000, 100, OrderSide::Buy, 1, OrderType::Limit).unwrap();
    assert_eq!(Err(EngineError::InvalidQuantity), engine.amend_order_quantity(id, 0, true));
    assert_eq!(Ok(()), engine.cancel_order(id, true));
}

#[test]
fn amend_price_then_fault_halts_matching() {
    let mut engine = LitEngine::new(1);
    let (bid, _) = engine.create_order(100000, 100, OrderSide::Buy, 1, OrderType::Limit).unwrap();
    // Amending the price in place does not re-file the order, so the book
    // key and the order's own price diverge: the resting bid still sits at
    // the 10.00 level but claims to pay only 0.50.
    assert_eq!(Ok(()), engine.amend_order_price(bid, 5000, true));
    assert!(!engine.is_faulted());
    // An incoming sell at 9.00 overlaps the 10.00 level by key, but the
    // amended price no longer crosses: the engine reports the invariant
    // fault and halts matching instead of printing a wrong trade.
    let (_id, trades) = engine.create_order(90000, 10, OrderSide::Sell, 2, OrderType::Limit)
        .unwrap();
    assert_eq!(Some(0), trades.map(|t| t.len()));
    assert!(engine.is_faulted());
    // While faulted, new overlapping orders rest without matching.
    let (_id, trades) = engine.create_order(200000, 10, OrderSide::Buy, 3, OrderType::Limit)
        .unwrap();
    assert!(trades.is_none());
}

#[test]
fn l1_snapshot_reports_top_of_book() {
    let mut engine = LitEngine::new(1);
    let snap = engine.l1_snapshot();
    assert_eq!(0, snap.bid_price);
    assert_eq!(0, snap.ask_quantity);
    engine.create_order(100000, 100, OrderSide::Buy, 1, OrderType::Limit).unwrap();
    engine.create_order(100000, 50, OrderSide::Buy, 2, OrderType::Limit).unwrap();
    engine.create_order(90000, 500, OrderSide::Buy, 3, OrderType::Limit).unwrap();
    engine.create_order(110000, 70, OrderSide::Sell, 4, OrderType::Limit).unwrap();
    let snap = engine.l1_snapshot();
    assert_eq!(1000, snap.bid_price);
    assert_eq!(150, snap.bid_quantity);
    assert_eq!(2, snap.bid_number);
    assert_eq!(1100, snap.ask_price);
    assert_eq!(70, snap.ask_quantity);
    assert_eq!(1, snap.ask_number);
}

#[test]
fn l2_snapshot_reports_depth() {
    let mut engine = LitEngine::new(1);
    engine.create_order(100000, 100, OrderSide::Buy, 1, OrderType::Limit).unwrap();
    engine.create_order(100000, 50, OrderSide::Buy, 2, OrderType::Limit).unwrap();
    engine.create_order(90000, 500, OrderSide::Buy, 3, OrderType::Limit).unwrap();
    engine.create_order(110000, 70, OrderSide::Sell, 4, OrderType::Limit).unwrap();
    let snap = engine.l2_snapshot();
    assert_eq!(vec![900, 1000], snap.bid_price);
    assert_eq!(vec![500, 150], snap.bid_quantity);
    assert_eq!(vec![1, 2], snap.bid_number);
    assert_eq!(vec![1100], snap.ask_price);
    assert_eq!(vec![70], snap.ask_quantity);
    assert_eq!(vec![1], snap.ask_number);
}
