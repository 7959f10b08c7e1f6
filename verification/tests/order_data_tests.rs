//! Tests of order construction and validation.  Prices are sub-units
//! (10000 per currency unit); the stored price is the tick (0.01 units).

use lit_engine::order_data::{EngineError, OrderData, OrderType};
use lit_engine::price::to_int_price;

#[test]
fn order_construction() {
    let mut order = OrderData::new(100000, 1000, 1, OrderType::Limit, 1).unwrap();
    assert_eq!(order.price, 1000);

    order = OrderData::new(110000, 100, 10, OrderType::Dark, 1).unwrap();
    assert_eq!(order.price, 1100);
    assert!(order.is_dark());

    order = OrderData::new(110000, 100, 10, OrderType::Market, 1).unwrap();
    assert_eq!(order.price, 1100);
    assert!(order.is_market());
}

#[test]
#[should_panic]
fn invalid_price() {
    let _order = OrderData::new(-10000, 100, 1, OrderType::Limit, 1).unwrap();
}

#[test]
#[should_panic]
fn invalid_qty() {
    let _order = OrderData::new(10000, 0, 1, OrderType::Limit, 1).unwrap();
}

#[test]
fn construction_rejects() {
    assert_eq!(
        Err(EngineError::InvalidQuantity),
        OrderData::new(100000, 0, 1, OrderType::Limit, 1)
    );
    assert_eq!(Err(EngineError::InvalidPrice), OrderData::new(0, 100, 1, OrderType::Limit, 1));
    // A Market order's price may be non-positive.
    assert!(OrderData::new(-5, 100, 1, OrderType::Market, 1).is_ok());
}

#[test]
fn order_helpers() {
    let mut order = OrderData::new(100000, 100, 1, OrderType::Limit, 42).unwrap();
    assert!(order.matches_id(42));
    assert!(!order.matches_id(41));
    assert!(!order.is_amend_qty_up(50));
    assert!(order.is_amend_qty_up(150));
    order.amend_order_price(123456);
    assert_eq!(order.price, 1234);
    order.amend_order_quantity(7);
    assert_eq!(order.quantity, 7);
}

#[test]
fn price_normalization_floors() {
    // Exact ticks, and fractions of a tick rounding toward negative
    // infinity on both sides of zero.
    assert_eq!(1000, to_int_price(100000));
    assert_eq!(1234, to_int_price(123456));
    assert_eq!(0, to_int_price(99));
    assert_eq!(-1, to_int_price(-1));
    assert_eq!(-1, to_int_price(-100));
    assert_eq!(-2, to_int_price(-101));
    assert_eq!(-13, to_int_price(-1250));
}
