//! Every mutating call yields exactly one lifecycle event, and every trade
//! yields a fill event for each resting order it touches.

use lit_engine::engine::{LitEngine, OrderSide};
use lit_engine::order_actions::OrderEvent;
use lit_engine::order_data::{EngineError, OrderType};

#[test]
fn lifecycle_and_fill_events() {
    let mut engine = LitEngine::new(1);

    let (buy_id, _) = engine.create_order(100000, 100, OrderSide::Buy, 1, OrderType::Limit)
        .unwrap();
    let (sell_id, trades) = engine.create_order(100000, 40, OrderSide::Sell, 2, OrderType::Limit)
        .unwrap();
    assert_eq!(1, trades.unwrap().len());
    assert_eq!(Ok(()), engine.cancel_order(buy_id, true));
    assert_eq!(Err(EngineError::NotFound), engine.cancel_order(buy_id, true));

    let events = engine.take_events();
    assert_eq!(
        vec![
            OrderEvent::NewAck { id: buy_id },
            OrderEvent::NewAck { id: sell_id },
            OrderEvent::PartialFill { id: buy_id, qty: 40, price: 1000, remaining: 60 },
            OrderEvent::FullFill { id: sell_id, qty: 40, price: 1000 },
            OrderEvent::Cancel { id: buy_id },
            OrderEvent::CancelReject { reason: EngineError::NotFound },
        ],
        events
    );

    // The log was drained.
    assert_eq!(0, engine.take_events().len());
}

#[test]
fn reject_and_amend_events() {
    let mut engine = LitEngine::new(1);
    assert!(engine.create_order(100000, 100, OrderSide::Buy, 1, OrderType::Dark).is_err());
    let (id, _) = engine.create_order(100000, 100, OrderSide::Buy, 1, OrderType::Limit).unwrap();
    assert_eq!(Ok(()), engine.amend_order_quantity(id, 50, true));
    assert_eq!(Ok(()), engine.amend_order_price(id, 110000, true));
    assert_eq!(Err(EngineError::NotFound), engine.amend_order_quantity(77, 50, true));

    let events = engine.take_events();
    assert_eq!(
        vec![
            OrderEvent::NewReject { reason: EngineError::DarkOrder },
            OrderEvent::NewAck { id },
            OrderEvent::AmendAck { id },
            OrderEvent::AmendAck { id },
            OrderEvent::AmendReject { reason: EngineError::NotFound },
        ],
        events
    );
}
