use order_book::{ask, bid, parse_side, Decimal, EngineError, Order, OrderStatus, Rejection, Side};

fn dec(mantissa: i128, scale: u32) -> Decimal {
    Decimal { mantissa, scale }
}

#[test]
fn new_order_keeps_its_parts() {
    let order = Order::new(Side::BID, "ACME".to_string(), "10.25", 7).unwrap();
    assert_eq!(order.side(), Side::BID);
    assert_eq!(order.symbol(), "ACME");
    assert_eq!(order.price(), dec(1025, 2));
    assert_eq!(order.quantity(), 7);
    assert_eq!(order.original_quantity(), 7);
    assert_eq!(order.status(), OrderStatus::QUEUED);
    assert_eq!(order.id(), order.id);
}

#[test]
fn new_order_rejects_non_positive_quantity() {
    assert_eq!(
        Order::new(Side::BID, "X".to_string(), "1.0", 0).unwrap_err(),
        EngineError::InvalidOrder(Rejection::Quantity)
    );
    assert_eq!(
        Order::new(Side::ASK, "X".to_string(), "1.0", -5).unwrap_err(),
        EngineError::InvalidOrder(Rejection::Quantity)
    );
    assert_eq!(
        Order::new(Side::ASK, "X".to_string(), "not a price", 0).unwrap_err(),
        EngineError::InvalidOrder(Rejection::Quantity)
    );
}

#[test]
fn new_order_rejects_unparsable_price() {
    assert_eq!(
        Order::new(Side::BID, "X".to_string(), "ten", 1).unwrap_err(),
        EngineError::InvalidOrder(Rejection::Price)
    );
    assert_eq!(
        Order::new(Side::BID, "X".to_string(), "NaN", 1).unwrap_err(),
        EngineError::InvalidOrder(Rejection::Price)
    );
}

#[test]
fn new_orders_get_different_ids() {
    let a = Order::new(Side::BID, "X".to_string(), "1", 1).unwrap();
    let b = Order::new(Side::BID, "X".to_string(), "1", 1).unwrap();
    assert_ne!(a.id, b.id);
}

#[test]
fn from_parts_rejects_exactly_non_positive_quantity() {
    assert!(Order::from_parts(1, Side::BID, "X".to_string(), dec(1, 0), 1).is_ok());
    assert_eq!(
        Order::from_parts(1, Side::BID, "X".to_string(), dec(1, 0), 0).unwrap_err(),
        EngineError::InvalidOrder(Rejection::Quantity)
    );
    let order = Order::from_parts(9, Side::ASK, "Y".to_string(), dec(125, 1), 3).unwrap();
    assert_eq!(order.id, 9);
    assert_eq!(order.price, dec(125, 1));
    assert_eq!(order.symbol, "Y");
    assert_eq!(order.side, Side::ASK);
    assert_eq!(order.quantity, 3);
    assert_eq!(order.original_quantity, 3);
}

#[test]
fn bid_and_ask_set_the_side() {
    assert_eq!(bid("X".to_string(), "5.5", 2).unwrap().side, Side::BID);
    assert_eq!(ask("X".to_string(), "5.5", 2).unwrap().side, Side::ASK);
    assert_eq!(
        bid("X".to_string(), "5.5", 0).unwrap_err(),
        EngineError::InvalidOrder(Rejection::Quantity)
    );
    assert_eq!(
        ask("X".to_string(), "x", 1).unwrap_err(),
        EngineError::InvalidOrder(Rejection::Price)
    );
}

#[test]
fn status_follows_the_quantities() {
    let mut order = Order::from_parts(1, Side::BID, "X".to_string(), dec(1, 0), 10).unwrap();
    assert_eq!(order.status(), OrderStatus::QUEUED);
    order.set_quantity(4);
    assert_eq!(order.quantity(), 4);
    assert_eq!(order.original_quantity(), 10);
    assert_eq!(order.status(), OrderStatus::PARTIAL_FILL);
    order.set_quantity(0);
    assert_eq!(order.status(), OrderStatus::FILLED);
    order.set_quantity(10);
    assert_eq!(order.status(), OrderStatus::QUEUED);
}

#[test]
fn clone_of_an_order_is_equal_in_every_field() {
    let order = Order::from_parts(5, Side::ASK, "Z".to_string(), dec(33, 1), 2).unwrap();
    let copy = order.clone();
    assert_eq!(copy.id, 5);
    assert_eq!(copy.symbol, "Z");
    assert_eq!(copy.price, dec(33, 1));
    assert_eq!(copy.side, Side::ASK);
    assert_eq!(copy.quantity, 2);
    assert_eq!(copy.original_quantity, 2);
}

#[test]
fn side_names_and_opposites() {
    assert_eq!(Side::BID.as_str(), "bid");
    assert_eq!(Side::ASK.as_str(), "ask");
    assert_eq!(Side::BID.other(), Side::ASK);
    assert_eq!(Side::ASK.other(), Side::BID);
    assert_eq!(OrderStatus::QUEUED.as_str(), "queued");
    assert_eq!(OrderStatus::PARTIAL_FILL.as_str(), "partial_fill");
    assert_eq!(OrderStatus::FILLED.as_str(), "filled");
}

#[test]
fn bid_crosses_at_or_above_and_ask_at_or_below() {
    let ten = dec(1000, 2);
    let nine = dec(9, 0);
    assert!(Side::BID.price_is_matchable(ten, nine));
    assert!(Side::BID.price_is_matchable(ten, dec(10, 0)));
    assert!(!Side::BID.price_is_matchable(nine, ten));
    assert!(Side::ASK.price_is_matchable(nine, ten));
    assert!(Side::ASK.price_is_matchable(ten, dec(10, 0)));
    assert!(!Side::ASK.price_is_matchable(ten, nine));
}

#[test]
fn fill_price_is_the_resting_price_when_crossing() {
    let ten = dec(1000, 2);
    let nine = dec(9, 0);
    assert_eq!(Side::BID.calc_fill_price(ten, nine), nine);
    assert_eq!(Side::ASK.calc_fill_price(nine, ten), ten);
    // Of two equal prices a bid takes the incoming one, an ask the resting one.
    assert_eq!(Side::BID.calc_fill_price(ten, dec(10, 0)), ten);
    assert_eq!(Side::ASK.calc_fill_price(ten, dec(10, 0)), dec(10, 0));
    // Without a crossing: the lower for a bid, the higher for an ask.
    assert_eq!(Side::BID.calc_fill_price(nine, ten), nine);
    assert_eq!(Side::ASK.calc_fill_price(ten, nine), ten);
}

#[test]
fn parse_side_accepts_any_case_and_nothing_else() {
    assert_eq!(parse_side("bid"), Ok(Side::BID));
    assert_eq!(parse_side("BID"), Ok(Side::BID));
    assert_eq!(parse_side("Ask"), Ok(Side::ASK));
    assert_eq!(parse_side("aSK"), Ok(Side::ASK));
    assert_eq!(parse_side("buy"), Err(EngineError::InvalidOrder(Rejection::Side)));
    assert_eq!(parse_side(""), Err(EngineError::InvalidOrder(Rejection::Side)));
    assert_eq!(parse_side("bids"), Err(EngineError::InvalidOrder(Rejection::Side)));
    assert_eq!(parse_side(" bid"), Err(EngineError::InvalidOrder(Rejection::Side)));
    assert_eq!(parse_side("b\u{131}d"), Err(EngineError::InvalidOrder(Rejection::Side)));
}

#[test]
fn errors_describe_themselves() {
    assert_eq!(
        EngineError::InvalidOrder(Rejection::Quantity).describe(),
        "Order quantity must be greater than zero"
    );
    assert_eq!(EngineError::EmptyQueueAccess.describe(), "Order Queue is Empty!");
    assert_eq!(EngineError::OrderNotFound(3).describe(), "Order not found");
    assert_eq!(EngineError::InconsistentState.describe(), "Price level doesn't exist!");
    assert_eq!(Rejection::Symbol.describe(), "Symbol cannot be empty");
    assert_eq!(Rejection::Price.describe(), "Invalid price value");
    assert_eq!(Rejection::Side.describe(), "Invalid side. Expected 'bid' or 'ask'.");
}
