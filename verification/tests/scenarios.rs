use order_book::{Book, Decimal, EngineError, Order, OrderStatus, Side, SnapshotLevel, Trade};

fn dec(mantissa: i128, scale: u32) -> Decimal {
    Decimal { mantissa, scale }
}

fn order(id: u128, side: Side, symbol: &str, price: Decimal, quantity: i64) -> Order {
    Order::from_parts(id, side, symbol.to_string(), price, quantity).unwrap()
}

#[test]
fn full_fill_at_the_resting_price_empties_the_book() {
    let mut book = Book::new();
    let resting = order(1, Side::BID, "X", dec(1000, 2), 10);
    let first = book.match_single(&resting);
    assert!(first.trades.is_empty());
    assert_eq!(first.order.quantity, 10);

    let incoming = order(2, Side::ASK, "X", dec(800, 2), 10);
    let blotter = book.match_single(&incoming);
    assert_eq!(
        blotter.trades,
        vec![Trade {
            incoming_order_id: 2,
            standing_order_id: 1,
            fill_quantity: 10,
            fill_price: dec(1000, 2),
        }]
    );
    assert_eq!(blotter.order.quantity, 0);
    assert_eq!(blotter.order.status(), OrderStatus::FILLED);

    let snapshot = book.snapshot("X", 5).unwrap();
    assert!(snapshot.bids.is_empty());
    assert!(snapshot.asks.is_empty());
    assert!(book.get_order(1).is_none());
    assert!(book.get_order(2).is_none());
}

#[test]
fn partial_fill_rests_the_remainder_on_its_own_side() {
    let mut book = Book::new();
    book.match_single(&order(1, Side::BID, "X", dec(1000, 2), 5));
    let blotter = book.match_single(&order(2, Side::ASK, "X", dec(900, 2), 8));
    assert_eq!(
        blotter.trades,
        vec![Trade {
            incoming_order_id: 2,
            standing_order_id: 1,
            fill_quantity: 5,
            fill_price: dec(1000, 2),
        }]
    );
    assert_eq!(blotter.order.quantity, 3);
    assert_eq!(blotter.order.original_quantity, 8);
    assert_eq!(blotter.order.status(), OrderStatus::PARTIAL_FILL);

    let snapshot = book.snapshot("X", 5).unwrap();
    assert!(snapshot.bids.is_empty());
    assert_eq!(snapshot.asks, vec![SnapshotLevel { price: dec(900, 2), quantity: 3 }]);
    let rest = book.get_order(2).unwrap();
    assert_eq!(rest.quantity, 3);
    assert_eq!(rest.side, Side::ASK);
    assert_eq!(rest.symbol, "X");
}

#[test]
fn older_order_at_the_same_price_is_filled_first() {
    let mut book = Book::new();
    book.match_single(&order(1, Side::ASK, "X", dec(1000, 2), 3));
    book.match_single(&order(2, Side::ASK, "X", dec(1000, 2), 3));
    let blotter = book.match_single(&order(3, Side::BID, "X", dec(1000, 2), 4));
    assert_eq!(
        blotter.trades,
        vec![
            Trade {
                incoming_order_id: 3,
                standing_order_id: 1,
                fill_quantity: 3,
                fill_price: dec(1000, 2),
            },
            Trade {
                incoming_order_id: 3,
                standing_order_id: 2,
                fill_quantity: 1,
                fill_price: dec(1000, 2),
            },
        ]
    );
    assert_eq!(blotter.order.quantity, 0);
    assert!(book.get_order(1).is_none());
    assert_eq!(book.get_order(2).unwrap().quantity, 2);
}

#[test]
fn cancel_of_an_unknown_id_is_order_not_found() {
    let mut book = Book::new();
    assert_eq!(book.cancel(77), Err(EngineError::OrderNotFound(77)));
}

#[test]
fn snapshot_of_depth_one_gives_spread_midpoint_and_vwap() {
    let mut book = Book::new();
    book.enqueue_order(&order(1, Side::BID, "X", dec(950, 2), 20));
    book.enqueue_order(&order(2, Side::BID, "X", dec(940, 2), 7));
    book.enqueue_order(&order(3, Side::ASK, "X", dec(960, 2), 15));
    book.enqueue_order(&order(4, Side::ASK, "X", dec(970, 2), 9));
    let snapshot = book.snapshot("X", 1).unwrap();
    assert_eq!(snapshot.bids, vec![SnapshotLevel { price: dec(950, 2), quantity: 20 }]);
    assert_eq!(snapshot.asks, vec![SnapshotLevel { price: dec(960, 2), quantity: 15 }]);
    assert!(snapshot.spread.unwrap().same_value(&dec(10, 2)));
    assert!(snapshot.midpoint.unwrap().same_value(&dec(955, 2)));
    assert!(snapshot.bid_vwap.unwrap().same_value(&dec(950, 2)));
    assert!(snapshot.ask_vwap.unwrap().same_value(&dec(960, 2)));
}
