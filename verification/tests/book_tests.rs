use order_book::{
    compute_vwap, Book, Decimal, EngineError, Order, Side, Snapshot, SnapshotLevel, Trade,
    DEFAULT_DEPTH,
};

fn dec(mantissa: i128, scale: u32) -> Decimal {
    Decimal { mantissa, scale }
}

fn order(id: u128, side: Side, symbol: &str, price: Decimal, quantity: i64) -> Order {
    Order::from_parts(id, side, symbol.to_string(), price, quantity).unwrap()
}

fn level(price: Decimal, quantity: i128) -> SnapshotLevel {
    SnapshotLevel { price, quantity }
}

fn depth(book: &Book, symbol: &str) -> Snapshot {
    book.snapshot(symbol, 100).unwrap()
}

fn filled(trades: &[Trade]) -> i64 {
    trades.iter().map(|t| t.fill_quantity).sum()
}

#[test]
fn new_book_has_seen_nothing() {
    let book = Book::new();
    assert!(book.snapshot("X", DEFAULT_DEPTH).is_none());
    assert!(book.get_order(1).is_none());
    assert!(book.get_level("X", Side::BID, dec(1, 0)).is_none());
    assert!(book.symbols().is_empty());
    assert!(book.order_ids().is_empty());
    assert!(book.levels("X", Side::BID).is_none());
    assert!(book.locate(1).is_none());
    assert_eq!(DEFAULT_DEPTH, 5);
}

#[test]
fn an_order_that_does_not_cross_rests() {
    let mut book = Book::new();
    let blotter = book.match_single(&order(1, Side::BID, "X", dec(1000, 2), 10));
    assert!(blotter.trades.is_empty());
    assert_eq!(blotter.order.quantity, 10);
    assert_eq!(blotter.total_cost, Some(dec(0, 0)));
    assert_eq!(blotter.average_price, Some(dec(0, 0)));
    let blotter = book.match_single(&order(2, Side::ASK, "X", dec(1001, 2), 4));
    assert!(blotter.trades.is_empty());
    let snapshot = depth(&book, "X");
    assert_eq!(snapshot.bids, vec![level(dec(1000, 2), 10)]);
    assert_eq!(snapshot.asks, vec![level(dec(1001, 2), 4)]);
}

#[test]
fn matching_walks_from_the_best_price_outward() {
    let mut book = Book::new();
    book.match_single(&order(1, Side::ASK, "X", dec(1020, 2), 5));
    book.match_single(&order(2, Side::ASK, "X", dec(1000, 2), 5));
    book.match_single(&order(3, Side::ASK, "X", dec(1010, 2), 5));
    book.match_single(&order(4, Side::ASK, "X", dec(1030, 2), 5));
    let blotter = book.match_single(&order(9, Side::BID, "X", dec(1020, 2), 12));
    assert_eq!(
        blotter.trades,
        vec![
            Trade { incoming_order_id: 9, standing_order_id: 2, fill_quantity: 5, fill_price: dec(1000, 2) },
            Trade { incoming_order_id: 9, standing_order_id: 3, fill_quantity: 5, fill_price: dec(1010, 2) },
            Trade { incoming_order_id: 9, standing_order_id: 1, fill_quantity: 2, fill_price: dec(1020, 2) },
        ]
    );
    assert_eq!(blotter.order.quantity, 0);
    // 10.00 * 5 + 10.10 * 5 + 10.20 * 2 = 120.90
    assert!(blotter.total_cost.unwrap().same_value(&dec(12090, 2)));
    // (10.00 + 10.10 + 10.20) / 3 = 10.10
    assert!(blotter.average_price.unwrap().same_value(&dec(1010, 2)));
    let snapshot = depth(&book, "X");
    assert!(snapshot.bids.is_empty());
    assert_eq!(snapshot.asks, vec![level(dec(1020, 2), 3), level(dec(1030, 2), 5)]);
}

#[test]
fn matching_stops_at_the_first_level_it_does_not_cross() {
    let mut book = Book::new();
    book.match_single(&order(1, Side::BID, "X", dec(1000, 2), 5));
    book.match_single(&order(2, Side::BID, "X", dec(990, 2), 5));
    let blotter = book.match_single(&order(3, Side::ASK, "X", dec(995, 2), 8));
    assert_eq!(
        blotter.trades,
        vec![Trade { incoming_order_id: 3, standing_order_id: 1, fill_quantity: 5, fill_price: dec(1000, 2) }]
    );
    assert_eq!(blotter.order.quantity, 3);
    let snapshot = depth(&book, "X");
    assert_eq!(snapshot.bids, vec![level(dec(990, 2), 5)]);
    assert_eq!(snapshot.asks, vec![level(dec(995, 2), 3)]);
    // The book is not crossed after the match.
    assert_eq!(snapshot.bids[0].price.compare(&snapshot.asks[0].price), -1);
}

#[test]
fn quantity_is_conserved() {
    let mut book = Book::new();
    book.match_single(&order(1, Side::ASK, "X", dec(10, 0), 3));
    book.match_single(&order(2, Side::ASK, "X", dec(11, 0), 4));
    book.match_single(&order(3, Side::ASK, "X", dec(12, 0), 5));
    for (id, quantity) in [(10u128, 2i64), (11, 6), (12, 50)] {
        let incoming = order(id, Side::BID, "X", dec(11, 0), quantity);
        let blotter = book.match_single(&incoming);
        assert_eq!(filled(&blotter.trades) + blotter.order.quantity, incoming.original_quantity);
        for t in &blotter.trades {
            assert!(t.fill_quantity > 0);
            assert_eq!(t.incoming_order_id, id);
        }
    }
}

#[test]
fn fill_price_is_the_price_of_the_resting_order() {
    let mut book = Book::new();
    book.match_single(&order(1, Side::ASK, "X", dec(10, 0), 3));
    book.match_single(&order(2, Side::ASK, "X", dec(105, 1), 3));
    let blotter = book.match_single(&order(3, Side::BID, "X", dec(20, 0), 5));
    assert_eq!(blotter.trades[0].fill_price, dec(10, 0));
    assert_eq!(blotter.trades[1].fill_price, dec(105, 1));
    let mut book = Book::new();
    book.match_single(&order(1, Side::BID, "X", dec(10, 0), 3));
    let blotter = book.match_single(&order(2, Side::ASK, "X", dec(1, 0), 3));
    assert_eq!(blotter.trades[0].fill_price, dec(10, 0));
}

#[test]
fn symbols_do_not_see_each_other() {
    let mut book = Book::new();
    book.match_single(&order(1, Side::BID, "X", dec(10, 0), 3));
    let blotter = book.match_single(&order(2, Side::ASK, "Y", dec(5, 0), 3));
    assert!(blotter.trades.is_empty());
    assert_eq!(depth(&book, "X").bids, vec![level(dec(10, 0), 3)]);
    assert_eq!(depth(&book, "Y").asks, vec![level(dec(5, 0), 3)]);
    let mut symbols = book.symbols();
    symbols.sort();
    assert_eq!(symbols, vec!["X".to_string(), "Y".to_string()]);
}

#[test]
fn a_match_on_an_unseen_symbol_makes_its_book() {
    let mut book = Book::new();
    let blotter = book.match_single(&{
        let mut o = order(1, Side::BID, "X", dec(10, 0), 3);
        o.set_quantity(0);
        o
    });
    assert!(blotter.trades.is_empty());
    let snapshot = book.snapshot("X", 5).unwrap();
    assert!(snapshot.bids.is_empty() && snapshot.asks.is_empty());
    assert!(book.get_order(1).is_none());
}

#[test]
fn cancel_removes_the_order_and_works_once() {
    let mut book = Book::new();
    book.match_single(&order(1, Side::BID, "X", dec(10, 0), 3));
    book.match_single(&order(2, Side::BID, "X", dec(10, 0), 4));
    assert_eq!(book.cancel(1), Ok(()));
    assert!(book.get_order(1).is_none());
    assert_eq!(depth(&book, "X").bids, vec![level(dec(10, 0), 4)]);
    assert_eq!(book.cancel(1), Err(EngineError::OrderNotFound(1)));
    assert_eq!(book.cancel(2), Ok(()));
    assert!(depth(&book, "X").bids.is_empty());
    assert_eq!(book.cancel(2), Err(EngineError::OrderNotFound(2)));
}

#[test]
fn cancel_of_a_filled_order_is_order_not_found() {
    let mut book = Book::new();
    book.match_single(&order(1, Side::BID, "X", dec(10, 0), 3));
    book.match_single(&order(2, Side::ASK, "X", dec(10, 0), 3));
    assert_eq!(book.cancel(1), Err(EngineError::OrderNotFound(1)));
    assert_eq!(book.cancel(2), Err(EngineError::OrderNotFound(2)));
}

#[test]
fn cancel_under_a_shared_id_takes_the_order_the_index_names() {
    let mut book = Book::new();
    // Two orders under one id: the index keeps only the place of the second.
    book.enqueue_order(&order(1, Side::BID, "X", dec(10, 0), 3));
    book.enqueue_order(&order(1, Side::ASK, "X", dec(20, 0), 4));
    assert_eq!(book.cancel(1), Ok(()));
    // The bid is still there, but the index no longer knows it.
    let snapshot = depth(&book, "X");
    assert_eq!(snapshot.bids, vec![level(dec(10, 0), 3)]);
    assert!(snapshot.asks.is_empty());
    assert_eq!(book.cancel(1), Err(EngineError::OrderNotFound(1)));
    assert!(book.get_order(1).is_none());
}

#[test]
fn cancel_never_finds_index_and_levels_apart() {
    let mut book = Book::new();
    // Ids are shared on purpose, so that the index covers only some orders.
    for round in 0..4u128 {
        for id in 1..6u128 {
            let side = if (id + round) % 2 == 0 { Side::BID } else { Side::ASK };
            let price = dec(10 + ((id * 7 + round * 3) % 5) as i128, 0);
            if round % 2 == 0 {
                book.enqueue_order(&order(id, side, "X", price, 3));
            } else {
                book.match_single(&order(id, side, "X", price, 2));
            }
        }
        for id in 1..8u128 {
            let held = book.locate(id).is_some();
            assert_eq!(book.get_order(id).is_some(), held);
            let result = book.cancel(id);
            if held {
                assert_eq!(result, Ok(()));
            } else {
                assert_eq!(result, Err(EngineError::OrderNotFound(id)));
            }
            assert_eq!(book.cancel(id), Err(EngineError::OrderNotFound(id)));
        }
    }
}

#[test]
fn get_order_gives_a_copy_with_what_is_left() {
    let mut book = Book::new();
    book.match_single(&order(1, Side::ASK, "X", dec(1000, 2), 10));
    book.match_single(&order(2, Side::BID, "X", dec(1000, 2), 4));
    let mut resting = book.get_order(1).unwrap();
    assert_eq!(resting.id, 1);
    assert_eq!(resting.quantity, 6);
    assert_eq!(resting.original_quantity, 10);
    assert_eq!(resting.side, Side::ASK);
    assert_eq!(resting.symbol, "X");
    assert_eq!(resting.price, dec(1000, 2));
    resting.set_quantity(1);
    assert_eq!(book.get_order(1).unwrap().quantity, 6);
    assert!(book.get_order(2).is_none());
    let place = book.locate(1).unwrap();
    assert_eq!(place.symbol, "X");
    assert_eq!(place.side, Side::ASK);
    assert_eq!(place.price, dec(1000, 2));
}

#[test]
fn get_level_gives_a_copy_of_the_queue() {
    let mut book = Book::new();
    book.match_single(&order(1, Side::BID, "X", dec(1000, 2), 3));
    book.match_single(&order(2, Side::BID, "X", dec(10, 0), 4));
    book.match_single(&order(3, Side::BID, "X", dec(9, 0), 5));
    let mut level = book.get_level("X", Side::BID, dec(100, 1)).unwrap();
    assert_eq!(level.side, Side::BID);
    assert_eq!(level.price(), dec(1000, 2));
    assert_eq!(level.orders.ids(), vec![1, 2]);
    assert_eq!(level.orders.get(2).unwrap().quantity, 4);
    assert_eq!(level.orders.get(2).unwrap().price, dec(10, 0));
    assert_eq!(level.orders.peek().unwrap().symbol, "X");
    level.orders.popleft().unwrap();
    assert_eq!(book.get_level("X", Side::BID, dec(10, 0)).unwrap().orders.len(), 2);
    assert!(book.get_level("X", Side::BID, dec(11, 0)).is_none());
    assert!(book.get_level("X", Side::ASK, dec(10, 0)).is_none());
    assert!(book.get_level("Y", Side::BID, dec(10, 0)).is_none());
}

#[test]
fn levels_lists_a_side_with_the_best_level_last() {
    let mut book = Book::new();
    book.match_single(&order(1, Side::ASK, "X", dec(12, 0), 3));
    book.match_single(&order(2, Side::ASK, "X", dec(11, 0), 4));
    book.match_single(&order(3, Side::ASK, "X", dec(12, 0), 5));
    let asks = book.levels("X", Side::ASK).unwrap();
    assert_eq!(asks.len(), 2);
    assert_eq!(asks[0].price(), dec(12, 0));
    assert_eq!(asks[0].orders.ids(), vec![1, 3]);
    assert_eq!(asks[1].price(), dec(11, 0));
    assert_eq!(asks[1].orders.ids(), vec![2]);
    assert!(book.levels("X", Side::BID).unwrap().is_empty());
    assert!(book.levels("Y", Side::ASK).is_none());
}

#[test]
fn index_and_levels_agree_after_a_mixed_run() {
    let mut book = Book::new();
    book.enqueue_order(&order(1, Side::BID, "X", dec(10, 0), 3));
    book.match_single(&order(2, Side::BID, "X", dec(11, 0), 4));
    book.match_single(&order(3, Side::ASK, "X", dec(12, 0), 5));
    book.match_single(&order(4, Side::ASK, "Y", dec(12, 0), 5));
    book.match_single(&order(5, Side::ASK, "X", dec(10, 0), 5));
    book.cancel(3).unwrap();
    let mut ids = book.order_ids();
    ids.sort();
    assert_eq!(ids, vec![1, 4]);
    for id in ids {
        let found = book.get_order(id).unwrap();
        assert_eq!(found.id, id);
        let place = book.locate(id).unwrap();
        assert_eq!(place.symbol, found.symbol);
        assert_eq!(place.side, found.side);
        assert!(place.price.same_value(&found.price));
    }
    let mut resting: Vec<u128> = Vec::new();
    for symbol in book.symbols() {
        for side in [Side::BID, Side::ASK] {
            for level in book.levels(&symbol, side).unwrap() {
                resting.extend(level.orders.ids());
            }
        }
    }
    resting.sort();
    assert_eq!(resting, vec![1, 4]);
    assert_eq!(book.get_order(1).unwrap().quantity, 2);
}

#[test]
fn enqueue_does_not_match_nor_check_for_crossing() {
    let mut book = Book::new();
    book.enqueue_order(&order(1, Side::BID, "X", dec(10, 0), 3));
    book.enqueue_order(&order(2, Side::ASK, "X", dec(8, 0), 3));
    let snapshot = depth(&book, "X");
    assert_eq!(snapshot.bids, vec![level(dec(10, 0), 3)]);
    assert_eq!(snapshot.asks, vec![level(dec(8, 0), 3)]);
    assert!(snapshot.spread.unwrap().same_value(&dec(-2, 0)));
}

#[test]
fn a_batch_is_matched_in_submission_order() {
    let mut book = Book::new();
    let blotters = book.match_all(&vec![
        order(1, Side::BID, "X", dec(10, 0), 5),
        order(2, Side::ASK, "X", dec(10, 0), 3),
        order(3, Side::ASK, "X", dec(9, 0), 4),
    ]);
    assert_eq!(blotters.len(), 3);
    assert!(blotters[0].trades.is_empty());
    assert_eq!(
        blotters[1].trades,
        vec![Trade { incoming_order_id: 2, standing_order_id: 1, fill_quantity: 3, fill_price: dec(10, 0) }]
    );
    assert_eq!(
        blotters[2].trades,
        vec![Trade { incoming_order_id: 3, standing_order_id: 1, fill_quantity: 2, fill_price: dec(10, 0) }]
    );
    assert_eq!(blotters[2].order.quantity, 2);
    let snapshot = depth(&book, "X");
    assert!(snapshot.bids.is_empty());
    assert_eq!(snapshot.asks, vec![level(dec(9, 0), 2)]);
    assert!(book.match_all(&vec![]).is_empty());
}

#[test]
fn enqueue_all_rests_every_order() {
    let mut book = Book::new();
    book.enqueue_all(&vec![
        order(1, Side::BID, "X", dec(10, 0), 5),
        order(2, Side::ASK, "X", dec(9, 0), 3),
        order(3, Side::BID, "X", dec(10, 0), 1),
    ]);
    let snapshot = depth(&book, "X");
    assert_eq!(snapshot.bids, vec![level(dec(10, 0), 6)]);
    assert_eq!(snapshot.asks, vec![level(dec(9, 0), 3)]);
}

#[test]
fn fill_takes_the_smaller_quantity_off_both() {
    let book = Book::new();
    let mut incoming = order(1, Side::BID, "X", dec(11, 0), 8);
    let mut standing = order(2, Side::ASK, "X", dec(10, 0), 5);
    let trade = book.fill(&mut incoming, &mut standing);
    assert_eq!(
        trade,
        Trade { incoming_order_id: 1, standing_order_id: 2, fill_quantity: 5, fill_price: dec(10, 0) }
    );
    assert_eq!(incoming.quantity, 3);
    assert_eq!(standing.quantity, 0);
    assert_eq!(incoming.original_quantity, 8);
    let mut small = order(3, Side::ASK, "X", dec(9, 0), 2);
    let mut big = order(4, Side::BID, "X", dec(12, 0), 9);
    let trade = book.fill(&mut small, &mut big);
    assert_eq!(trade.fill_quantity, 2);
    assert_eq!(trade.fill_price, dec(12, 0));
    assert_eq!(small.quantity, 0);
    assert_eq!(big.quantity, 7);
}

#[test]
fn snapshot_shows_at_most_depth_levels_best_first() {
    let mut book = Book::new();
    for (id, price) in [(1u128, 10i128), (2, 11), (3, 12), (4, 13)] {
        book.enqueue_order(&order(id, Side::BID, "X", dec(price, 0), 1));
        book.enqueue_order(&order(id + 10, Side::ASK, "X", dec(price + 10, 0), 2));
    }
    let snapshot = book.snapshot("X", 2).unwrap();
    assert_eq!(snapshot.bids().clone(), vec![level(dec(13, 0), 1), level(dec(12, 0), 1)]);
    assert_eq!(snapshot.asks().clone(), vec![level(dec(20, 0), 2), level(dec(21, 0), 2)]);
    assert!(snapshot.spread().unwrap().same_value(&dec(7, 0)));
    assert!(snapshot.midpoint().unwrap().same_value(&dec(165, 1)));
    assert!(snapshot.bid_vwap().unwrap().same_value(&dec(125, 1)));
    assert!(snapshot.ask_vwap().unwrap().same_value(&dec(205, 1)));
    for depth in 0..7isize {
        let s = book.snapshot("X", depth).unwrap();
        assert_eq!(s.bids.len(), (depth as usize).min(4));
        assert_eq!(s.asks.len(), (depth as usize).min(4));
    }
    assert_eq!(book.snapshot("X", DEFAULT_DEPTH).unwrap().bids.len(), 4);
}

#[test]
fn snapshot_of_depth_zero_or_less_is_empty() {
    let mut book = Book::new();
    book.enqueue_order(&order(1, Side::BID, "X", dec(10, 0), 1));
    book.enqueue_order(&order(2, Side::ASK, "X", dec(11, 0), 1));
    for depth in [0isize, -1, isize::MIN] {
        let snapshot = book.snapshot("X", depth).unwrap();
        assert!(snapshot.bids.is_empty());
        assert!(snapshot.asks.is_empty());
        assert_eq!(snapshot.spread, None);
        assert_eq!(snapshot.midpoint, None);
        assert_eq!(snapshot.bid_vwap, None);
        assert_eq!(snapshot.ask_vwap, None);
    }
}

#[test]
fn snapshot_with_one_side_has_no_spread() {
    let mut book = Book::new();
    book.enqueue_order(&order(1, Side::BID, "X", dec(10, 0), 2));
    let snapshot = book.snapshot("X", 3).unwrap();
    assert_eq!(snapshot.spread, None);
    assert_eq!(snapshot.midpoint, None);
    assert!(snapshot.bid_vwap.unwrap().same_value(&dec(10, 0)));
    assert_eq!(snapshot.ask_vwap, None);
}

#[test]
fn vwap_weighs_prices_by_quantity() {
    // (10 * 1 + 20 * 3) / 4 = 17.5
    let levels = vec![level(dec(10, 0), 1), level(dec(20, 0), 3)];
    assert!(compute_vwap(&levels).unwrap().same_value(&dec(175, 1)));
    assert_eq!(compute_vwap(&vec![]), None);
    assert_eq!(compute_vwap(&vec![level(dec(10, 0), 0)]), None);
    let too_many = vec![level(dec(1, 0), order_book::decimal::MAX_MANTISSA), level(dec(1, 0), 1)];
    assert_eq!(compute_vwap(&too_many), None);
    let one_too_large = vec![level(dec(1, 0), i128::MAX)];
    assert_eq!(compute_vwap(&one_too_large), None);
}

#[test]
fn snapshot_level_keeps_its_parts() {
    let l = SnapshotLevel::from_rust(dec(5, 1), 9);
    assert_eq!(l.price(), dec(5, 1));
    assert_eq!(l.quantity(), 9);
}
