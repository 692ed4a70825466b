use order_book::{
    validate_records, Book, Decimal, EngineError, OrderRecord, RecordError, Rejection, Side,
    SnapshotLevel,
};

fn dec(mantissa: i128, scale: u32) -> Decimal {
    Decimal { mantissa, scale }
}

fn record(side: &str, symbol: &str, price: &str, quantity: i64) -> OrderRecord {
    OrderRecord {
        side: side.to_string(),
        symbol: symbol.to_string(),
        price: price.to_string(),
        quantity,
    }
}

fn refused(row: usize, why: Rejection) -> RecordError {
    RecordError { row, error: EngineError::InvalidOrder(why) }
}

#[test]
fn a_valid_record_becomes_an_order() {
    let order = record("Bid", "X", "10.50", 3).to_order().unwrap();
    assert_eq!(order.side, Side::BID);
    assert_eq!(order.symbol, "X");
    assert_eq!(order.price, dec(1050, 2));
    assert_eq!(order.quantity, 3);
    assert_eq!(order.original_quantity, 3);
}

#[test]
fn a_record_is_refused_for_the_first_thing_wrong_with_it() {
    let why = |r: OrderRecord| r.to_order().unwrap_err();
    assert_eq!(why(record("buy", "", "x", 0)), EngineError::InvalidOrder(Rejection::Side));
    assert_eq!(why(record("bid", "", "x", 0)), EngineError::InvalidOrder(Rejection::Symbol));
    assert_eq!(why(record("bid", "X", "x", 0)), EngineError::InvalidOrder(Rejection::Quantity));
    assert_eq!(why(record("bid", "X", "x", 1)), EngineError::InvalidOrder(Rejection::Price));
    assert_eq!(why(record("ask", "X", "1", -1)), EngineError::InvalidOrder(Rejection::Quantity));
}

#[test]
fn validation_names_the_first_bad_row() {
    let records = vec![
        record("bid", "X", "10", 1),
        record("ask", "X", "11", 1),
        record("ask", "", "11", 1),
        record("sell", "X", "11", 1),
    ];
    assert_eq!(validate_records(&records).unwrap_err(), refused(2, Rejection::Symbol));
    let orders = validate_records(&records[..2].iter().map(|r| record(&r.side, &r.symbol, &r.price, r.quantity)).collect()).unwrap();
    assert_eq!(orders.len(), 2);
    assert_eq!(orders[1].side, Side::ASK);
    assert!(validate_records(&vec![]).unwrap().is_empty());
}

#[test]
fn replay_matches_the_records_in_order() {
    let mut book = Book::new();
    let blotters = book
        .replay(&vec![
            record("bid", "X", "10.00", 5),
            record("ask", "X", "9.00", 8),
            record("BID", "X", "9.50", 1),
        ])
        .unwrap();
    assert_eq!(blotters.len(), 3);
    assert!(blotters[0].trades.is_empty());
    assert_eq!(blotters[1].trades.len(), 1);
    assert_eq!(blotters[1].trades[0].fill_quantity, 5);
    assert_eq!(blotters[1].trades[0].fill_price, dec(1000, 2));
    assert_eq!(blotters[1].trades[0].standing_order_id, blotters[0].order.id);
    assert_eq!(blotters[1].order.quantity, 3);
    assert_eq!(blotters[2].trades.len(), 1);
    assert_eq!(blotters[2].trades[0].fill_price, dec(900, 2));
    let snapshot = book.snapshot("X", 5).unwrap();
    assert!(snapshot.bids.is_empty());
    assert_eq!(snapshot.asks, vec![SnapshotLevel { price: dec(900, 2), quantity: 2 }]);
}

#[test]
fn replay_with_a_bad_row_leaves_the_book_alone() {
    let mut book = Book::new();
    book.replay(&vec![record("bid", "X", "10", 5)]).unwrap();
    let error = book
        .replay(&vec![record("ask", "X", "9", 2), record("ask", "X", "nine", 2)])
        .unwrap_err();
    assert_eq!(error, refused(1, Rejection::Price));
    let snapshot = book.snapshot("X", 5).unwrap();
    assert_eq!(snapshot.bids, vec![SnapshotLevel { price: dec(10, 0), quantity: 5 }]);
    assert!(snapshot.asks.is_empty());
}

#[test]
fn ingest_rests_the_records_without_matching() {
    let mut book = Book::new();
    let count = book
        .ingest(&vec![record("bid", "X", "10", 5), record("ask", "X", "9", 2)])
        .unwrap();
    assert_eq!(count, 2);
    let snapshot = book.snapshot("X", 5).unwrap();
    assert_eq!(snapshot.bids, vec![SnapshotLevel { price: dec(10, 0), quantity: 5 }]);
    assert_eq!(snapshot.asks, vec![SnapshotLevel { price: dec(9, 0), quantity: 2 }]);
    assert_eq!(book.order_ids().len(), 2);
    let error = book
        .ingest(&vec![record("bid", "Y", "10", 5), record("bid", "Y", "10", 0)])
        .unwrap_err();
    assert_eq!(error, refused(1, Rejection::Quantity));
    assert!(book.snapshot("Y", 5).is_none());
}

#[test]
fn from_records_builds_a_loaded_book() {
    let book = Book::from_records(&vec![record("ask", "X", "9.5", 2)]).ok().unwrap();
    assert_eq!(
        book.snapshot("X", 1).unwrap().asks,
        vec![SnapshotLevel { price: dec(95, 1), quantity: 2 }]
    );
    let error = Book::from_records(&vec![record("hold", "X", "9.5", 2)]).err().unwrap();
    assert_eq!(error, refused(0, Rejection::Side));
}
