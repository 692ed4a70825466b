use order_book::trade::{OrderQueue, PriceLevel};
use order_book::{
    compute_blotter_stats, Decimal, EngineError, Order, Side, Trade, TradeBlotter,
};

fn dec(mantissa: i128, scale: u32) -> Decimal {
    Decimal { mantissa, scale }
}

fn order(id: u128, quantity: i64) -> Order {
    Order::from_parts(id, Side::BID, "X".to_string(), dec(1000, 2), quantity).unwrap()
}

fn trade(price: Decimal, quantity: i64) -> Trade {
    Trade::from_rust(1, 2, quantity, price)
}

#[test]
fn trade_keeps_its_parts() {
    let t = Trade::from_rust(11, 22, 5, dec(995, 2));
    assert_eq!(t.incoming_order_id(), 11);
    assert_eq!(t.standing_order_id(), 22);
    assert_eq!(t.fill_quantity(), 5);
    assert_eq!(t.fill_price(), dec(995, 2));
}

#[test]
fn stats_of_no_trades_are_zero() {
    let (total, average) = compute_blotter_stats(&vec![]);
    assert_eq!(total, Some(dec(0, 0)));
    assert_eq!(average, Some(dec(0, 0)));
}

#[test]
fn total_cost_is_the_sum_of_price_times_quantity() {
    let trades = vec![trade(dec(1000, 2), 3), trade(dec(1050, 2), 2)];
    let (total, average) = compute_blotter_stats(&trades);
    // 10.00 * 3 + 10.50 * 2 = 51.00
    assert!(total.unwrap().same_value(&dec(5100, 2)));
    // (10.00 + 10.50) / 2 = 10.25, whatever the quantities.
    assert!(average.unwrap().same_value(&dec(1025, 2)));
}

#[test]
fn stats_are_rounded_to_two_places_half_away_from_zero() {
    // 1.005 * 1 = 1.005, which rounds to 1.01 and not to 1.00.
    let (total, average) = compute_blotter_stats(&vec![trade(dec(1005, 3), 1)]);
    assert_eq!(total, Some(dec(101, 2)));
    assert_eq!(average, Some(dec(101, 2)));
    // 1.004 rounds down, 1.006 rounds up.
    assert_eq!(compute_blotter_stats(&vec![trade(dec(1004, 3), 1)]).0, Some(dec(100, 2)));
    assert_eq!(compute_blotter_stats(&vec![trade(dec(1006, 3), 1)]).0, Some(dec(101, 2)));
    // Mean of 10.00 and 10.01 is 10.005, which rounds to 10.01.
    let (_, mean) = compute_blotter_stats(&vec![trade(dec(1000, 2), 1), trade(dec(1001, 2), 1)]);
    assert_eq!(mean, Some(dec(1001, 2)));
    // A third: 10 / 3 = 3.333..., which rounds to 3.33.
    let thirds = vec![trade(dec(1, 0), 1), trade(dec(2, 0), 1), trade(dec(7, 0), 1)];
    assert_eq!(compute_blotter_stats(&thirds).1, Some(dec(333, 2)));
}

#[test]
fn stats_that_do_not_fit_a_decimal_are_absent() {
    let huge = Decimal { mantissa: order_book::decimal::MAX_MANTISSA, scale: 0 };
    let (total, average) = compute_blotter_stats(&vec![trade(huge, 2), trade(huge, 1)]);
    assert_eq!(total, None);
    assert_eq!(average, None);
}

#[test]
fn blotter_holds_order_trades_and_stats() {
    let trades = vec![trade(dec(1000, 2), 4)];
    let blotter = TradeBlotter::from_rust(order(7, 6), trades.clone());
    assert_eq!(blotter.order().id, 7);
    assert_eq!(blotter.order().quantity, 6);
    assert_eq!(blotter.trades(), &trades);
    assert!(blotter.total_cost().unwrap().same_value(&dec(40, 0)));
    assert!(blotter.average_price().unwrap().same_value(&dec(10, 0)));
    let same = TradeBlotter::new(order(7, 6), trades);
    assert_eq!(same.total_cost, blotter.total_cost);
    assert_eq!(same.average_price, blotter.average_price);
}

#[test]
fn queue_is_first_in_first_out() {
    let mut queue = OrderQueue::new();
    assert!(queue.is_empty());
    queue.append_order(order(1, 5));
    queue.append_order(order(2, 6));
    queue.append_order(order(3, 7));
    assert_eq!(queue.len(), 3);
    assert!(!queue.is_empty());
    assert_eq!(queue.ids(), vec![1, 2, 3]);
    assert_eq!(queue.peek().unwrap().id, 1);
    assert_eq!(queue.popleft(), Ok(()));
    assert_eq!(queue.peek().unwrap().id, 2);
    assert_eq!(queue.ids(), vec![2, 3]);
}

#[test]
fn empty_queue_access_is_an_error() {
    let mut queue = OrderQueue::new();
    assert_eq!(queue.peek().unwrap_err(), EngineError::EmptyQueueAccess);
    assert_eq!(queue.popleft(), Err(EngineError::EmptyQueueAccess));
    assert_eq!(queue.len(), 0);
}

#[test]
fn queue_lookup_and_removal_by_id() {
    let mut queue = OrderQueue::new();
    queue.append_order(order(1, 5));
    queue.append_order(order(2, 6));
    queue.append_order(order(3, 7));
    assert!(queue.contains(2));
    assert!(!queue.contains(4));
    assert_eq!(queue.position(3), Some(2));
    assert_eq!(queue.position(9), None);
    assert_eq!(queue.get(2).unwrap().quantity, 6);
    assert_eq!(queue.get(9).unwrap_err(), EngineError::OrderNotFound(9));
    let taken = queue.pop(2).unwrap();
    assert_eq!(taken.id, 2);
    assert_eq!(taken.quantity, 6);
    assert_eq!(queue.ids(), vec![1, 3]);
    assert_eq!(queue.pop(2).unwrap_err(), EngineError::OrderNotFound(2));
    assert_eq!(queue.ids(), vec![1, 3]);
}

#[test]
fn queue_removal_takes_the_first_of_two_with_one_id() {
    let mut queue = OrderQueue::new();
    queue.append_order(order(1, 5));
    queue.append_order(order(1, 9));
    assert_eq!(queue.get(1).unwrap().quantity, 5);
    assert_eq!(queue.pop(1).unwrap().quantity, 5);
    assert_eq!(queue.get(1).unwrap().quantity, 9);
}

#[test]
fn price_level_starts_empty_and_compares_by_side() {
    let level = PriceLevel::from_rust(Side::BID, dec(1000, 2));
    assert_eq!(level.price(), dec(1000, 2));
    assert_eq!(level.side, Side::BID);
    assert!(level.orders.is_empty());
    let lower = PriceLevel::from_rust(Side::BID, dec(900, 2));
    assert!(level.lt(&lower));
    assert!(!lower.lt(&level));
    assert!(level.lt(&level));
    let ask_low = PriceLevel::from_rust(Side::ASK, dec(900, 2));
    let ask_high = PriceLevel::from_rust(Side::ASK, dec(1000, 2));
    assert!(ask_low.lt(&ask_high));
    assert!(!ask_high.lt(&ask_low));
}
