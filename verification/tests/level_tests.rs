use order_book::level::{OneSide, OrderEntry};
use order_book::Decimal;

fn dec(mantissa: i128, scale: u32) -> Decimal {
    Decimal { mantissa, scale }
}

fn entry(id: u128, price: Decimal, quantity: i64) -> OrderEntry {
    OrderEntry { id, price, quantity, original_quantity: quantity }
}

fn prices(side: &OneSide) -> Vec<Decimal> {
    side.levels.iter().map(|level| level.price).collect()
}

fn ids(side: &OneSide, idx: usize) -> Vec<u128> {
    side.levels[idx].orders.iter().map(|order| order.id).collect()
}

#[test]
fn bids_are_kept_ascending_with_the_best_last() {
    let mut side = OneSide::new();
    side.insert(entry(1, dec(1000, 2), 1), true);
    side.insert(entry(2, dec(1200, 2), 1), true);
    side.insert(entry(3, dec(1100, 2), 1), true);
    side.insert(entry(4, dec(900, 2), 1), true);
    assert_eq!(prices(&side), vec![dec(900, 2), dec(1000, 2), dec(1100, 2), dec(1200, 2)]);
    assert_eq!(side.len(), 4);
}

#[test]
fn asks_are_kept_descending_with_the_best_last() {
    let mut side = OneSide::new();
    side.insert(entry(1, dec(1000, 2), 1), false);
    side.insert(entry(2, dec(1200, 2), 1), false);
    side.insert(entry(3, dec(1100, 2), 1), false);
    side.insert(entry(4, dec(900, 2), 1), false);
    assert_eq!(prices(&side), vec![dec(1200, 2), dec(1100, 2), dec(1000, 2), dec(900, 2)]);
}

#[test]
fn orders_at_one_price_share_a_level_in_arrival_order() {
    let mut side = OneSide::new();
    side.insert(entry(1, dec(1000, 2), 1), true);
    side.insert(entry(2, dec(10, 0), 1), true);
    side.insert(entry(3, dec(100, 1), 1), true);
    assert_eq!(side.len(), 1);
    // The level keeps the price as the first order wrote it.
    assert_eq!(prices(&side), vec![dec(1000, 2)]);
    assert_eq!(ids(&side, 0), vec![1, 2, 3]);
}

#[test]
fn find_level_gives_the_place_or_the_insertion_point() {
    let mut side = OneSide::new();
    assert_eq!(side.find_level(dec(5, 0), true), Err(0));
    side.insert(entry(1, dec(10, 0), 1), true);
    side.insert(entry(2, dec(20, 0), 1), true);
    side.insert(entry(3, dec(30, 0), 1), true);
    assert_eq!(side.find_level(dec(10, 0), true), Ok(0));
    assert_eq!(side.find_level(dec(200, 1), true), Ok(1));
    assert_eq!(side.find_level(dec(30, 0), true), Ok(2));
    assert_eq!(side.find_level(dec(5, 0), true), Err(0));
    assert_eq!(side.find_level(dec(15, 0), true), Err(1));
    assert_eq!(side.find_level(dec(25, 0), true), Err(2));
    assert_eq!(side.find_level(dec(35, 0), true), Err(3));

    let mut asks = OneSide::new();
    asks.insert(entry(1, dec(10, 0), 1), false);
    asks.insert(entry(2, dec(20, 0), 1), false);
    asks.insert(entry(3, dec(30, 0), 1), false);
    assert_eq!(asks.find_level(dec(30, 0), false), Ok(0));
    assert_eq!(asks.find_level(dec(10, 0), false), Ok(2));
    assert_eq!(asks.find_level(dec(35, 0), false), Err(0));
    assert_eq!(asks.find_level(dec(25, 0), false), Err(1));
    assert_eq!(asks.find_level(dec(5, 0), false), Err(3));
}

#[test]
fn remove_order_takes_the_order_and_an_emptied_level() {
    let mut side = OneSide::new();
    side.insert(entry(1, dec(10, 0), 1), true);
    side.insert(entry(2, dec(10, 0), 1), true);
    side.insert(entry(3, dec(20, 0), 1), true);
    assert!(side.remove_order(dec(10, 0), 1, true));
    assert_eq!(side.len(), 2);
    assert_eq!(ids(&side, 0), vec![2]);
    assert!(side.remove_order(dec(100, 1), 2, true));
    assert_eq!(prices(&side), vec![dec(20, 0)]);
    assert!(side.remove_order(dec(20, 0), 3, true));
    assert_eq!(side.len(), 0);
}

#[test]
fn remove_order_fails_without_changing_the_side() {
    let mut side = OneSide::new();
    side.insert(entry(1, dec(10, 0), 1), true);
    // No level at that price.
    assert!(!side.remove_order(dec(11, 0), 1, true));
    // A level, but no such order in it.
    assert!(!side.remove_order(dec(10, 0), 2, true));
    assert_eq!(side.len(), 1);
    assert_eq!(ids(&side, 0), vec![1]);
}

#[test]
fn level_quantity_and_best_levels_aggregate() {
    let mut side = OneSide::new();
    side.insert(entry(1, dec(10, 0), 4), true);
    side.insert(entry(2, dec(10, 0), 6), true);
    side.insert(entry(3, dec(20, 0), i64::MAX), true);
    side.insert(entry(4, dec(20, 0), i64::MAX), true);
    assert_eq!(side.level_quantity(0), 10);
    assert_eq!(side.level_quantity(1), 2 * (i64::MAX as i128));
    let best = side.best_levels(1);
    assert_eq!(best.len(), 1);
    assert_eq!(best[0].price, dec(20, 0));
    assert_eq!(best[0].quantity, 2 * (i64::MAX as i128));
    let all = side.best_levels(9);
    assert_eq!(all.len(), 2);
    assert_eq!(all[1].price, dec(10, 0));
    assert_eq!(all[1].quantity, 10);
    assert!(side.best_levels(0).is_empty());
}
