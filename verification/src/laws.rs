//! The laws of the engine, stated over the mathematical model and proved.

use crate::book::BookView;
use crate::consistency::{lemma_insert_resting, lemma_remove_resting};
use crate::error::EngineError;
use crate::level::{
    has_level, insert_spec, lemma_rank_splits, precedes, rank, remove_spec, side_wf, LevelView,
    OrderEntry,
};
use crate::matching::{fills_in_order, lemma_sweep_levels, priority_order, sweep_levels};
use crate::order::{OrderView, Side};
use crate::snapshot::{depth_view, snapshot_of, SnapshotLevel};
use crate::trade::filled_quantity;
use vstd::prelude::*;

verus! {

/// Quantity is conserved: what the trades of a match filled and what is left
/// of the incoming order add up to what the order came with. For an order
/// that comes with its original quantity, they add up to that.
pub proof fn law_quantity_conservation(book: BookView, order: OrderView)
    requires
        book.wf(),
        order.wf(),
    ensures
        filled_quantity(book.submit(order).trades) + book.submit(order).remaining
            == order.quantity,
        0 <= book.submit(order).remaining <= order.quantity,
        order.quantity == order.original_quantity ==> filled_quantity(book.submit(order).trades)
            + book.submit(order).remaining == order.original_quantity,
{
    let levels = book.book_of(order.symbol).side(order.side.opposite());
    lemma_sweep_levels(levels, order.side, order.id, order.price, order.quantity as int);
}

/// An order that comes to rest joins the back of the queue at its price: the
/// orders that rested at that price before are ahead of it, in the order they
/// were in, and every other level is as it was.
pub proof fn law_arrival_at_the_back(levels: Seq<LevelView>, ascending: bool, entry: OrderEntry)
    requires
        side_wf(levels, ascending),
        entry.wf(),
    ensures
        ({
            let after = insert_spec(levels, ascending, entry);
            let i = rank(levels, ascending, entry.price);
            &&& 0 <= i < after.len()
            &&& after[i].orders.last() == entry
            &&& after[i].price.units() == entry.price.units()
            &&& if has_level(levels, ascending, entry.price) {
                &&& after.len() == levels.len()
                &&& after[i].orders.drop_last() == levels[i].orders
                &&& forall|j: int| 0 <= j < levels.len() && j != i ==> after[j] == levels[j]
            } else {
                &&& after.len() == levels.len() + 1
                &&& after[i].orders.len() == 1
                &&& forall|j: int| 0 <= j < i ==> after[j] == levels[j]
                &&& forall|j: int| i <= j < levels.len() ==> after[j + 1] == levels[j]
            }
        }),
{
    lemma_rank_splits(levels, ascending, entry.price, 0);
    let after = insert_spec(levels, ascending, entry);
    let i = rank(levels, ascending, entry.price);
    if has_level(levels, ascending, entry.price) {
        assert(after[i].orders.drop_last() =~= levels[i].orders);
    }
}

/// Price-time priority: the trades of a match are fills of the resting orders
/// of the opposite side in priority order, the best price first and within a
/// price the oldest order first. The first trade is with the first of them,
/// the second with the second, and so on; every trade but the last fills its
/// resting order completely, so that no order is touched before all that come
/// before it are gone.
pub proof fn law_price_time_priority(book: BookView, order: OrderView)
    requires
        book.wf(),
        order.wf(),
    ensures
        fills_in_order(
            book.submit(order).trades,
            priority_order(book.book_of(order.symbol).side(order.side.opposite())),
            order.side,
            order.id,
            order.price,
        ),
{
    let levels = book.book_of(order.symbol).side(order.side.opposite());
    lemma_sweep_levels(levels, order.side, order.id, order.price, order.quantity as int);
}

/// Every trade is at the price of the order that was resting: the fill price
/// of the trade with a resting order is, as a number, that order's price.
pub proof fn law_fill_price_is_resting_price(book: BookView, order: OrderView)
    requires
        book.wf(),
        order.wf(),
    ensures
        ({
            let trades = book.submit(order).trades;
            let resting = priority_order(
                book.book_of(order.symbol).side(order.side.opposite()),
            );
            &&& trades.len() <= resting.len()
            &&& forall|t: int|
                0 <= t < trades.len() ==> (#[trigger] trades[t]).standing_order_id == resting[t].id
                    && trades[t].fill_price.units() == resting[t].price.units()
        }),
{
    let levels = book.book_of(order.symbol).side(order.side.opposite());
    lemma_sweep_levels(levels, order.side, order.id, order.price, order.quantity as int);
}

/// The best price of a side after an order has joined it is the better of
/// the old best price and the order's price.
pub proof fn lemma_best_after_insert(levels: Seq<LevelView>, ascending: bool, entry: OrderEntry)
    requires
        side_wf(levels, ascending),
        entry.wf(),
    ensures
        ({
            let after = insert_spec(levels, ascending, entry);
            &&& after.len() > 0
            &&& after.last().price.units() == entry.price.units() || (levels.len() > 0
                && after.last().price.units() == levels.last().price.units())
        }),
{
    lemma_rank_splits(levels, ascending, entry.price, 0);
}

/// No crossing after a match: where the book of the order's symbol was not
/// crossed before the order was submitted, it is not crossed after. The best
/// bid is below the best ask whenever both sides have orders.
pub proof fn law_no_crossing_after_match(book: BookView, order: OrderView)
    requires
        book.wf(),
        order.wf(),
        book.book_of(order.symbol).uncrossed(),
    ensures
        book.submit(order).book.books.contains_key(order.symbol),
        book.submit(order).book.books[order.symbol].uncrossed(),
        book.submit(order).book.books[order.symbol].wf(),
{
    let old_book = book.book_of(order.symbol);
    let opposite = order.side.opposite();
    let levels = old_book.side(opposite);
    lemma_sweep_levels(levels, order.side, order.id, order.price, order.quantity as int);
    let out = sweep_levels(levels, order.side, order.id, order.price, order.quantity as int);
    let swept = book.sweep(order.id, order.price, order.side, order.quantity as int, order.symbol);
    let mid = swept.book.books[order.symbol];
    assert(mid == old_book.with_side(opposite, out.levels));
    if out.levels.len() > 0 {
        let last = out.levels.len() - 1;
        assert(out.levels[last].price == levels[last].price);
        if last < levels.len() - 1 {
            assert(precedes(opposite.ascending(), levels[last].price, levels[levels.len() - 1].price));
        }
    }
    assert(mid.uncrossed());
    if swept.remaining > 0 {
        let rest = order.with_quantity(swept.remaining as i64);
        let own = mid.side(order.side);
        assert(own == old_book.side(order.side));
        let entry = OrderEntry::of(rest);
        lemma_best_after_insert(own, order.side.ascending(), entry);
        crate::level::lemma_insert_keeps_wf(own, order.side.ascending(), entry);
        let after = swept.book.enqueue(rest).books[order.symbol];
        assert(swept.book.book_of(order.symbol) == mid);
        assert(after == mid.with_side(
            order.side,
            insert_spec(own, order.side.ascending(), entry),
        ));
    }
}

/// A cancelled id is gone: whatever a cancellation of an id returned, a second
/// cancellation of the same id fails with `OrderNotFound`.
pub proof fn law_cancel_is_single_use(book: BookView, id: u128)
    ensures
        !book.cancel(id).book.index.contains_key(id),
        book.cancel(id).book.cancel(id).result == Err::<(), EngineError>(
            EngineError::OrderNotFound(id),
        ),
        book.cancel(id).book.cancel(id).book == book.cancel(id).book,
{
}

/// A snapshot shows no more levels than its depth, and no more than there
/// are; a depth of zero or less shows none, and then there is no spread, no
/// midpoint and no average price.
pub proof fn law_snapshot_depth_bound(bids: Seq<LevelView>, asks: Seq<LevelView>, depth: int)
    ensures
        depth >= 0 ==> snapshot_of(bids, asks, depth).bids.len() <= depth && snapshot_of(
            bids,
            asks,
            depth,
        ).asks.len() <= depth,
        snapshot_of(bids, asks, depth).bids.len() <= bids.len(),
        snapshot_of(bids, asks, depth).asks.len() <= asks.len(),
        depth <= 0 ==> {
            &&& snapshot_of(bids, asks, depth).bids == Seq::<SnapshotLevel>::empty()
            &&& snapshot_of(bids, asks, depth).asks == Seq::<SnapshotLevel>::empty()
            &&& snapshot_of(bids, asks, depth).spread is None
            &&& snapshot_of(bids, asks, depth).midpoint is None
            &&& snapshot_of(bids, asks, depth).bid_vwap is None
            &&& snapshot_of(bids, asks, depth).ask_vwap is None
        },
{
    if depth <= 0 {
        assert(depth_view(bids, depth) =~= Seq::<SnapshotLevel>::empty());
        assert(depth_view(asks, depth) =~= Seq::<SnapshotLevel>::empty());
    }
}

/// Every order has a quantity above zero.
pub open spec fn all_positive(orders: Seq<OrderEntry>) -> bool {
    forall|k: int| 0 <= k < orders.len() ==> (#[trigger] orders[k]).quantity > 0
}

impl BookView {
    /// Every resting order has a quantity above zero.
    pub open spec fn positive(self) -> bool {
        forall|symbol: Seq<char>, side: Side| all_positive(#[trigger] self.resting(symbol, side))
    }
}

/// Trades are not empty: where every resting order has a quantity above zero,
/// every trade of a match fills a quantity above zero, and every resting
/// order still has a quantity above zero after the match.
pub proof fn law_fills_are_positive(book: BookView, order: OrderView)
    requires
        book.wf(),
        book.positive(),
        order.wf(),
    ensures
        forall|t: int|
            0 <= t < book.submit(order).trades.len() ==> (#[trigger] book.submit(
                order,
            ).trades[t]).fill_quantity > 0,
        book.submit(order).book.positive(),
{
    let opposite = order.side.opposite();
    let old_book = book.book_of(order.symbol);
    assert(old_book.wf());
    let levels = old_book.side(opposite);
    let qty = order.quantity as int;
    lemma_sweep_levels(levels, order.side, order.id, order.price, qty);
    let out = sweep_levels(levels, order.side, order.id, order.price, qty);
    let swept = book.sweep(order.id, order.price, order.side, qty, order.symbol);
    let before = priority_order(levels);
    let left = priority_order(out.levels);
    let gone = before.len() - left.len();
    assert(book.resting(order.symbol, opposite) == before);
    assert(all_positive(before));
    assert forall|t: int| 0 <= t < out.trades.len() implies (#[trigger] out.trades[t]).fill_quantity
        > 0 by {
        assert(before[t].quantity > 0);
    }
    assert(swept.book.book_of(order.symbol) == old_book.with_side(opposite, out.levels));
    assert forall|symbol: Seq<char>, side: Side| all_positive(
        #[trigger] swept.book.resting(symbol, side),
    ) by {
        if symbol == order.symbol && side == opposite {
            assert forall|k: int| 0 <= k < left.len() implies (#[trigger] left[k]).quantity > 0 by {
                assert(before[gone + k].quantity > 0);
                if k > 0 {
                    assert(left[k] == before[gone + k]);
                }
            }
        } else {
            if symbol != order.symbol {
                assert(swept.book.book_of(symbol) == book.book_of(symbol));
            }
            assert(swept.book.resting(symbol, side) == book.resting(symbol, side));
        }
    }
    if swept.remaining > 0 {
        crate::consistency::law_sweep_keeps_book_well_formed(
            book,
            order.id,
            order.price,
            order.side,
            qty,
            order.symbol,
        );
        law_enqueue_keeps_quantities_positive(
            swept.book,
            order.with_quantity(swept.remaining as i64),
        );
    }
}

/// Where every resting order has a quantity above zero, so it is after an
/// order with a quantity above zero has been put to rest.
pub proof fn law_enqueue_keeps_quantities_positive(book: BookView, order: OrderView)
    requires
        book.wf(),
        book.positive(),
        order.quantity > 0,
    ensures
        book.enqueue(order).positive(),
{
    let after = book.enqueue(order);
    let entry = OrderEntry::of(order);
    let old_book = book.book_of(order.symbol);
    assert(old_book.wf());
    let levels = old_book.side(order.side);
    let before = priority_order(levels);
    let m = lemma_insert_resting(levels, order.side.ascending(), entry);
    assert(after.book_of(order.symbol) == old_book.with_side(
        order.side,
        insert_spec(levels, order.side.ascending(), entry),
    ));
    assert(book.resting(order.symbol, order.side) == before);
    assert forall|symbol: Seq<char>, side: Side| all_positive(
        #[trigger] after.resting(symbol, side),
    ) by {
        if symbol == order.symbol && side == order.side {
            let now = before.insert(m, entry);
            assert forall|k: int| 0 <= k < now.len() implies (#[trigger] now[k]).quantity > 0 by {
                if k < m {
                    assert(now[k] == before[k]);
                } else if k > m {
                    assert(now[k] == before[k - 1]);
                }
            }
        } else {
            if symbol != order.symbol {
                assert(after.book_of(symbol) == book.book_of(symbol));
            }
            assert(after.resting(symbol, side) == book.resting(symbol, side));
        }
    }
}

/// Where every resting order has a quantity above zero, so it is after a
/// cancellation.
pub proof fn law_cancel_keeps_quantities_positive(book: BookView, id: u128)
    requires
        book.wf(),
        book.positive(),
    ensures
        book.cancel(id).book.positive(),
{
    let after = book.cancel(id).book;
    if book.index.contains_key(id) && book.books.contains_key(book.index[id].symbol) {
        let place = book.index[id];
        let old_book = book.books[place.symbol];
        assert(old_book.wf());
        let levels = old_book.side(place.side);
        let before = priority_order(levels);
        assert(book.resting(place.symbol, place.side) == before);
        if remove_spec(levels, place.side.ascending(), place.price, id) is Some {
            let m = lemma_remove_resting(levels, place.side.ascending(), place.price, id);
            let kept = remove_spec(levels, place.side.ascending(), place.price, id).unwrap();
            assert(after.book_of(place.symbol) == old_book.with_side(place.side, kept));
            assert forall|symbol: Seq<char>, side: Side| all_positive(
                #[trigger] after.resting(symbol, side),
            ) by {
                if symbol == place.symbol && side == place.side {
                    let now = before.remove(m);
                    assert forall|k: int| 0 <= k < now.len() implies (#[trigger] now[k]).quantity
                        > 0 by {
                        if k < m {
                            assert(now[k] == before[k]);
                        } else {
                            assert(now[k] == before[k + 1]);
                        }
                    }
                } else {
                    if symbol != place.symbol {
                        assert(after.book_of(symbol) == book.book_of(symbol));
                    }
                    assert(after.resting(symbol, side) == book.resting(symbol, side));
                }
            }
        } else {
            assert forall|symbol: Seq<char>, side: Side| all_positive(
                #[trigger] after.resting(symbol, side),
            ) by {
                assert(after.resting(symbol, side) == book.resting(symbol, side));
            }
        }
    } else {
        assert forall|symbol: Seq<char>, side: Side| all_positive(
            #[trigger] after.resting(symbol, side),
        ) by {
            assert(after.resting(symbol, side) == book.resting(symbol, side));
        }
    }
}

} // verus!
