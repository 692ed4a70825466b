//! The identity index and the level storage agree.
//!
//! Two things are stated and proved here. First, every id in the index
//! resolves: the level that the index names holds an order with that id. The
//! engine keeps this whatever it is given, so a cancellation never finds the
//! index and the levels apart. Second, where no two orders are ever sent in
//! under one id, the index is consistent with the levels: every id in the
//! index names a side on which exactly one order with that id rests, and
//! every resting order is in the index under its id, with the symbol, the
//! side and the price where it rests. Enqueueing, submitting and cancelling
//! keep both.

use crate::book::{BookView, LocationView, SymbolBookView};
use crate::decimal::Decimal;
use crate::error::EngineError;
use crate::level::{
    has_level, index_of_id, insert_spec, lemma_index_of_id, lemma_rank_splits, rank, remove_spec,
    side_wf, LevelView, OrderEntry,
};
use crate::matching::{lemma_sweep_levels, priority_order, sweep_levels};
use crate::order::{OrderView, Side};
use vstd::prelude::*;

verus! {

/// The number of orders with `id` among `orders`.
pub open spec fn count_id(orders: Seq<OrderEntry>, id: u128) -> int
    decreases orders.len(),
{
    if orders.len() == 0 {
        0
    } else {
        count_id(orders.drop_last(), id) + if orders.last().id == id {
            1int
        } else {
            0int
        }
    }
}

/// The count of two runs of orders joined is the sum of the two counts.
pub proof fn lemma_count_concat(a: Seq<OrderEntry>, b: Seq<OrderEntry>, id: u128)
    ensures
        count_id(a + b, id) == count_id(a, id) + count_id(b, id),
    decreases b.len(),
{
    if b.len() == 0 {
        assert(a + b =~= a);
    } else {
        assert((a + b).drop_last() =~= a + b.drop_last());
        assert((a + b).last() == b.last());
        lemma_count_concat(a, b.drop_last(), id);
    }
}

/// The count is zero exactly when no order has the id, and it is at least
/// the number of positions known to hold the id.
pub proof fn lemma_count_facts(orders: Seq<OrderEntry>, id: u128)
    ensures
        0 <= count_id(orders, id) <= orders.len(),
        (forall|k: int| 0 <= k < orders.len() ==> (#[trigger] orders[k]).id != id) ==> count_id(
            orders,
            id,
        ) == 0,
        forall|k: int|
            0 <= k < orders.len() && (#[trigger] orders[k]).id == id ==> count_id(orders, id) >= 1,
        forall|j: int, k: int|
            0 <= j < k < orders.len() && (#[trigger] orders[j]).id == id && (
            #[trigger] orders[k]).id == id ==> count_id(orders, id) >= 2,
    decreases orders.len(),
{
    if orders.len() > 0 {
        let front = orders.drop_last();
        lemma_count_facts(front, id);
        assert forall|k: int| 0 <= k < front.len() implies (#[trigger] front[k]) == orders[k] by {}
        if forall|k: int| 0 <= k < orders.len() ==> (#[trigger] orders[k]).id != id {
            assert forall|k: int| 0 <= k < front.len() implies (#[trigger] front[k]).id != id by {
                assert(front[k] == orders[k]);
            }
        }
        assert forall|k: int| 0 <= k < orders.len() && (#[trigger] orders[k]).id == id implies count_id(
            orders,
            id,
        ) >= 1 by {
            if k < front.len() {
                assert(front[k] == orders[k]);
            }
        }
        assert forall|j: int, k: int|
            0 <= j < k < orders.len() && (#[trigger] orders[j]).id == id && (
            #[trigger] orders[k]).id == id implies count_id(orders, id) >= 2 by {
            assert(front[j] == orders[j]);
            if k < front.len() {
                assert(front[k] == orders[k]);
            }
        }
    }
}

/// Where the count is positive, some order has the id; the lemma returns the
/// position of one.
pub proof fn lemma_count_witness(orders: Seq<OrderEntry>, id: u128) -> (k: int)
    requires
        count_id(orders, id) > 0,
    ensures
        0 <= k < orders.len(),
        orders[k].id == id,
    decreases orders.len(),
{
    if orders.last().id == id {
        orders.len() - 1
    } else {
        let k = lemma_count_witness(orders.drop_last(), id);
        assert(orders.drop_last()[k] == orders[k]);
        k
    }
}

/// Two runs of orders with the same ids, position by position, have the same
/// counts.
pub proof fn lemma_count_same_ids(a: Seq<OrderEntry>, b: Seq<OrderEntry>, id: u128)
    requires
        a.len() == b.len(),
        forall|k: int| 0 <= k < a.len() ==> (#[trigger] a[k]).id == b[k].id,
    ensures
        count_id(a, id) == count_id(b, id),
    decreases a.len(),
{
    if a.len() > 0 {
        assert forall|k: int| 0 <= k < a.drop_last().len() implies (#[trigger] a.drop_last()[k]).id
            == b.drop_last()[k].id by {
            assert(a.drop_last()[k] == a[k]);
            assert(b.drop_last()[k] == b[k]);
        }
        lemma_count_same_ids(a.drop_last(), b.drop_last(), id);
        assert(a[a.len() - 1].id == b[a.len() - 1].id);
    }
}

/// A single order counts once for its own id.
pub proof fn lemma_count_one(entry: OrderEntry, id: u128)
    ensures
        count_id(seq![entry], id) == if entry.id == id {
            1int
        } else {
            0int
        },
{
    assert(seq![entry].drop_last() =~= Seq::<OrderEntry>::empty());
    assert(seq![entry].last() == entry);
    assert(count_id(seq![entry].drop_last(), id) == 0);
}

/// Putting an order in adds one to the count of its id and nothing to any
/// other.
pub proof fn lemma_count_insert(orders: Seq<OrderEntry>, m: int, entry: OrderEntry, id: u128)
    requires
        0 <= m <= orders.len(),
    ensures
        count_id(orders.insert(m, entry), id) == count_id(orders, id) + if entry.id == id {
            1int
        } else {
            0int
        },
{
    assert(orders.insert(m, entry) =~= (orders.take(m) + seq![entry]) + orders.skip(m));
    assert(orders =~= orders.take(m) + orders.skip(m));
    lemma_count_concat(orders.take(m) + seq![entry], orders.skip(m), id);
    lemma_count_concat(orders.take(m), seq![entry], id);
    lemma_count_concat(orders.take(m), orders.skip(m), id);
    lemma_count_one(entry, id);
}

/// Taking an order out takes one off the count of its id and nothing off any
/// other.
pub proof fn lemma_count_remove(orders: Seq<OrderEntry>, m: int, id: u128)
    requires
        0 <= m < orders.len(),
    ensures
        count_id(orders.remove(m), id) == count_id(orders, id) - if orders[m].id == id {
            1int
        } else {
            0int
        },
{
    assert(orders.remove(m).insert(m, orders[m]) =~= orders);
    lemma_count_insert(orders.remove(m), m, orders[m], id);
}

/// The priority order of two runs of levels joined: the orders of the later
/// run, which is the better one, come first.
pub proof fn lemma_priority_concat(a: Seq<LevelView>, b: Seq<LevelView>)
    ensures
        priority_order(a + b) == priority_order(b) + priority_order(a),
    decreases b.len(),
{
    if b.len() == 0 {
        assert(a + b =~= a);
        assert(priority_order(b) + priority_order(a) =~= priority_order(a));
    } else {
        assert((a + b).drop_last() =~= a + b.drop_last());
        assert((a + b).last() == b.last());
        lemma_priority_concat(a, b.drop_last());
        assert(b.last().orders + (priority_order(b.drop_last()) + priority_order(a)) =~= (
        b.last().orders + priority_order(b.drop_last())) + priority_order(a));
    }
}

/// The priority order of a single level is its queue.
pub proof fn lemma_priority_single(level: LevelView)
    ensures
        priority_order(seq![level]) == level.orders,
{
    assert(seq![level].drop_last() =~= Seq::<LevelView>::empty());
    assert(seq![level].last() == level);
    assert(priority_order(seq![level].drop_last()) =~= Seq::<OrderEntry>::empty());
    assert(level.orders + Seq::<OrderEntry>::empty() =~= level.orders);
}

/// The priority order of a side, cut at level `i`: the orders of the better
/// levels, then the queue of level `i`, then the orders of the worse levels.
pub proof fn lemma_priority_split(levels: Seq<LevelView>, i: int)
    requires
        0 <= i < levels.len(),
    ensures
        priority_order(levels) == (priority_order(levels.skip(i + 1)) + levels[i].orders)
            + priority_order(levels.take(i)),
{
    assert(levels =~= (levels.take(i) + seq![levels[i]]) + levels.skip(i + 1));
    lemma_priority_concat(levels.take(i) + seq![levels[i]], levels.skip(i + 1));
    lemma_priority_concat(levels.take(i), seq![levels[i]]);
    lemma_priority_single(levels[i]);
    assert(priority_order(levels.skip(i + 1)) + (levels[i].orders + priority_order(
        levels.take(i),
    )) =~= (priority_order(levels.skip(i + 1)) + levels[i].orders) + priority_order(
        levels.take(i),
    ));
}

/// The level and the place in its queue of the order at position `k` of the
/// priority order.
pub proof fn lemma_priority_locate(levels: Seq<LevelView>, k: int) -> (place: (int, int))
    requires
        0 <= k < priority_order(levels).len(),
    ensures
        0 <= place.0 < levels.len(),
        0 <= place.1 < levels[place.0].orders.len(),
        levels[place.0].orders[place.1] == priority_order(levels)[k],
    decreases levels.len(),
{
    let best = levels.last();
    if k < best.orders.len() {
        (levels.len() - 1, k)
    } else {
        let place = lemma_priority_locate(levels.drop_last(), k - best.orders.len());
        assert(levels.drop_last()[place.0] == levels[place.0]);
        place
    }
}

/// Pushing onto the middle one of three runs puts the order in after the
/// first two.
pub proof fn lemma_push_in_the_middle(
    a: Seq<OrderEntry>,
    q: Seq<OrderEntry>,
    b: Seq<OrderEntry>,
    entry: OrderEntry,
)
    ensures
        (a + q.push(entry)) + b == ((a + q) + b).insert((a.len() + q.len()) as int, entry),
{
    let left = (a + q.push(entry)) + b;
    let right = ((a + q) + b).insert((a.len() + q.len()) as int, entry);
    assert(left.len() == right.len());
    assert forall|i: int| 0 <= i < left.len() implies left[i] == right[i] by {
        if i < a.len() {
        } else if i < a.len() + q.len() {
        } else if i == a.len() + q.len() {
        } else {
        }
    }
    assert(left =~= right);
}

/// Taking an order out of the middle one of three runs takes it out of the
/// whole.
pub proof fn lemma_remove_in_the_middle(
    a: Seq<OrderEntry>,
    q: Seq<OrderEntry>,
    b: Seq<OrderEntry>,
    k: int,
)
    requires
        0 <= k < q.len(),
    ensures
        (a + q.remove(k)) + b == ((a + q) + b).remove(a.len() + k),
        ((a + q) + b)[a.len() + k] == q[k],
{
    let left = (a + q.remove(k)) + b;
    let right = ((a + q) + b).remove(a.len() + k);
    assert(left.len() == right.len());
    assert forall|i: int| 0 <= i < left.len() implies left[i] == right[i] by {
        if i < a.len() {
        } else if i < a.len() + k {
        } else if i < a.len() + q.len() - 1 {
        } else {
        }
    }
    assert(left =~= right);
}

/// The priority order of a side in which the queue of level `i` has been
/// replaced.
pub proof fn lemma_priority_update(levels: Seq<LevelView>, i: int, level: LevelView)
    requires
        0 <= i < levels.len(),
    ensures
        priority_order(levels.update(i, level)) == (priority_order(levels.skip(i + 1))
            + level.orders) + priority_order(levels.take(i)),
{
    let after = levels.update(i, level);
    lemma_priority_split(after, i);
    assert(after.skip(i + 1) =~= levels.skip(i + 1));
    assert(after.take(i) =~= levels.take(i));
}

/// The priority order of a side into which a level has been put at `i`.
pub proof fn lemma_priority_insert(levels: Seq<LevelView>, i: int, level: LevelView)
    requires
        0 <= i <= levels.len(),
    ensures
        priority_order(levels.insert(i, level)) == (priority_order(levels.skip(i)) + level.orders)
            + priority_order(levels.take(i)),
        priority_order(levels) == priority_order(levels.skip(i)) + priority_order(levels.take(i)),
{
    let after = levels.insert(i, level);
    lemma_priority_split(after, i);
    assert(after.skip(i + 1) =~= levels.skip(i));
    assert(after.take(i) =~= levels.take(i));
    assert(levels =~= levels.take(i) + levels.skip(i));
    lemma_priority_concat(levels.take(i), levels.skip(i));
}

/// The priority order of a side from which level `i` has been taken.
pub proof fn lemma_priority_remove(levels: Seq<LevelView>, i: int)
    requires
        0 <= i < levels.len(),
    ensures
        priority_order(levels.remove(i)) == priority_order(levels.skip(i + 1)) + priority_order(
            levels.take(i),
        ),
{
    assert(levels.remove(i) =~= levels.take(i) + levels.skip(i + 1));
    lemma_priority_concat(levels.take(i), levels.skip(i + 1));
}

/// The side after an order has joined it holds the orders it held, in the
/// order they were in, and the new order among them; the lemma returns the
/// position at which the new order stands in the priority order.
pub proof fn lemma_insert_resting(levels: Seq<LevelView>, ascending: bool, entry: OrderEntry)
    -> (m: int)
    requires
        side_wf(levels, ascending),
    ensures
        0 <= m <= priority_order(levels).len(),
        priority_order(insert_spec(levels, ascending, entry)) == priority_order(levels).insert(
            m,
            entry,
        ),
{
    lemma_rank_splits(levels, ascending, entry.price, 0);
    let i = rank(levels, ascending, entry.price);
    let below = priority_order(levels.take(i));
    if has_level(levels, ascending, entry.price) {
        let queue = levels[i].orders;
        let grown = LevelView { price: levels[i].price, orders: queue.push(entry) };
        let better = priority_order(levels.skip(i + 1));
        lemma_priority_split(levels, i);
        lemma_priority_update(levels, i, grown);
        lemma_push_in_the_middle(better, queue, below, entry);
        (better.len() + queue.len()) as int
    } else {
        let fresh = LevelView { price: entry.price, orders: seq![entry] };
        let above = priority_order(levels.skip(i));
        lemma_priority_insert(levels, i, fresh);
        lemma_push_in_the_middle(above, Seq::<OrderEntry>::empty(), below, entry);
        assert(Seq::<OrderEntry>::empty().push(entry) =~= seq![entry]);
        assert(above + Seq::<OrderEntry>::empty() =~= above);
        above.len() as int
    }
}

/// The side after an order has left it holds the other orders, in the order
/// they were in; the lemma returns the position in the priority order of the
/// order that left, which has the id asked for.
pub proof fn lemma_remove_resting(
    levels: Seq<LevelView>,
    ascending: bool,
    price: Decimal,
    id: u128,
) -> (m: int)
    requires
        side_wf(levels, ascending),
        remove_spec(levels, ascending, price, id) is Some,
    ensures
        0 <= m < priority_order(levels).len(),
        priority_order(levels)[m].id == id,
        priority_order(levels)[m].price.units() == price.units(),
        priority_order(remove_spec(levels, ascending, price, id).unwrap()) == priority_order(
            levels,
        ).remove(m),
{
    lemma_rank_splits(levels, ascending, price, 0);
    let i = rank(levels, ascending, price);
    assert(levels[i].wf());
    let queue = levels[i].orders;
    let k = index_of_id(queue, id);
    lemma_index_of_id(queue, id);
    let better = priority_order(levels.skip(i + 1));
    let below = priority_order(levels.take(i));
    lemma_priority_split(levels, i);
    lemma_remove_in_the_middle(better, queue, below, k);
    if queue.len() == 1 {
        lemma_priority_remove(levels, i);
        assert(queue.remove(k) =~= Seq::<OrderEntry>::empty());
        assert(better + Seq::<OrderEntry>::empty() =~= better);
    } else {
        lemma_priority_update(
            levels,
            i,
            LevelView { price: levels[i].price, orders: queue.remove(k) },
        );
    }
    (better.len() + k) as int
}

/// An order that rests on a side at some price is found by a removal at that
/// price under its id.
pub proof fn lemma_resting_is_found(
    levels: Seq<LevelView>,
    ascending: bool,
    price: Decimal,
    id: u128,
    k: int,
)
    requires
        side_wf(levels, ascending),
        0 <= k < priority_order(levels).len(),
        priority_order(levels)[k].id == id,
        priority_order(levels)[k].price.units() == price.units(),
    ensures
        remove_spec(levels, ascending, price, id) is Some,
{
    let place = lemma_priority_locate(levels, k);
    let li = place.0;
    assert(levels[li].wf());
    assert(levels[li].orders[place.1].price.units() == levels[li].price.units());
    assert forall|j: int| 0 <= j < li implies crate::level::precedes(
        ascending,
        (#[trigger] levels[j]).price,
        price,
    ) by {
        assert(crate::level::precedes(ascending, levels[j].price, levels[li].price));
    }
    assert forall|j: int| li <= j < levels.len() implies !crate::level::precedes(
        ascending,
        (#[trigger] levels[j]).price,
        price,
    ) by {
        if j > li {
            assert(crate::level::precedes(ascending, levels[li].price, levels[j].price));
        }
    }
    lemma_rank_splits(levels, ascending, price, li);
    lemma_index_of_id(levels[li].orders, id);
}

impl BookView {
    /// The orders that rest on `side` of the book of `symbol`, in priority
    /// order.
    pub open spec fn resting(self, symbol: Seq<char>, side: Side) -> Seq<OrderEntry> {
        priority_order(self.book_of(symbol).side(side))
    }

    /// Whether the index holds `entry` under its id, with `symbol`, `side` and
    /// the entry's price.
    pub open spec fn indexed(self, symbol: Seq<char>, side: Side, entry: OrderEntry) -> bool {
        &&& self.index.contains_key(entry.id)
        &&& self.index[entry.id].symbol == symbol
        &&& self.index[entry.id].side == side
        &&& self.index[entry.id].price.units() == entry.price.units()
    }

    /// The index and the levels agree: every id in the index names a side on
    /// which exactly one order with that id rests, and every resting order is
    /// in the index under its id, with the symbol, the side and the price
    /// where it rests.
    pub open spec fn consistent(self) -> bool {
        &&& forall|id: u128| #[trigger]
            self.index.contains_key(id) ==> count_id(
                self.resting(self.index[id].symbol, self.index[id].side),
                id,
            ) == 1
        &&& forall|symbol: Seq<char>, side: Side, k: int|
            0 <= k < self.resting(symbol, side).len() ==> self.indexed(
                symbol,
                side,
                #[trigger] self.resting(symbol, side)[k],
            )
    }
}

/// A well-formed book stays well formed when an order is put to rest.
pub proof fn law_enqueue_keeps_book_well_formed(book: BookView, order: OrderView)
    requires
        book.wf(),
        order.wf(),
    ensures
        book.enqueue(order).wf(),
{
    let old_book = book.book_of(order.symbol);
    assert(old_book.wf());
    crate::level::lemma_insert_keeps_wf(
        old_book.side(order.side),
        order.side.ascending(),
        OrderEntry::of(order),
    );
    let after = book.enqueue(order);
    assert forall|symbol: Seq<char>| #[trigger] after.books.contains_key(symbol) implies after.books[symbol].wf() by {
        if symbol != order.symbol {
            assert(book.books.contains_key(symbol));
        }
    }
}

/// A well-formed book stays well formed when an order is matched against it.
pub proof fn law_sweep_keeps_book_well_formed(
    book: BookView,
    id: u128,
    price: Decimal,
    side: Side,
    qty: int,
    symbol: Seq<char>,
)
    requires
        book.wf(),
        price.wf(),
        qty >= 0,
    ensures
        book.sweep(id, price, side, qty, symbol).book.wf(),
        0 <= book.sweep(id, price, side, qty, symbol).remaining <= qty,
{
    let old_book = book.book_of(symbol);
    assert(old_book.wf());
    lemma_sweep_levels(old_book.side(side.opposite()), side, id, price, qty);
    let after = book.sweep(id, price, side, qty, symbol).book;
    assert forall|name: Seq<char>| #[trigger] after.books.contains_key(name) implies after.books[name].wf() by {
        if name != symbol {
            assert(book.books.contains_key(name));
        }
    }
}

/// A well-formed book stays well formed when an order is submitted.
pub proof fn law_submit_keeps_book_well_formed(book: BookView, order: OrderView)
    requires
        book.wf(),
        order.wf(),
    ensures
        book.submit(order).book.wf(),
{
    law_sweep_keeps_book_well_formed(
        book,
        order.id,
        order.price,
        order.side,
        order.quantity as int,
        order.symbol,
    );
    let swept = book.sweep(order.id, order.price, order.side, order.quantity as int, order.symbol);
    if swept.remaining > 0 {
        law_enqueue_keeps_book_well_formed(swept.book, order.with_quantity(swept.remaining as i64));
    }
}

/// A well-formed book stays well formed when an order is cancelled.
pub proof fn law_cancel_keeps_book_well_formed(book: BookView, id: u128)
    requires
        book.wf(),
    ensures
        book.cancel(id).book.wf(),
{
    if book.index.contains_key(id) {
        let place = book.index[id];
        if book.books.contains_key(place.symbol) {
            let old_book = book.books[place.symbol];
            assert(old_book.wf());
            crate::level::lemma_remove_keeps_wf(
                old_book.side(place.side),
                place.side.ascending(),
                place.price,
                id,
            );
            let after = book.cancel(id).book;
            assert forall|name: Seq<char>| #[trigger] after.books.contains_key(name) implies after.books[name].wf() by {
                if name != place.symbol {
                    assert(book.books.contains_key(name));
                }
            }
        }
    }
}

/// The index stays consistent when an order under a new id is put to rest.
pub proof fn law_enqueue_keeps_index_consistent(book: BookView, order: OrderView)
    requires
        book.wf(),
        book.consistent(),
        !book.index.contains_key(order.id),
    ensures
        book.enqueue(order).consistent(),
{
    let after = book.enqueue(order);
    let entry = OrderEntry::of(order);
    let old_book = book.book_of(order.symbol);
    assert(old_book.wf());
    let levels = old_book.side(order.side);
    let before = priority_order(levels);
    let m = lemma_insert_resting(levels, order.side.ascending(), entry);
    assert(after.book_of(order.symbol) == old_book.with_side(
        order.side,
        insert_spec(levels, order.side.ascending(), entry),
    ));
    assert(after.resting(order.symbol, order.side) == before.insert(m, entry));
    assert forall|symbol: Seq<char>, side: Side|
        !(symbol == order.symbol && side == order.side) implies #[trigger] after.resting(
        symbol,
        side,
    ) == book.resting(symbol, side) by {
        if symbol != order.symbol {
            assert(after.book_of(symbol) == book.book_of(symbol));
        }
    }
    // No order that rests anywhere has the new id.
    assert forall|symbol: Seq<char>, side: Side, k: int|
        0 <= k < book.resting(symbol, side).len() implies (#[trigger] book.resting(
        symbol,
        side,
    )[k]).id != order.id by {
        assert(book.indexed(symbol, side, book.resting(symbol, side)[k]));
    }
    assert forall|id: u128| #[trigger] after.index.contains_key(id) implies count_id(
        after.resting(after.index[id].symbol, after.index[id].side),
        id,
    ) == 1 by {
        lemma_count_insert(before, m, entry, id);
        if id == order.id {
            lemma_count_facts(before, id);
            assert forall|k: int| 0 <= k < before.len() implies (#[trigger] before[k]).id != id by {
                assert(book.resting(order.symbol, order.side)[k].id != order.id);
            }
        } else {
            assert(book.index.contains_key(id));
            let place = book.index[id];
            if !(place.symbol == order.symbol && place.side == order.side) {
                assert(after.resting(place.symbol, place.side) == book.resting(
                    place.symbol,
                    place.side,
                ));
            }
        }
    }
    assert forall|symbol: Seq<char>, side: Side, k: int|
        0 <= k < after.resting(symbol, side).len() implies after.indexed(
        symbol,
        side,
        #[trigger] after.resting(symbol, side)[k],
    ) by {
        if symbol == order.symbol && side == order.side {
            if k < m {
                assert(after.resting(symbol, side)[k] == before[k]);
                assert(book.indexed(symbol, side, book.resting(symbol, side)[k]));
            } else if k > m {
                assert(after.resting(symbol, side)[k] == before[k - 1]);
                assert(book.indexed(symbol, side, book.resting(symbol, side)[k - 1]));
            }
        } else {
            assert(after.resting(symbol, side) == book.resting(symbol, side));
            assert(book.indexed(symbol, side, book.resting(symbol, side)[k]));
        }
    }
}

/// The index stays consistent when an order is matched against the book.
pub proof fn law_sweep_keeps_index_consistent(
    book: BookView,
    id: u128,
    price: Decimal,
    side: Side,
    qty: int,
    symbol: Seq<char>,
)
    requires
        book.wf(),
        book.consistent(),
        price.wf(),
        qty >= 0,
    ensures
        book.sweep(id, price, side, qty, symbol).book.consistent(),
{
    let swept = book.sweep(id, price, side, qty, symbol);
    let after = swept.book;
    let opposite = side.opposite();
    let old_book = book.book_of(symbol);
    assert(old_book.wf());
    let levels = old_book.side(opposite);
    let out = sweep_levels(levels, side, id, price, qty);
    lemma_sweep_levels(levels, side, id, price, qty);
    let before = priority_order(levels);
    let left = priority_order(out.levels);
    let gone = before.len() - left.len();
    assert(after.book_of(symbol) == old_book.with_side(opposite, out.levels));
    assert(after.resting(symbol, opposite) == left);
    assert(book.resting(symbol, opposite) == before);
    assert forall|name: Seq<char>, other: Side|
        !(name == symbol && other == opposite) implies #[trigger] after.resting(name, other)
        == book.resting(name, other) by {
        if name != symbol {
            assert(after.book_of(name) == book.book_of(name));
        }
    }
    // The ids that left the index are the ids of the first `gone` orders.
    assert forall|x: u128| out.filled.to_set().contains(x) <==> exists|t: int|
        0 <= t < gone && (#[trigger] before[t]).id == x by {
        if out.filled.to_set().contains(x) {
            let t = choose|t: int| 0 <= t < out.filled.len() && out.filled[t] == x;
            assert(before[t].id == x);
        }
        if exists|t: int| 0 <= t < gone && (#[trigger] before[t]).id == x {
            let t = choose|t: int| 0 <= t < gone && (#[trigger] before[t]).id == x;
            assert(out.filled[t] == x);
        }
    }
    assert forall|x: u128| #[trigger] after.index.contains_key(x) implies count_id(
        after.resting(after.index[x].symbol, after.index[x].side),
        x,
    ) == 1 by {
        assert(book.index.contains_key(x));
        assert(!out.filled.to_set().contains(x));
        let place = book.index[x];
        if place.symbol == symbol && place.side == opposite {
            assert(before =~= before.take(gone) + before.skip(gone));
            lemma_count_concat(before.take(gone), before.skip(gone), x);
            lemma_count_facts(before.take(gone), x);
            assert forall|t: int| 0 <= t < before.take(gone).len() implies (
            #[trigger] before.take(gone)[t]).id != x by {
                assert(before.take(gone)[t] == before[t]);
            }
            assert forall|j: int| 0 <= j < left.len() implies (#[trigger] left[j]).id
                == before.skip(gone)[j].id by {
                assert(before.skip(gone)[j] == before[gone + j]);
            }
            lemma_count_same_ids(left, before.skip(gone), x);
        } else {
            assert(after.resting(place.symbol, place.side) == book.resting(
                place.symbol,
                place.side,
            ));
        }
    }
    assert forall|name: Seq<char>, other: Side, k: int|
        0 <= k < after.resting(name, other).len() implies after.indexed(
        name,
        other,
        #[trigger] after.resting(name, other)[k],
    ) by {
        let entry = after.resting(name, other)[k];
        if name == symbol && other == opposite {
            assert(left[k].id == before[gone + k].id);
            assert(book.indexed(name, other, book.resting(name, other)[gone + k]));
            if out.filled.to_set().contains(entry.id) {
                let t = choose|t: int| 0 <= t < gone && (#[trigger] before[t]).id == entry.id;
                lemma_count_facts(before, entry.id);
                assert(before[t].id == entry.id && before[gone + k].id == entry.id);
            }
        } else {
            assert(after.resting(name, other) == book.resting(name, other));
            assert(book.indexed(name, other, book.resting(name, other)[k]));
            if out.filled.to_set().contains(entry.id) {
                let t = choose|t: int| 0 <= t < gone && (#[trigger] before[t]).id == entry.id;
                assert(book.indexed(symbol, opposite, book.resting(symbol, opposite)[t]));
            }
        }
    }
}

/// Index consistency is kept by a submission: where the index and the levels
/// agree and the incoming order comes under an id that the index does not
/// hold, they agree after the order has been matched and what is left of it
/// has been put to rest.
pub proof fn law_submit_keeps_index_consistent(book: BookView, order: OrderView)
    requires
        book.wf(),
        book.consistent(),
        order.wf(),
        !book.index.contains_key(order.id),
    ensures
        book.submit(order).book.consistent(),
{
    law_sweep_keeps_index_consistent(
        book,
        order.id,
        order.price,
        order.side,
        order.quantity as int,
        order.symbol,
    );
    law_sweep_keeps_book_well_formed(
        book,
        order.id,
        order.price,
        order.side,
        order.quantity as int,
        order.symbol,
    );
    let swept = book.sweep(order.id, order.price, order.side, order.quantity as int, order.symbol);
    if swept.remaining > 0 {
        law_enqueue_keeps_index_consistent(
            swept.book,
            order.with_quantity(swept.remaining as i64),
        );
    }
}

/// Index consistency is kept by a cancellation, and where the index and the
/// levels agree a cancellation of an id that the index holds succeeds.
pub proof fn law_cancel_keeps_index_consistent(book: BookView, id: u128)
    requires
        book.wf(),
        book.consistent(),
    ensures
        book.cancel(id).book.consistent(),
        book.index.contains_key(id) ==> book.cancel(id).result is Ok,
        !book.index.contains_key(id) ==> book.cancel(id).book == book,
{
    if book.index.contains_key(id) {
        let place = book.index[id];
        let before = book.resting(place.symbol, place.side);
        let k = lemma_count_witness(before, id);
        assert(book.indexed(place.symbol, place.side, book.resting(place.symbol, place.side)[k]));
        assert(book.books.contains_key(place.symbol));
        let old_book = book.books[place.symbol];
        assert(old_book.wf());
        let levels = old_book.side(place.side);
        lemma_resting_is_found(levels, place.side.ascending(), place.price, id, k);
        let m = lemma_remove_resting(levels, place.side.ascending(), place.price, id);
        let after = book.cancel(id).book;
        let kept = remove_spec(levels, place.side.ascending(), place.price, id).unwrap();
        assert(after.book_of(place.symbol) == old_book.with_side(place.side, kept));
        assert(after.resting(place.symbol, place.side) == before.remove(m));
        assert forall|name: Seq<char>, other: Side|
            !(name == place.symbol && other == place.side) implies #[trigger] after.resting(
            name,
            other,
        ) == book.resting(name, other) by {
            if name != place.symbol {
                assert(after.book_of(name) == book.book_of(name));
            }
        }
        lemma_count_remove(before, m, id);
        assert forall|x: u128| #[trigger] after.index.contains_key(x) implies count_id(
            after.resting(after.index[x].symbol, after.index[x].side),
            x,
        ) == 1 by {
            assert(book.index.contains_key(x));
            let there = book.index[x];
            if there.symbol == place.symbol && there.side == place.side {
                lemma_count_remove(before, m, x);
            } else {
                assert(after.resting(there.symbol, there.side) == book.resting(
                    there.symbol,
                    there.side,
                ));
            }
        }
        assert forall|name: Seq<char>, other: Side, j: int|
            0 <= j < after.resting(name, other).len() implies after.indexed(
            name,
            other,
            #[trigger] after.resting(name, other)[j],
        ) by {
            let entry = after.resting(name, other)[j];
            if name == place.symbol && other == place.side {
                let j0 = if j < m {
                    j
                } else {
                    j + 1
                };
                assert(entry == before[j0]);
                assert(book.indexed(name, other, book.resting(name, other)[j0]));
                if entry.id == id {
                    lemma_count_facts(before.remove(m), id);
                }
            } else {
                assert(after.resting(name, other) == book.resting(name, other));
                assert(book.indexed(name, other, book.resting(name, other)[j]));
            }
        }
    }
}

/// A book without orders is consistent.
pub proof fn law_empty_book_is_consistent(book: BookView)
    requires
        book.books == Map::<Seq<char>, SymbolBookView>::empty(),
        book.index == Map::<u128, LocationView>::empty(),
    ensures
        book.consistent(),
        book.wf(),
{
}

/// Where the index and the levels agree, no two resting orders have the same
/// id: an order with the id of an indexed order rests on the side that the
/// index names, and only one order with that id rests there.
pub proof fn law_resting_ids_are_unique(
    book: BookView,
    symbol: Seq<char>,
    side: Side,
    j: int,
    other_symbol: Seq<char>,
    other_side: Side,
    k: int,
)
    requires
        book.consistent(),
        0 <= j < book.resting(symbol, side).len(),
        0 <= k < book.resting(other_symbol, other_side).len(),
        book.resting(symbol, side)[j].id == book.resting(other_symbol, other_side)[k].id,
    ensures
        symbol == other_symbol,
        side == other_side,
        j == k,
{
    let id = book.resting(symbol, side)[j].id;
    assert(book.indexed(symbol, side, book.resting(symbol, side)[j]));
    assert(book.indexed(other_symbol, other_side, book.resting(other_symbol, other_side)[k]));
    lemma_count_facts(book.resting(symbol, side), id);
}

impl BookView {
    /// Every id in the index resolves: the side that the index names has a
    /// level at the price that the index gives, and an order with that id
    /// rests in it, so that a cancellation of the id finds its order.
    pub open spec fn resolvable(self) -> bool {
        forall|id: u128| #[trigger]
            self.index.contains_key(id) ==> remove_spec(
                self.book_of(self.index[id].symbol).side(self.index[id].side),
                self.index[id].side.ascending(),
                self.index[id].price,
                id,
            ) is Some
    }
}

/// Every id in the index still resolves after an order has been put to rest,
/// whatever its id.
pub proof fn law_enqueue_keeps_index_resolvable(book: BookView, order: OrderView)
    requires
        book.wf(),
        book.resolvable(),
        order.wf(),
    ensures
        book.enqueue(order).resolvable(),
{
    let after = book.enqueue(order);
    let entry = OrderEntry::of(order);
    let ascending = order.side.ascending();
    let old_book = book.book_of(order.symbol);
    assert(old_book.wf());
    let levels = old_book.side(order.side);
    let grown = insert_spec(levels, ascending, entry);
    let before = priority_order(levels);
    let m = lemma_insert_resting(levels, ascending, entry);
    crate::level::lemma_insert_keeps_wf(levels, ascending, entry);
    assert(after.book_of(order.symbol) == old_book.with_side(order.side, grown));
    assert forall|id: u128| #[trigger] after.index.contains_key(id) implies remove_spec(
        after.book_of(after.index[id].symbol).side(after.index[id].side),
        after.index[id].side.ascending(),
        after.index[id].price,
        id,
    ) is Some by {
        if id == order.id {
            assert(before.insert(m, entry)[m] == entry);
            lemma_resting_is_found(grown, ascending, order.price, id, m);
        } else {
            assert(book.index.contains_key(id));
            let place = book.index[id];
            if place.symbol == order.symbol && place.side == order.side {
                let k = lemma_remove_resting(levels, ascending, place.price, id);
                let moved = if k < m {
                    k
                } else {
                    k + 1
                };
                assert(before.insert(m, entry)[moved] == before[k]);
                lemma_resting_is_found(grown, ascending, place.price, id, moved);
            } else if place.symbol != order.symbol {
                assert(after.book_of(place.symbol) == book.book_of(place.symbol));
            }
        }
    }
}

/// Every id that stays in the index still resolves after an order has been
/// matched against the book.
pub proof fn law_sweep_keeps_index_resolvable(
    book: BookView,
    id: u128,
    price: Decimal,
    side: Side,
    qty: int,
    symbol: Seq<char>,
)
    requires
        book.wf(),
        book.resolvable(),
        price.wf(),
        qty >= 0,
    ensures
        book.sweep(id, price, side, qty, symbol).book.resolvable(),
{
    let after = book.sweep(id, price, side, qty, symbol).book;
    let opposite = side.opposite();
    let old_book = book.book_of(symbol);
    assert(old_book.wf());
    let levels = old_book.side(opposite);
    let out = sweep_levels(levels, side, id, price, qty);
    lemma_sweep_levels(levels, side, id, price, qty);
    let before = priority_order(levels);
    let left = priority_order(out.levels);
    let gone = before.len() - left.len();
    assert(after.book_of(symbol) == old_book.with_side(opposite, out.levels));
    assert forall|x: u128| #[trigger] after.index.contains_key(x) implies remove_spec(
        after.book_of(after.index[x].symbol).side(after.index[x].side),
        after.index[x].side.ascending(),
        after.index[x].price,
        x,
    ) is Some by {
        assert(book.index.contains_key(x));
        assert(!out.filled.to_set().contains(x));
        let place = book.index[x];
        if place.symbol == symbol && place.side == opposite {
            let k = lemma_remove_resting(levels, opposite.ascending(), place.price, x);
            if k < gone {
                assert(out.filled[k] == before[k].id);
                assert(out.filled.to_set().contains(x));
            } else {
                assert(left[k - gone].id == before[gone + (k - gone)].id);
                lemma_resting_is_found(out.levels, opposite.ascending(), place.price, x, k - gone);
            }
        } else if place.symbol != symbol {
            assert(after.book_of(place.symbol) == book.book_of(place.symbol));
        }
    }
}

/// Every id in the index still resolves after an order has been submitted.
pub proof fn law_submit_keeps_index_resolvable(book: BookView, order: OrderView)
    requires
        book.wf(),
        book.resolvable(),
        order.wf(),
    ensures
        book.submit(order).book.resolvable(),
{
    law_sweep_keeps_index_resolvable(
        book,
        order.id,
        order.price,
        order.side,
        order.quantity as int,
        order.symbol,
    );
    law_sweep_keeps_book_well_formed(
        book,
        order.id,
        order.price,
        order.side,
        order.quantity as int,
        order.symbol,
    );
    let swept = book.sweep(order.id, order.price, order.side, order.quantity as int, order.symbol);
    if swept.remaining > 0 {
        law_enqueue_keeps_index_resolvable(
            swept.book,
            order.with_quantity(swept.remaining as i64),
        );
    }
}

/// Where every id in the index resolves, a cancellation never finds the index
/// and the levels apart: it succeeds for an id that the index holds and fails
/// with `OrderNotFound` for any other. And every id that stays in the index
/// still resolves.
pub proof fn law_cancel_finds_its_order(book: BookView, id: u128)
    requires
        book.wf(),
        book.resolvable(),
    ensures
        book.cancel(id).book.resolvable(),
        book.index.contains_key(id) ==> book.cancel(id).result is Ok,
        !book.index.contains_key(id) ==> book.cancel(id).result == Err::<(), EngineError>(
            EngineError::OrderNotFound(id),
        ),
{
    if book.index.contains_key(id) {
        let place = book.index[id];
        let ascending = place.side.ascending();
        assert(book.books.contains_key(place.symbol));
        let old_book = book.books[place.symbol];
        assert(old_book.wf());
        let levels = old_book.side(place.side);
        let kept = remove_spec(levels, ascending, place.price, id).unwrap();
        let before = priority_order(levels);
        let m = lemma_remove_resting(levels, ascending, place.price, id);
        crate::level::lemma_remove_keeps_wf(levels, ascending, place.price, id);
        let after = book.cancel(id).book;
        assert(after.book_of(place.symbol) == old_book.with_side(place.side, kept));
        assert forall|x: u128| #[trigger] after.index.contains_key(x) implies remove_spec(
            after.book_of(after.index[x].symbol).side(after.index[x].side),
            after.index[x].side.ascending(),
            after.index[x].price,
            x,
        ) is Some by {
            assert(book.index.contains_key(x));
            let there = book.index[x];
            if there.symbol == place.symbol && there.side == place.side {
                let k = lemma_remove_resting(levels, ascending, there.price, x);
                let moved = if k < m {
                    k
                } else {
                    k - 1
                };
                assert(before.remove(m)[moved] == before[k]);
                lemma_resting_is_found(kept, ascending, there.price, x, moved);
            } else if there.symbol != place.symbol {
                assert(after.book_of(there.symbol) == book.book_of(there.symbol));
            }
        }
    }
}

} // verus!
