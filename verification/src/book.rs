//! The matching engine: one book per symbol and an index of the resting
//! orders by id.

use crate::consistency::{
    law_cancel_finds_its_order, law_cancel_keeps_index_consistent,
    law_enqueue_keeps_index_consistent, law_enqueue_keeps_index_resolvable,
    law_submit_keeps_index_consistent, law_sweep_keeps_index_consistent,
    law_sweep_keeps_index_resolvable,
};
use crate::decimal::Decimal;
use crate::error::EngineError;
use crate::level::{
    has_level, index_of_id, insert_spec, rank, remove_spec, side_wf, LevelView, OneSide,
    OrderEntry, PriceLevelInner,
};
use crate::laws::{
    law_cancel_keeps_quantities_positive, law_enqueue_keeps_quantities_positive,
    law_fills_are_positive, law_no_crossing_after_match,
};
use crate::matching::{
    fills_in_order, lemma_sweep_levels, priority_order, sweep_levels, MatchResult,
};
use crate::order::{Order, OrderView, Side};
use crate::snapshot::{snapshot_of, Snapshot, SnapshotView};
use crate::trade::{
    average_price_of, filled_quantity, total_cost_of, PriceLevel, PriceLevelView, Trade,
    TradeBlotter,
};
use std::collections::HashMap;
use vstd::hash_map::StringHashMap;
use vstd::prelude::*;
use vstd::std_specs::iter::IteratorSpec;

verus! {

broadcast use vstd::std_specs::hash::group_hash_axioms;

/// Where a resting order is: the symbol, the side and the price of its level.
#[derive(Debug)]
pub struct OrderLocation {
    pub symbol: String,
    pub side: Side,
    pub price: Decimal,
}

/// The mathematical value of an [`OrderLocation`].
pub struct LocationView {
    pub symbol: Seq<char>,
    pub side: Side,
    pub price: Decimal,
}

impl View for OrderLocation {
    type V = LocationView;

    open spec fn view(&self) -> LocationView {
        LocationView { symbol: self.symbol@, side: self.side, price: self.price }
    }
}

/// The two sides of the book of one symbol.
#[derive(Debug)]
pub struct SymbolBook {
    pub symbol: String,
    pub bids: OneSide,
    pub asks: OneSide,
}

/// The mathematical value of a [`SymbolBook`]: the levels of each side, the
/// best level last.
pub struct SymbolBookView {
    pub bids: Seq<LevelView>,
    pub asks: Seq<LevelView>,
}

impl View for SymbolBook {
    type V = SymbolBookView;

    open spec fn view(&self) -> SymbolBookView {
        SymbolBookView { bids: self.bids@, asks: self.asks@ }
    }
}

impl SymbolBookView {
    /// A book without orders.
    pub open spec fn empty() -> SymbolBookView {
        SymbolBookView { bids: Seq::empty(), asks: Seq::empty() }
    }

    /// The levels of one side.
    pub open spec fn side(self, side: Side) -> Seq<LevelView> {
        match side {
            Side::BID => self.bids,
            Side::ASK => self.asks,
        }
    }

    /// The book with the levels of one side replaced.
    pub open spec fn with_side(self, side: Side, levels: Seq<LevelView>) -> SymbolBookView {
        match side {
            Side::BID => SymbolBookView { bids: levels, ..self },
            Side::ASK => SymbolBookView { asks: levels, ..self },
        }
    }

    /// Both sides are sorted and well formed.
    pub open spec fn wf(self) -> bool {
        &&& side_wf(self.bids, true)
        &&& side_wf(self.asks, false)
    }

    /// The best bid is below the best ask, where there are both.
    pub open spec fn uncrossed(self) -> bool {
        self.bids.len() > 0 && self.asks.len() > 0 ==> self.bids.last().price.units()
            < self.asks.last().price.units()
    }
}

/// The mathematical value of a [`Book`]: the book of every symbol that has
/// been seen, and the identity index.
pub struct BookView {
    pub books: Map<Seq<char>, SymbolBookView>,
    pub index: Map<u128, LocationView>,
}

/// What a cancellation leaves: the book and the result.
pub struct CancelOutcome {
    pub book: BookView,
    pub result: Result<(), EngineError>,
}

/// What a match leaves: the book, the trades in the order they were made,
/// and the quantity of the incoming order that is still open.
pub struct MatchOutcome {
    pub book: BookView,
    pub trades: Seq<Trade>,
    pub remaining: int,
}

impl BookView {
    /// The book of `symbol`, empty where the symbol has not been seen.
    pub open spec fn book_of(self, symbol: Seq<char>) -> SymbolBookView {
        if self.books.contains_key(symbol) {
            self.books[symbol]
        } else {
            SymbolBookView::empty()
        }
    }

    /// Every book is sorted and well formed.
    pub open spec fn wf(self) -> bool {
        forall|symbol: Seq<char>| #[trigger]
            self.books.contains_key(symbol) ==> self.books[symbol].wf()
    }

    /// The book after `order` has been put to rest on its own side without
    /// matching, and entered in the index.
    pub open spec fn enqueue(self, order: OrderView) -> BookView {
        let book = self.book_of(order.symbol);
        let levels = insert_spec(
            book.side(order.side),
            order.side.ascending(),
            OrderEntry::of(order),
        );
        BookView {
            books: self.books.insert(order.symbol, book.with_side(order.side, levels)),
            index: self.index.insert(
                order.id,
                LocationView { symbol: order.symbol, side: order.side, price: order.price },
            ),
        }
    }

    /// The book after `qty` of an incoming order has been matched against the
    /// opposite side of the book of `symbol`, with the trades and what is
    /// left of the order. Nothing is put to rest.
    pub open spec fn sweep(
        self,
        id: u128,
        price: Decimal,
        side: Side,
        qty: int,
        symbol: Seq<char>,
    ) -> MatchOutcome {
        let book = self.book_of(symbol);
        let out = sweep_levels(book.side(side.opposite()), side, id, price, qty);
        MatchOutcome {
            book: BookView {
                books: self.books.insert(symbol, book.with_side(side.opposite(), out.levels)),
                index: self.index.remove_keys(out.filled.to_set()),
            },
            trades: out.trades,
            remaining: out.remaining,
        }
    }

    /// The book after `order` has been submitted: it is matched against the
    /// opposite side, and what is left of it is put to rest on its own side.
    pub open spec fn submit(self, order: OrderView) -> MatchOutcome {
        let swept = self.sweep(order.id, order.price, order.side, order.quantity as int, order.symbol);
        if swept.remaining > 0 {
            MatchOutcome {
                book: swept.book.enqueue(order.with_quantity(swept.remaining as i64)),
                ..swept
            }
        } else {
            swept
        }
    }

    /// The book after the order with `id` has been cancelled, and the result.
    /// An id that the index does not hold is `OrderNotFound`. An id whose
    /// place holds no such order is `InconsistentState`; its index entry is
    /// gone all the same.
    pub open spec fn cancel(self, id: u128) -> CancelOutcome {
        if !self.index.contains_key(id) {
            CancelOutcome { book: self, result: Err(EngineError::OrderNotFound(id)) }
        } else {
            let place = self.index[id];
            let index = self.index.remove(id);
            if !self.books.contains_key(place.symbol) {
                CancelOutcome {
                    book: BookView { index, ..self },
                    result: Err(EngineError::InconsistentState),
                }
            } else {
                let book = self.books[place.symbol];
                match remove_spec(book.side(place.side), place.side.ascending(), place.price, id) {
                    Some(levels) => CancelOutcome {
                        book: BookView {
                            books: self.books.insert(
                                place.symbol,
                                book.with_side(place.side, levels),
                            ),
                            index,
                        },
                        result: Ok(()),
                    },
                    None => CancelOutcome {
                        book: BookView { index, ..self },
                        result: Err(EngineError::InconsistentState),
                    },
                }
            }
        }
    }

    /// The book after the orders have been submitted one after the other, the
    /// first of them first.
    pub open spec fn submit_all(self, orders: Seq<OrderView>) -> BookView
        decreases orders.len(),
    {
        if orders.len() == 0 {
            self
        } else {
            self.submit_all(orders.drop_last()).submit(orders.last()).book
        }
    }

    /// The book after the orders have been put to rest one after the other
    /// without matching, the first of them first.
    pub open spec fn enqueue_all(self, orders: Seq<OrderView>) -> BookView
        decreases orders.len(),
    {
        if orders.len() == 0 {
            self
        } else {
            self.enqueue_all(orders.drop_last()).enqueue(orders.last())
        }
    }

    /// The level at `price` on `side` of the book of `symbol`.
    pub open spec fn level_at(self, symbol: Seq<char>, side: Side, price: Decimal) -> Option<
        LevelView,
    > {
        if self.books.contains_key(symbol) && has_level(
            self.books[symbol].side(side),
            side.ascending(),
            price,
        ) {
            let levels = self.books[symbol].side(side);
            Some(levels[rank(levels, side.ascending(), price)])
        } else {
            None
        }
    }

    /// The resting order with `id`: the first order with that id in the level
    /// that the index names.
    pub open spec fn order_of(self, id: u128) -> Option<OrderView> {
        if self.index.contains_key(id) {
            let place = self.index[id];
            match self.level_at(place.symbol, place.side, place.price) {
                Some(level) => {
                    let k = index_of_id(level.orders, id);
                    if k < level.orders.len() {
                        Some(level.orders[k].order(place.symbol, place.side))
                    } else {
                        None
                    }
                },
                None => None,
            }
        } else {
            None
        }
    }
}

/// The values of the orders.
pub open spec fn order_views(orders: Seq<Order>) -> Seq<OrderView> {
    orders.map_values(|order: Order| order@)
}

/// Every order is well formed.
pub open spec fn orders_wf(orders: Seq<Order>) -> bool {
    forall|i: int| 0 <= i < orders.len() ==> (#[trigger] orders[i]).wf()
}

/// The depth of a snapshot where none is asked for.
pub const DEFAULT_DEPTH: isize = 5;

/// The value of the copy of a level that is handed out: the level's orders
/// as orders of `symbol` and `side`.
pub open spec fn level_copy(level: LevelView, symbol: Seq<char>, side: Side) -> PriceLevelView {
    PriceLevelView {
        side,
        price: level.price,
        orders: level.orders.map_values(|entry: OrderEntry| entry.order(symbol, side)),
    }
}

/// A copy of a level with its queue, independent of the book.
pub fn copy_level(level: &PriceLevelInner, symbol: &String, side: Side) -> (r: PriceLevel)
    ensures
        r@ == level_copy(level@, symbol@, side),
{
    let mut pl = PriceLevel::from_rust(side, level.price);
    let n: usize = level.orders.len();
    let mut i: usize = 0;
    assert(level.orders@.take(0).map_values(|entry: OrderEntry| entry.order(symbol@, side))
        =~= Seq::<OrderView>::empty());
    while i < n
        invariant
            n == level.orders@.len(),
            0 <= i <= n,
            pl@ == (PriceLevelView {
                side,
                price: level.price,
                orders: level.orders@.take(i as int).map_values(
                    |entry: OrderEntry| entry.order(symbol@, side),
                ),
            }),
        decreases n - i,
    {
        pl.orders.append_order(level.orders[i].to_order(symbol, side));
        assert(pl@.orders =~= level.orders@.take(i + 1).map_values(
            |entry: OrderEntry| entry.order(symbol@, side),
        ));
        i = i + 1;
    }
    assert(level.orders@.take(n as int) =~= level.orders@);
    pl
}

/// The order book and matching engine.
pub struct Book {
    books: Vec<SymbolBook>,
    slots: StringHashMap<usize>,
    order_map: HashMap<u128, OrderLocation>,
}

impl View for Book {
    type V = BookView;

    closed spec fn view(&self) -> BookView {
        BookView {
            books: Map::new(
                |symbol: Seq<char>| self.slots@.contains_key(symbol),
                |symbol: Seq<char>| self.books@[self.slots@[symbol] as int]@,
            ),
            index: self.order_map@.map_values(|place: OrderLocation| place@),
        }
    }
}

impl Book {
    /// The books are sorted and well formed, each symbol has one book, and
    /// every id in the index resolves to an order in the levels.
    pub closed spec fn wf(&self) -> bool {
        &&& self.shape()
        &&& self@.resolvable()
    }

    /// The books are sorted and well formed, and each symbol has one book.
    closed spec fn shape(&self) -> bool {
        &&& forall|symbol: Seq<char>| #[trigger]
            self.slots@.contains_key(symbol) ==> self.slots@[symbol] < self.books@.len()
                && self.books@[self.slots@[symbol] as int].symbol@ == symbol
        &&& forall|i: int|
            0 <= i < self.books@.len() ==> self.slots@.contains_key(
                (#[trigger] self.books@[i]).symbol@,
            ) && self.slots@[self.books@[i].symbol@] == i
        &&& forall|i: int| 0 <= i < self.books@.len() ==> (#[trigger] self.books@[i])@.wf()
        &&& forall|id: u128| #[trigger]
            self.order_map@.contains_key(id) ==> self.order_map@[id].price.wf()
    }

    /// Replacing the sides of one symbol's book replaces that symbol's book
    /// in the engine's value and nothing else.
    proof fn lemma_book_updated(before: &Book, after: &Book, slot: int, symbol: Seq<char>)
        requires
            before.shape(),
            before.slots@.contains_key(symbol),
            before.slots@[symbol] == slot,
            after.slots == before.slots,
            after.books@.len() == before.books@.len(),
            forall|i: int|
                0 <= i < after.books@.len() && i != slot ==> after.books@[i] == before.books@[i],
            after.books@[slot].symbol == before.books@[slot].symbol,
            after.books@[slot]@.wf(),
            forall|id: u128| #[trigger]
                after.order_map@.contains_key(id) ==> after.order_map@[id].price.wf(),
        ensures
            after.shape(),
            after@.books == before@.books.insert(symbol, after.books@[slot]@),
    {
        let want = before@.books.insert(symbol, after.books@[slot]@);
        assert forall|name: Seq<char>| after@.books.contains_key(name) == want.contains_key(
            name,
        ) by {
            assert(before@.books.contains_key(name) == before.slots@.contains_key(name));
        }
        assert forall|name: Seq<char>| after@.books.contains_key(name) implies after@.books[name]
            == want[name] by {
            if name != symbol {
                assert(before.books@[before.slots@[name] as int].symbol@ == name);
                assert(before@.books[name] == before.books@[before.slots@[name] as int]@);
            }
        }
        assert(after@.books =~= want);
    }

    /// A well-formed engine has a well-formed value, in which every id in the
    /// index resolves.
    pub proof fn lemma_wf(&self)
        requires
            self.wf(),
        ensures
            self@.wf(),
            self@.resolvable(),
    {
    }

    /// The value of an engine without books or orders.
    pub open spec fn empty_view() -> BookView {
        BookView { books: Map::empty(), index: Map::empty() }
    }

    /// An engine without books or orders.
    pub fn new() -> (r: Book)
        ensures
            r.wf(),
            r@.books == Map::<Seq<char>, SymbolBookView>::empty(),
            r@.index == Map::<u128, LocationView>::empty(),
            r@.consistent(),
            r@.positive(),
    {
        let r = Book { books: Vec::new(), slots: StringHashMap::new(), order_map: HashMap::new() };
        assert(r@.books =~= Map::<Seq<char>, SymbolBookView>::empty());
        assert(r@.index =~= Map::<u128, LocationView>::empty());
        r
    }

    /// The position of the book of `symbol`, which is made if the symbol has
    /// not been seen.
    fn slot_of(&mut self, symbol: &str) -> (slot: usize)
        requires
            old(self).wf(),
        ensures
            final(self).wf(),
            final(self)@.index == old(self)@.index,
            final(self)@.books == old(self)@.books.insert(symbol@, old(self)@.book_of(symbol@)),
            final(self).order_map == old(self).order_map,
            slot < final(self).books@.len(),
            final(self).slots@.contains_key(symbol@),
            final(self).slots@[symbol@] == slot,
    {
        match self.slots.get(symbol) {
            Some(slot) => {
                let slot: usize = *slot;
                assert(self@.books =~= old(self)@.books.insert(
                    symbol@,
                    old(self)@.book_of(symbol@),
                ));
                slot
            },
            None => {
                let slot: usize = self.books.len();
                let name = symbol.to_owned();
                self.books.push(
                    SymbolBook { symbol: name.clone(), bids: OneSide::new(), asks: OneSide::new() },
                );
                self.slots.insert(name, slot);
                assert(self@.books =~= old(self)@.books.insert(
                    symbol@,
                    old(self)@.book_of(symbol@),
                ));
                assert forall|name: Seq<char>| #[trigger] self@.book_of(name) == old(self)@.book_of(
                    name,
                ) by {}
                assert(self@.resolvable());
                slot
            },
        }
    }

    /// Puts `order` to rest on its own side without matching, and enters it in
    /// the index.
    pub(crate) fn enqueue_internal(&mut self, order: &Order)
        requires
            old(self).wf(),
            order.wf(),
        ensures
            final(self).wf(),
            final(self)@ == old(self)@.enqueue(order@),
            old(self)@.consistent() && !old(self)@.index.contains_key(order.id) ==> final(
                self
            )@.consistent(),
            old(self)@.positive() && order.quantity > 0 ==> final(self)@.positive(),
    {
        proof {
            self.lemma_wf();
            law_enqueue_keeps_index_resolvable(self@, order@);
            if self@.positive() && order.quantity > 0 {
                law_enqueue_keeps_quantities_positive(self@, order@);
            }
            if self@.consistent() && !self@.index.contains_key(order.id) {
                law_enqueue_keeps_index_consistent(self@, order@);
            }
        }
        let entry = OrderEntry::from_order(order);
        let slot = self.slot_of(order.symbol.as_str());
        let ghost mid = *self;
        match order.side {
            Side::BID => {
                self.books[slot].bids.insert(entry, true);
            },
            Side::ASK => {
                self.books[slot].asks.insert(entry, false);
            },
        }
        self.order_map.insert(
            order.id,
            OrderLocation { symbol: order.symbol.clone(), side: order.side, price: order.price },
        );
        proof {
            assert(mid@.books[order.symbol@] == old(self)@.book_of(order.symbol@));
            assert(mid.books@[slot as int]@ == mid@.books[order.symbol@]);
            Self::lemma_book_updated(&mid, self, slot as int, order.symbol@);
        }
        assert(self@.books =~= old(self)@.enqueue(order@).books);
        assert(self@.index =~= old(self)@.enqueue(order@).index);
    }

    /// Puts `order` to rest on its own side without matching. Nothing checks
    /// that the order does not cross the other side: that is the caller's
    /// part.
    pub fn enqueue_order(&mut self, order: &Order)
        requires
            old(self).wf(),
            order.wf(),
        ensures
            final(self).wf(),
            final(self)@ == old(self)@.enqueue(order@),
            old(self)@.consistent() && !old(self)@.index.contains_key(order.id) ==> final(
                self
            )@.consistent(),
            old(self)@.positive() && order.quantity > 0 ==> final(self)@.positive(),
    {
        self.enqueue_internal(order);
    }

    /// Matches `incoming_qty` of an incoming order against the opposite side
    /// of the book of `symbol`: from the best price outward, and within a
    /// level from the oldest order on. Resting orders that are filled
    /// completely leave the book and the index. Nothing is put to rest.
    pub fn match_inner(
        &mut self,
        incoming_id: u128,
        incoming_price: Decimal,
        incoming_side: Side,
        incoming_qty: i64,
        symbol: &str,
    ) -> (r: MatchResult)
        requires
            old(self).wf(),
            incoming_price.wf(),
            incoming_qty >= 0,
        ensures
            final(self).wf(),
            ({
                let out = old(self)@.sweep(
                    incoming_id,
                    incoming_price,
                    incoming_side,
                    incoming_qty as int,
                    symbol@,
                );
                &&& final(self)@ == out.book
                &&& r.trades@ == out.trades
                &&& r.remaining_qty == out.remaining
            }),
            0 <= r.remaining_qty <= incoming_qty,
            old(self)@.consistent() ==> final(self)@.consistent(),
    {
        proof {
            self.lemma_wf();
            law_sweep_keeps_index_resolvable(
                self@,
                incoming_id,
                incoming_price,
                incoming_side,
                incoming_qty as int,
                symbol@,
            );
            if self@.consistent() {
                law_sweep_keeps_index_consistent(
                    self@,
                    incoming_id,
                    incoming_price,
                    incoming_side,
                    incoming_qty as int,
                    symbol@,
                );
            }
        }
        let slot = self.slot_of(symbol);
        let ghost mid = *self;
        let r = match incoming_side {
            Side::BID => self.books[slot].asks.sweep(
                &mut self.order_map,
                incoming_side,
                incoming_id,
                incoming_price,
                incoming_qty,
            ),
            Side::ASK => self.books[slot].bids.sweep(
                &mut self.order_map,
                incoming_side,
                incoming_id,
                incoming_price,
                incoming_qty,
            ),
        };
        proof {
            assert(mid@.books[symbol@] == old(self)@.book_of(symbol@));
            assert(mid.books@[slot as int]@ == mid@.books[symbol@]);
            Self::lemma_book_updated(&mid, self, slot as int, symbol@);
            let out = old(self)@.sweep(
                incoming_id,
                incoming_price,
                incoming_side,
                incoming_qty as int,
                symbol@,
            );
            assert(self@.books =~= out.book.books);
            assert(self@.index =~= out.book.index);
        }
        r
    }

    /// Fills as much as both orders have left, takes it off both, and returns
    /// the trade, at the price that the incoming order's side gives.
    pub fn fill(&self, incoming_order: &mut Order, standing_order: &mut Order) -> (r: Trade)
        requires
            old(incoming_order).wf(),
            old(standing_order).wf(),
        ensures
            ({
                let matched = if old(incoming_order).quantity <= old(standing_order).quantity {
                    old(incoming_order).quantity
                } else {
                    old(standing_order).quantity
                };
                &&& final(incoming_order)@ == old(incoming_order)@.with_quantity(
                    (old(incoming_order).quantity - matched) as i64,
                )
                &&& final(standing_order)@ == old(standing_order)@.with_quantity(
                    (old(standing_order).quantity - matched) as i64,
                )
                &&& r == (Trade {
                    incoming_order_id: old(incoming_order).id,
                    standing_order_id: old(standing_order).id,
                    fill_quantity: matched,
                    fill_price: old(incoming_order).side.fill_price(
                        old(incoming_order).price,
                        old(standing_order).price,
                    ),
                })
            }),
    {
        let matched_quantity: i64 = if incoming_order.quantity <= standing_order.quantity {
            incoming_order.quantity
        } else {
            standing_order.quantity
        };
        standing_order.quantity = standing_order.quantity - matched_quantity;
        incoming_order.quantity = incoming_order.quantity - matched_quantity;
        let fill_price = incoming_order.side.calc_fill_price(
            incoming_order.price,
            standing_order.price,
        );
        Trade::from_rust(incoming_order.id, standing_order.id, matched_quantity, fill_price)
    }

    /// Cancels the resting order with `order_id`.
    ///
    /// Succeeds exactly where the index holds the id, and fails with
    /// `OrderNotFound` where it does not; the engine is then unchanged. The
    /// check that the place the index names holds the order stays in the
    /// code, with `InconsistentState` as its failure, but the engine keeps
    /// every id in the index resolvable, so it never fails.
    pub fn cancel(&mut self, order_id: u128) -> (r: Result<(), EngineError>)
        requires
            old(self).wf(),
        ensures
            final(self).wf(),
            final(self)@ == old(self)@.cancel(order_id).book,
            r == old(self)@.cancel(order_id).result,
            r is Ok <==> old(self)@.index.contains_key(order_id),
            r is Err ==> r == Err::<(), EngineError>(EngineError::OrderNotFound(order_id))
                && final(self)@ == old(self)@,
            !final(self)@.index.contains_key(order_id),
            old(self)@.consistent() ==> final(self)@.consistent(),
            old(self)@.positive() ==> final(self)@.positive(),
    {
        proof {
            self.lemma_wf();
            law_cancel_finds_its_order(self@, order_id);
            if self@.positive() {
                law_cancel_keeps_quantities_positive(self@, order_id);
            }
            if self@.consistent() {
                law_cancel_keeps_index_consistent(self@, order_id);
            }
        }
        let place = match self.order_map.remove(&order_id) {
            Some(place) => place,
            None => {
                assert(self@.index =~= old(self)@.index);
                return Err(EngineError::OrderNotFound(order_id));
            },
        };
        assert(self@.index =~= old(self)@.index.remove(order_id));
        assert(place@ == old(self)@.index[order_id]);
        let slot = match self.slots.get(place.symbol.as_str()) {
            Some(slot) => *slot,
            None => {
                return Err(EngineError::InconsistentState);
            },
        };
        let ghost mid = *self;
        assert(mid.books@[slot as int]@.wf());
        let removed = match place.side {
            Side::BID => self.books[slot].bids.remove_order(place.price, order_id, true),
            Side::ASK => self.books[slot].asks.remove_order(place.price, order_id, false),
        };
        proof {
            Self::lemma_book_updated(&mid, self, slot as int, place.symbol@);
            assert(self@.books =~= old(self)@.cancel(order_id).book.books);
        }
        if removed {
            Ok(())
        } else {
            Err(EngineError::InconsistentState)
        }
    }

    /// Submits one order: matches it against the opposite side of its
    /// symbol's book, puts what is left of it to rest on its own side, and
    /// reports the trades and the order with what is left.
    ///
    /// What was filled and what is left add up to what the order came with.
    pub fn match_single(&mut self, incoming: &Order) -> (r: TradeBlotter)
        requires
            old(self).wf(),
            incoming.wf(),
        ensures
            final(self).wf(),
            final(self)@ == old(self)@.submit(incoming@).book,
            r.trades@ == old(self)@.submit(incoming@).trades,
            r.order@ == incoming@.with_quantity(old(self)@.submit(incoming@).remaining as i64),
            r.total_cost == total_cost_of(r.trades@),
            r.average_price == average_price_of(r.trades@),
            filled_quantity(r.trades@) + r.order.quantity == incoming.quantity,
            0 <= r.order.quantity <= incoming.quantity,
            fills_in_order(
                r.trades@,
                priority_order(
                    old(self)@.book_of(incoming.symbol@).side(incoming.side.opposite()),
                ),
                incoming.side,
                incoming.id,
                incoming.price,
            ),
            old(self)@.book_of(incoming.symbol@).uncrossed() ==> final(
                self
            )@.books[incoming.symbol@].uncrossed(),
            old(self)@.consistent() && !old(self)@.index.contains_key(incoming.id) ==> final(
                self
            )@.consistent(),
            old(self)@.positive() ==> final(self)@.positive() && forall|t: int|
                0 <= t < r.trades@.len() ==> (#[trigger] r.trades@[t]).fill_quantity > 0,
    {
        proof {
            self.lemma_wf();
            if self@.positive() {
                law_fills_are_positive(self@, incoming@);
            }
            if self@.book_of(incoming.symbol@).uncrossed() {
                law_no_crossing_after_match(self@, incoming@);
            }
            if self@.consistent() && !self@.index.contains_key(incoming.id) {
                law_submit_keeps_index_consistent(self@, incoming@);
            }
            let levels = self@.book_of(incoming.symbol@).side(incoming.side.opposite());
            lemma_sweep_levels(
                levels,
                incoming.side,
                incoming.id,
                incoming.price,
                incoming.quantity as int,
            );
        }
        let result = self.match_inner(
            incoming.id,
            incoming.price,
            incoming.side,
            incoming.quantity,
            incoming.symbol.as_str(),
        );
        if result.remaining_qty > 0 {
            let mut remainder = incoming.clone();
            remainder.quantity = result.remaining_qty;
            self.enqueue_internal(&remainder);
        }
        let mut result_order = incoming.clone();
        result_order.quantity = result.remaining_qty;
        let blotter = TradeBlotter::from_rust(result_order, result.trades);
        proof {
            if old(self)@.positive() {
                let trades = old(self)@.submit(incoming@).trades;
                assert forall|t: int| 0 <= t < blotter.trades@.len() implies (
                #[trigger] blotter.trades@[t]).fill_quantity > 0 by {
                    assert(trades[t].fill_quantity > 0);
                }
            }
        }
        blotter
    }

    /// A copy of the resting order with `order_id`: the first order with that
    /// id in the level that the index names. `None` exactly where the index
    /// does not hold the id.
    pub fn get_order(&self, order_id: u128) -> (r: Option<Order>)
        requires
            self.wf(),
        ensures
            match r {
                Some(order) => self@.order_of(order_id) == Some(order@),
                None => self@.order_of(order_id) is None,
            },
            r is Some <==> self@.index.contains_key(order_id),
    {
        proof {
            self.lemma_wf();
        }
        let place = match self.order_map.get(&order_id) {
            Some(place) => place,
            None => {
                return None;
            },
        };
        assert(place@ == self@.index[order_id]);
        let slot: usize = match self.slots.get(place.symbol.as_str()) {
            Some(slot) => *slot,
            None => {
                return None;
            },
        };
        assert(self.books@[slot as int]@.wf());
        assert(self@.books[place.symbol@] == self.books@[slot as int]@);
        let one_side = match place.side {
            Side::BID => &self.books[slot].bids,
            Side::ASK => &self.books[slot].asks,
        };
        let ascending: bool = matches!(place.side, Side::BID);
        if let Ok(idx) = one_side.find_level(place.price, ascending) {
            let ghost queue = one_side@[idx as int].orders;
            let n: usize = one_side.levels[idx].orders.len();
            let mut pos: usize = 0;
            while pos < n && one_side.levels[idx].orders[pos].id != order_id
                invariant
                    idx < one_side.levels.len(),
                    one_side.levels@[idx as int].orders@ == queue,
                    n == queue.len(),
                    0 <= pos <= n,
                    forall|j: int| 0 <= j < pos ==> (#[trigger] queue[j]).id != order_id,
                decreases n - pos,
            {
                pos = pos + 1;
            }
            proof {
                crate::level::lemma_index_of_id_unique(queue, order_id, pos as int);
            }
            if pos < n {
                return Some(one_side.levels[idx].orders[pos].to_order(&place.symbol, place.side));
            }
        }
        None
    }

    /// A copy of the level at `price` on `side` of the book of `symbol`, with
    /// its queue; `None` where the symbol has not been seen or the side has no
    /// level at that price. The copy is independent of the book.
    pub fn get_level(&self, symbol: &str, side: Side, price: Decimal) -> (r: Option<PriceLevel>)
        requires
            self.wf(),
            price.wf(),
        ensures
            match self@.level_at(symbol@, side, price) {
                Some(level) => r is Some && r.unwrap()@ == level_copy(level, symbol@, side),
                None => r is None,
            },
    {
        let slot: usize = match self.slots.get(symbol) {
            Some(slot) => *slot,
            None => {
                return None;
            },
        };
        assert(self.books@[slot as int]@.wf());
        assert(self@.books[symbol@] == self.books@[slot as int]@);
        let one_side = match side {
            Side::BID => &self.books[slot].bids,
            Side::ASK => &self.books[slot].asks,
        };
        let ascending: bool = matches!(side, Side::BID);
        if let Ok(idx) = one_side.find_level(price, ascending) {
            return Some(copy_level(&one_side.levels[idx], &self.books[slot].symbol, side));
        }
        None
    }

    /// Submits the orders one after the other, the first of them first, so
    /// that what one order leaves at rest the next can take. Returns one
    /// blotter for each order, in the same order.
    pub fn match_all(&mut self, orders: &Vec<Order>) -> (r: Vec<TradeBlotter>)
        requires
            old(self).wf(),
            orders_wf(orders@),
        ensures
            final(self).wf(),
            final(self)@ == old(self)@.submit_all(order_views(orders@)),
            r@.len() == orders@.len(),
            forall|i: int|
                0 <= i < r@.len() ==> {
                    let before = old(self)@.submit_all(order_views(orders@).take(i));
                    let out = before.submit(orders@[i]@);
                    &&& (#[trigger] r@[i]).trades@ == out.trades
                    &&& r@[i].order@ == orders@[i]@.with_quantity(out.remaining as i64)
                    &&& r@[i].total_cost == total_cost_of(out.trades)
                    &&& r@[i].average_price == average_price_of(out.trades)
                },
    {
        let ghost views = order_views(orders@);
        let n: usize = orders.len();
        let mut blotters: Vec<TradeBlotter> = Vec::new();
        let mut i: usize = 0;
        assert(views.take(0) =~= Seq::<OrderView>::empty());
        while i < n
            invariant
                n == orders@.len(),
                views == order_views(orders@),
                0 <= i <= n,
                orders_wf(orders@),
                self.wf(),
                self@ == old(self)@.submit_all(views.take(i as int)),
                blotters@.len() == i,
                forall|k: int|
                    0 <= k < i ==> {
                        let before = old(self)@.submit_all(views.take(k));
                        let out = before.submit(orders@[k]@);
                        &&& (#[trigger] blotters@[k]).trades@ == out.trades
                        &&& blotters@[k].order@ == orders@[k]@.with_quantity(out.remaining as i64)
                        &&& blotters@[k].total_cost == total_cost_of(out.trades)
                        &&& blotters@[k].average_price == average_price_of(out.trades)
                    },
            decreases n - i,
        {
            assert(views.take(i + 1).drop_last() =~= views.take(i as int));
            assert(views.take(i + 1).last() == orders@[i as int]@);
            let blotter = self.match_single(&orders[i]);
            blotters.push(blotter);
            i = i + 1;
        }
        assert(views.take(n as int) =~= views);
        blotters
    }

    /// Puts the orders to rest one after the other without matching.
    pub fn enqueue_all(&mut self, orders: &Vec<Order>)
        requires
            old(self).wf(),
            orders_wf(orders@),
        ensures
            final(self).wf(),
            final(self)@ == old(self)@.enqueue_all(order_views(orders@)),
    {
        let ghost views = order_views(orders@);
        let n: usize = orders.len();
        let mut i: usize = 0;
        assert(views.take(0) =~= Seq::<OrderView>::empty());
        while i < n
            invariant
                n == orders@.len(),
                views == order_views(orders@),
                0 <= i <= n,
                orders_wf(orders@),
                self.wf(),
                self@ == old(self)@.enqueue_all(views.take(i as int)),
            decreases n - i,
        {
            assert(views.take(i + 1).drop_last() =~= views.take(i as int));
            assert(views.take(i + 1).last() == orders@[i as int]@);
            self.enqueue_internal(&orders[i]);
            i = i + 1;
        }
        assert(views.take(n as int) =~= views);
    }

    /// A depth snapshot of the book of `symbol`: the best `depth` levels of
    /// each side, the best first, each with the total quantity resting at it,
    /// and the spread, the midpoint and the average prices of the levels
    /// shown. `None` where the symbol has not been seen. A depth of zero or
    /// less shows no level.
    pub fn snapshot(&self, symbol: &str, depth: isize) -> (r: Option<Snapshot>)
        requires
            self.wf(),
        ensures
            match r {
                Some(snapshot) => {
                    &&& self@.books.contains_key(symbol@)
                    &&& snapshot@ == snapshot_of(
                        self@.books[symbol@].bids,
                        self@.books[symbol@].asks,
                        depth as int,
                    )
                    &&& depth >= 0 ==> snapshot.bids@.len() <= depth && snapshot.asks@.len()
                        <= depth
                    &&& depth <= 0 ==> snapshot@ == (SnapshotView {
                        bids: Seq::empty(),
                        asks: Seq::empty(),
                        spread: None,
                        midpoint: None,
                        bid_vwap: None,
                        ask_vwap: None,
                    })
                },
                None => !self@.books.contains_key(symbol@),
            },
    {
        let slot: usize = match self.slots.get(symbol) {
            Some(slot) => *slot,
            None => {
                return None;
            },
        };
        assert(self.books@[slot as int]@.wf());
        assert(self@.books[symbol@] == self.books@[slot as int]@);
        Some(Snapshot::build(&self.books[slot].bids, &self.books[slot].asks, depth))
    }

    /// The ids that the index holds, each once, in no particular order.
    pub fn order_ids(&self) -> (r: Vec<u128>)
        requires
            self.wf(),
        ensures
            r@.to_set() == self@.index.dom(),
            r@.no_duplicates(),
    {
        let mut ids: Vec<u128> = Vec::new();
        let ghost keys = vstd::std_specs::hash::spec_keys_iter(&self.order_map).remaining();
        for id in it: self.order_map.keys()
            invariant
                it.seq() == keys,
                ids@.len() == it.index(),
                forall|j: int| 0 <= j < ids@.len() ==> ids@[j] == *it.seq()[j],
        {
            ids.push(*id);
        }
        proof {
            assert(ids@ =~= keys.unref());
            assert(self@.index.dom() =~= self.order_map@.dom());
        }
        ids
    }

    /// Where the index says the order with `order_id` rests.
    pub fn locate(&self, order_id: u128) -> (r: Option<OrderLocation>)
        requires
            self.wf(),
        ensures
            match r {
                Some(place) => self@.index.contains_key(order_id) && place@
                    == self@.index[order_id],
                None => !self@.index.contains_key(order_id),
            },
    {
        match self.order_map.get(&order_id) {
            Some(place) => Some(
                OrderLocation {
                    symbol: place.symbol.clone(),
                    side: place.side,
                    price: place.price,
                },
            ),
            None => None,
        }
    }

    /// The symbols that have been seen, each once.
    pub fn symbols(&self) -> (r: Vec<String>)
        requires
            self.wf(),
        ensures
            forall|symbol: Seq<char>|
                self@.books.contains_key(symbol) <==> exists|i: int|
                    0 <= i < r@.len() && (#[trigger] r@[i])@ == symbol,
            forall|i: int, j: int|
                0 <= i < j < r@.len() ==> (#[trigger] r@[i])@ != (#[trigger] r@[j])@,
    {
        let n: usize = self.books.len();
        let mut names: Vec<String> = Vec::new();
        let mut i: usize = 0;
        while i < n
            invariant
                n == self.books@.len(),
                0 <= i <= n,
                names@.len() == i,
                forall|k: int| 0 <= k < i ==> (#[trigger] names@[k])@ == self.books@[k].symbol@,
            decreases n - i,
        {
            names.push(self.books[i].symbol.clone());
            i = i + 1;
        }
        proof {
            assert forall|symbol: Seq<char>| self@.books.contains_key(symbol) implies exists|i: int|
                0 <= i < names@.len() && (#[trigger] names@[i])@ == symbol by {
                let slot = self.slots@[symbol] as int;
                assert(names@[slot]@ == symbol);
            }
            assert forall|symbol: Seq<char>|
                (exists|i: int|
                    0 <= i < names@.len() && (#[trigger] names@[i])@
                        == symbol) implies self@.books.contains_key(symbol) by {
                let i = choose|i: int| 0 <= i < names@.len() && (#[trigger] names@[i])@ == symbol;
                assert(self.slots@.contains_key(self.books@[i].symbol@));
            }
            assert forall|i: int, j: int| 0 <= i < j < names@.len() implies (#[trigger] names@[i])@
                != (#[trigger] names@[j])@ by {
                assert(self.slots@[self.books@[i].symbol@] == i);
                assert(self.slots@[self.books@[j].symbol@] == j);
            }
        }
        names
    }

    /// Copies of all the levels on `side` of the book of `symbol`, in the
    /// order in which the side keeps them, the best level last. `None` where
    /// the symbol has not been seen.
    pub fn levels(&self, symbol: &str, side: Side) -> (r: Option<Vec<PriceLevel>>)
        requires
            self.wf(),
        ensures
            match r {
                Some(levels) => {
                    &&& self@.books.contains_key(symbol@)
                    &&& levels@.len() == self@.books[symbol@].side(side).len()
                    &&& forall|i: int|
                        0 <= i < levels@.len() ==> (#[trigger] levels@[i])@ == level_copy(
                            self@.books[symbol@].side(side)[i],
                            symbol@,
                            side,
                        )
                },
                None => !self@.books.contains_key(symbol@),
            },
    {
        let slot: usize = match self.slots.get(symbol) {
            Some(slot) => *slot,
            None => {
                return None;
            },
        };
        assert(self@.books[symbol@] == self.books@[slot as int]@);
        let one_side = match side {
            Side::BID => &self.books[slot].bids,
            Side::ASK => &self.books[slot].asks,
        };
        let name = &self.books[slot].symbol;
        let n: usize = one_side.levels.len();
        let mut out: Vec<PriceLevel> = Vec::new();
        let mut i: usize = 0;
        while i < n
            invariant
                n == one_side@.len(),
                n == one_side.levels@.len(),
                0 <= i <= n,
                name@ == symbol@,
                out@.len() == i,
                forall|k: int|
                    0 <= k < i ==> (#[trigger] out@[k])@ == level_copy(
                        one_side@[k],
                        symbol@,
                        side,
                    ),
            decreases n - i,
        {
            out.push(copy_level(&one_side.levels[i], name, side));
            i = i + 1;
        }
        Some(out)
    }
}

} // verus!
