//! Order records from an outside source.
//!
//! A record is one row of a replay or of a bulk load: a side token, a symbol,
//! a price as decimal text and a quantity. Records are validated, all of
//! them, before any of them reaches the book, so that a bad row leaves the
//! book as it was.

use crate::book::{order_views, orders_wf, Book};
use crate::decimal::parsed_decimal;
use crate::error::{EngineError, Rejection};
use crate::order::{parse_side, side_of_token, Order, OrderView};
use crate::trade::{average_price_of, total_cost_of, TradeBlotter};
use vstd::prelude::*;

verus! {

/// One row of a replay or of a bulk load.
#[derive(Debug)]
pub struct OrderRecord {
    pub side: String,
    pub symbol: String,
    pub price: String,
    pub quantity: i64,
}

/// The mathematical value of an [`OrderRecord`].
pub struct RecordView {
    pub side: Seq<char>,
    pub symbol: Seq<char>,
    pub price: Seq<char>,
    pub quantity: i64,
}

impl View for OrderRecord {
    type V = RecordView;

    open spec fn view(&self) -> RecordView {
        RecordView {
            side: self.side@,
            symbol: self.symbol@,
            price: self.price@,
            quantity: self.quantity,
        }
    }
}

/// A record that was refused: its row, counted from zero, and why.
#[derive(Clone, Copy, Debug, PartialEq, Eq, Structural)]
pub struct RecordError {
    pub row: usize,
    pub error: EngineError,
}

impl RecordView {
    /// Why the record is refused, `None` where it is valid. The side is
    /// looked at first, then the symbol, then the quantity, then the price.
    pub open spec fn rejection(self) -> Option<Rejection> {
        if side_of_token(self.side) is None {
            Some(Rejection::Side)
        } else if self.symbol.len() == 0 {
            Some(Rejection::Symbol)
        } else if self.quantity <= 0 {
            Some(Rejection::Quantity)
        } else if parsed_decimal(self.price) is None {
            Some(Rejection::Price)
        } else {
            None
        }
    }

    /// The order that a valid record stands for, under `id`.
    pub open spec fn order(self, id: u128) -> OrderView {
        OrderView {
            id,
            price: parsed_decimal(self.price).unwrap(),
            quantity: self.quantity,
            symbol: self.symbol,
            side: side_of_token(self.side).unwrap(),
            original_quantity: self.quantity,
        }
    }
}

/// The values of the records.
pub open spec fn record_views(records: Seq<OrderRecord>) -> Seq<RecordView> {
    records.map_values(|record: OrderRecord| record@)
}

/// Whether the orders are what the records stand for, one for one, each
/// under some id.
pub open spec fn orders_of_records(orders: Seq<OrderView>, records: Seq<RecordView>) -> bool {
    &&& orders.len() == records.len()
    &&& forall|i: int|
        0 <= i < records.len() ==> (#[trigger] records[i]).rejection() is None && orders[i]
            == records[i].order(orders[i].id) && orders[i].wf()
}

/// Whether `error` names the first record that is refused, and why.
pub open spec fn first_rejected(records: Seq<RecordView>, error: RecordError) -> bool {
    &&& error.row < records.len()
    &&& forall|j: int| 0 <= j < error.row ==> (#[trigger] records[j]).rejection() is None
    &&& records[error.row as int].rejection() matches Some(why) && error.error
        == EngineError::InvalidOrder(why)
}

impl OrderRecord {
    /// The order that the record stands for, under a fresh random id; or
    /// `InvalidOrder` with the reason where the record is refused.
    pub fn to_order(&self) -> (r: Result<Order, EngineError>)
        ensures
            match r {
                Ok(order) => self@.rejection() is None && order@ == self@.order(order.id)
                    && order.wf(),
                Err(e) => self@.rejection() matches Some(why) && e == EngineError::InvalidOrder(
                    why,
                ),
            },
    {
        let side = match parse_side(self.side.as_str()) {
            Ok(side) => side,
            Err(e) => {
                return Err(e);
            },
        };
        if self.symbol.as_str().is_empty() {
            return Err(EngineError::InvalidOrder(Rejection::Symbol));
        }
        Order::new(side, self.symbol.clone(), self.price.as_str(), self.quantity)
    }
}

/// Validates the records, all of them, and returns the orders they stand
/// for, each under a fresh random id; or the first record that is refused.
pub fn validate_records(records: &Vec<OrderRecord>) -> (r: Result<Vec<Order>, RecordError>)
    ensures
        match r {
            Ok(orders) => orders_of_records(order_views(orders@), record_views(records@))
                && orders_wf(orders@),
            Err(e) => first_rejected(record_views(records@), e),
        },
{
    let n: usize = records.len();
    let mut orders: Vec<Order> = Vec::new();
    let mut i: usize = 0;
    while i < n
        invariant
            n == records@.len(),
            0 <= i <= n,
            orders@.len() == i,
            forall|j: int|
                0 <= j < i ==> (#[trigger] record_views(records@)[j]).rejection() is None
                    && orders@[j]@ == record_views(records@)[j].order(orders@[j].id)
                    && orders@[j].wf(),
        decreases n - i,
    {
        assert(record_views(records@)[i as int] == records@[i as int]@);
        match records[i].to_order() {
            Ok(order) => {
                orders.push(order);
            },
            Err(error) => {
                return Err(RecordError { row: i, error });
            },
        }
        i = i + 1;
    }
    assert forall|j: int| 0 <= j < n implies (#[trigger] record_views(records@)[j]).rejection() is None
        && order_views(orders@)[j] == record_views(records@)[j].order(order_views(orders@)[j].id)
        && order_views(orders@)[j].wf() by {
        assert(order_views(orders@)[j] == orders@[j]@);
    }
    assert(order_views(orders@).len() == record_views(records@).len());
    assert(orders_of_records(order_views(orders@), record_views(records@)));
    assert forall|j: int| 0 <= j < orders@.len() implies (#[trigger] orders@[j]).wf() by {
        assert(record_views(records@)[j].rejection() is None);
    }
    Ok(orders)
}

impl Book {
    /// Replays the records through the engine: validates all of them, then
    /// submits the orders they stand for one after the other. Returns one
    /// blotter for each record, in the same order.
    ///
    /// Where a record is refused the engine is unchanged, and the error names
    /// the first such record.
    pub fn replay(&mut self, records: &Vec<OrderRecord>) -> (r: Result<
        Vec<TradeBlotter>,
        RecordError,
    >)
        requires
            old(self).wf(),
        ensures
            final(self).wf(),
            match r {
                Ok(blotters) => exists|orders: Seq<OrderView>| #[trigger]
                    orders_of_records(orders, record_views(records@)) && final(self)@ == old(self)@.submit_all(orders) && blotters@.len() == orders.len() && forall|i: int|
                        0 <= i < blotters@.len() ==> {
                            let out = old(self)@.submit_all(orders.take(i)).submit(orders[i]);
                            &&& (#[trigger] blotters@[i]).trades@ == out.trades
                            &&& blotters@[i].order@ == orders[i].with_quantity(
                                out.remaining as i64,
                            )
                            &&& blotters@[i].total_cost == total_cost_of(out.trades)
                            &&& blotters@[i].average_price == average_price_of(out.trades)
                        },
                Err(e) => final(self)@ == old(self)@ && first_rejected(record_views(records@), e),
            },
    {
        match validate_records(records) {
            Ok(orders) => {
                let blotters = self.match_all(&orders);
                proof {
                    let views = order_views(orders@);
                    assert forall|i: int| 0 <= i < blotters@.len() implies {
                        let out = old(self)@.submit_all(views.take(i)).submit(views[i]);
                        &&& (#[trigger] blotters@[i]).trades@ == out.trades
                        &&& blotters@[i].order@ == views[i].with_quantity(out.remaining as i64)
                        &&& blotters@[i].total_cost == total_cost_of(out.trades)
                        &&& blotters@[i].average_price == average_price_of(out.trades)
                    } by {
                        assert(views[i] == orders@[i]@);
                    }
                    assert(orders_of_records(views, record_views(records@)));
                }
                Ok(blotters)
            },
            Err(e) => Err(e),
        }
    }

    /// Loads the records into the engine without matching: validates all of
    /// them, then puts the orders they stand for to rest one after the other.
    /// Returns the number of records.
    ///
    /// Where a record is refused the engine is unchanged, and the error names
    /// the first such record.
    pub fn ingest(&mut self, records: &Vec<OrderRecord>) -> (r: Result<usize, RecordError>)
        requires
            old(self).wf(),
        ensures
            final(self).wf(),
            match r {
                Ok(count) => count == records@.len() && exists|orders: Seq<OrderView>| #[trigger]
                    orders_of_records(orders, record_views(records@)) && final(self)@ == old(self)@.enqueue_all(orders),
                Err(e) => final(self)@ == old(self)@ && first_rejected(record_views(records@), e),
            },
    {
        match validate_records(records) {
            Ok(orders) => {
                self.enqueue_all(&orders);
                proof {
                    assert(orders_of_records(order_views(orders@), record_views(records@)));
                }
                Ok(records.len())
            },
            Err(e) => Err(e),
        }
    }

    /// An engine loaded with the records; see [`Book::ingest`].
    pub fn from_records(records: &Vec<OrderRecord>) -> (r: Result<Book, RecordError>)
        ensures
            match r {
                Ok(book) => book.wf() && exists|orders: Seq<OrderView>| #[trigger]
                    orders_of_records(orders, record_views(records@)) && book@
                        == Book::empty_view().enqueue_all(orders),
                Err(e) => first_rejected(record_views(records@), e),
            },
    {
        let mut book = Book::new();
        assert(book@ == Book::empty_view());
        match book.ingest(records) {
            Ok(_) => Ok(book),
            Err(e) => Err(e),
        }
    }
}

} // verus!
