//! Trades and what a match reports.

use crate::decimal::{
    checked_add, checked_div, checked_mul, decimal_product, decimal_quotient, decimal_sum,
    round_to_cents, Decimal,
};
use crate::error::EngineError;
use crate::order::{Order, OrderView, Side};
use std::collections::VecDeque;
use vstd::prelude::*;

verus! {

/// One fill between an incoming order and a resting order.
#[derive(Clone, Copy, Debug, PartialEq, Eq, Structural)]
pub struct Trade {
    pub incoming_order_id: u128,
    pub standing_order_id: u128,
    pub fill_quantity: i64,
    pub fill_price: Decimal,
}

impl Trade {
    /// A trade from its four parts.
    pub fn from_rust(
        incoming_order_id: u128,
        standing_order_id: u128,
        fill_quantity: i64,
        fill_price: Decimal,
    ) -> (r: Trade)
        ensures
            r == (Trade { incoming_order_id, standing_order_id, fill_quantity, fill_price }),
    {
        Trade { incoming_order_id, standing_order_id, fill_quantity, fill_price }
    }

    /// The id of the order that came in.
    pub fn incoming_order_id(&self) -> (r: u128)
        ensures
            r == self.incoming_order_id,
    {
        self.incoming_order_id
    }

    /// The id of the order that was resting.
    pub fn standing_order_id(&self) -> (r: u128)
        ensures
            r == self.standing_order_id,
    {
        self.standing_order_id
    }

    /// The quantity that changed hands.
    pub fn fill_quantity(&self) -> (r: i64)
        ensures
            r == self.fill_quantity,
    {
        self.fill_quantity
    }

    /// The price of the fill.
    pub fn fill_price(&self) -> (r: Decimal)
        ensures
            r == self.fill_price,
    {
        self.fill_price
    }
}

/// Every trade has a price in range.
pub open spec fn trades_wf(trades: Seq<Trade>) -> bool {
    forall|i: int| 0 <= i < trades.len() ==> (#[trigger] trades[i]).fill_price.wf()
}

/// The sum of the filled quantities of the trades.
pub open spec fn filled_quantity(trades: Seq<Trade>) -> int
    decreases trades.len(),
{
    if trades.len() == 0 {
        0
    } else {
        filled_quantity(trades.drop_last()) + trades.last().fill_quantity
    }
}

/// The whole number `n` as a decimal.
pub open spec fn whole(n: int) -> Decimal {
    Decimal { mantissa: n as i128, scale: 0 }
}

/// The sum of price times quantity over the trades, added up from the first
/// trade on in decimal arithmetic; `None` where a product or a partial sum
/// does not fit a decimal.
pub open spec fn cost_sum(trades: Seq<Trade>) -> Option<Decimal>
    decreases trades.len(),
{
    if trades.len() == 0 {
        Some(whole(0))
    } else {
        match cost_sum(trades.drop_last()) {
            Some(sum) => match decimal_product(
                trades.last().fill_price,
                whole(trades.last().fill_quantity as int),
            ) {
                Some(cost) => decimal_sum(sum, cost),
                None => None,
            },
            None => None,
        }
    }
}

/// The sum of the prices of the trades, added up from the first trade on in
/// decimal arithmetic; `None` where a partial sum does not fit a decimal.
pub open spec fn price_sum(trades: Seq<Trade>) -> Option<Decimal>
    decreases trades.len(),
{
    if trades.len() == 0 {
        Some(whole(0))
    } else {
        match price_sum(trades.drop_last()) {
            Some(sum) => decimal_sum(sum, trades.last().fill_price),
            None => None,
        }
    }
}

/// The total cost of the trades: zero for no trades, else the sum of price
/// times quantity, rounded to two decimal places.
pub open spec fn total_cost_of(trades: Seq<Trade>) -> Option<Decimal> {
    if trades.len() == 0 {
        Some(whole(0))
    } else {
        match cost_sum(trades) {
            Some(sum) => Some(sum.rounded_to_cents()),
            None => None,
        }
    }
}

/// The average price of the trades: zero for no trades, else the mean of the
/// prices, each trade counting once whatever its quantity, rounded to two
/// decimal places.
pub open spec fn average_price_of(trades: Seq<Trade>) -> Option<Decimal> {
    if trades.len() == 0 {
        Some(whole(0))
    } else {
        match price_sum(trades) {
            Some(sum) => match decimal_quotient(sum, whole(trades.len() as int)) {
                Some(mean) => Some(mean.rounded_to_cents()),
                None => None,
            },
            None => None,
        }
    }
}

/// The total cost and the average price of the trades; see [`total_cost_of`]
/// and [`average_price_of`]. Either is `None` where the decimal arithmetic
/// overflows.
pub fn compute_blotter_stats(trades: &Vec<Trade>) -> (r: (Option<Decimal>, Option<Decimal>))
    requires
        trades_wf(trades@),
    ensures
        r.0 == total_cost_of(trades@),
        r.1 == average_price_of(trades@),
        r.0 matches Some(d) ==> d.wf(),
        r.1 matches Some(d) ==> d.wf(),
{
    let n: usize = trades.len();
    if n == 0 {
        return (Some(Decimal::zero()), Some(Decimal::zero()));
    }
    let mut sum_cost: Option<Decimal> = Some(Decimal::zero());
    let mut sum_price: Option<Decimal> = Some(Decimal::zero());
    let mut i: usize = 0;
    assert(trades@.take(0) =~= Seq::<Trade>::empty());
    while i < n
        invariant
            n == trades.len(),
            0 <= i <= n,
            trades_wf(trades@),
            sum_cost == cost_sum(trades@.take(i as int)),
            sum_price == price_sum(trades@.take(i as int)),
            sum_cost matches Some(d) ==> d.wf(),
            sum_price matches Some(d) ==> d.wf(),
        decreases n - i,
    {
        let t: Trade = trades[i];
        assert(trades@.take(i + 1).drop_last() =~= trades@.take(i as int));
        assert(trades@.take(i + 1).last() == t);
        sum_cost = match sum_cost {
            Some(sum) => match checked_mul(t.fill_price, Decimal::from_i64(t.fill_quantity)) {
                Some(cost) => checked_add(sum, cost),
                None => None,
            },
            None => None,
        };
        sum_price = match sum_price {
            Some(sum) => checked_add(sum, t.fill_price),
            None => None,
        };
        i = i + 1;
    }
    assert(trades@.take(n as int) =~= trades@);
    let total_cost: Option<Decimal> = match sum_cost {
        Some(sum) => Some(round_to_cents(sum)),
        None => None,
    };
    let count = Decimal { mantissa: n as i128, scale: 0 };
    let average_price: Option<Decimal> = match sum_price {
        Some(sum) => match checked_div(sum, count) {
            Some(mean) => Some(round_to_cents(mean)),
            None => None,
        },
        None => None,
    };
    (total_cost, average_price)
}

/// What a match reports: the incoming order as the match left it, the trades
/// in the order they were made, and the two figures derived from the trades
/// when the blotter was made.
#[derive(Debug)]
pub struct TradeBlotter {
    pub order: Order,
    pub trades: Vec<Trade>,
    pub total_cost: Option<Decimal>,
    pub average_price: Option<Decimal>,
}

impl TradeBlotter {
    /// A blotter for `order` and `trades`, with the total cost and the average
    /// price of the trades.
    pub fn new(order: Order, trades: Vec<Trade>) -> (r: TradeBlotter)
        requires
            trades_wf(trades@),
        ensures
            r.order == order,
            r.trades == trades,
            r.total_cost == total_cost_of(trades@),
            r.average_price == average_price_of(trades@),
    {
        TradeBlotter::from_rust(order, trades)
    }

    /// A blotter for `order` and `trades`, with the total cost and the average
    /// price of the trades.
    pub fn from_rust(order: Order, trades: Vec<Trade>) -> (r: TradeBlotter)
        requires
            trades_wf(trades@),
        ensures
            r.order == order,
            r.trades == trades,
            r.total_cost == total_cost_of(trades@),
            r.average_price == average_price_of(trades@),
    {
        let (total_cost, average_price) = compute_blotter_stats(&trades);
        TradeBlotter { order, trades, total_cost, average_price }
    }

    /// The incoming order as the match left it.
    pub fn order(&self) -> (r: Order)
        ensures
            r == self.order,
    {
        self.order.clone()
    }

    /// The trades, in the order they were made.
    pub fn trades(&self) -> (r: &Vec<Trade>)
        ensures
            r == self.trades,
    {
        &self.trades
    }

    /// The sum of price times quantity over the trades, rounded to two
    /// decimal places; `None` where it does not fit a decimal.
    pub fn total_cost(&self) -> (r: Option<Decimal>)
        ensures
            r == self.total_cost,
    {
        self.total_cost
    }

    /// The mean of the trade prices, rounded to two decimal places; `None`
    /// where it does not fit a decimal.
    pub fn average_price(&self) -> (r: Option<Decimal>)
        ensures
            r == self.average_price,
    {
        self.average_price
    }
}

/// The position of the first order with `id`, the length where there is none.
pub open spec fn position_of(orders: Seq<OrderView>, id: u128) -> int
    decreases orders.len(),
{
    if orders.len() == 0 {
        0
    } else if orders[0].id == id {
        0
    } else {
        1 + position_of(orders.drop_first(), id)
    }
}

/// The first order with `id` is where [`position_of`] says, and a position
/// that no order with `id` precedes is that position.
pub proof fn lemma_position_of(orders: Seq<OrderView>, id: u128, k: int)
    ensures
        0 <= position_of(orders, id) <= orders.len(),
        forall|j: int| 0 <= j < position_of(orders, id) ==> (#[trigger] orders[j]).id != id,
        position_of(orders, id) < orders.len() ==> orders[position_of(orders, id)].id == id,
        0 <= k <= orders.len() && (forall|j: int| 0 <= j < k ==> (#[trigger] orders[j]).id != id)
            && (k < orders.len() ==> orders[k].id == id) ==> position_of(orders, id) == k,
    decreases orders.len(),
{
    if orders.len() > 0 && orders[0].id != id {
        let rest = orders.drop_first();
        lemma_position_of(rest, id, k - 1);
        let p = position_of(rest, id);
        assert forall|j: int| 0 <= j < p + 1 implies (#[trigger] orders[j]).id != id by {
            if j > 0 {
                assert(rest[j - 1] == orders[j]);
            }
        }
        if p < rest.len() {
            assert(rest[p] == orders[p + 1]);
        }
        if 0 <= k <= orders.len() && (forall|j: int| 0 <= j < k ==> (#[trigger] orders[j]).id != id)
            && (k < orders.len() ==> orders[k].id == id) {
            assert(k > 0);
            assert forall|j: int| 0 <= j < k - 1 implies (#[trigger] rest[j]).id != id by {
                assert(rest[j] == orders[j + 1]);
            }
            if k - 1 < rest.len() {
                assert(rest[k - 1] == orders[k]);
            }
        }
    } else if orders.len() > 0 {
        if 0 < k <= orders.len() && (forall|j: int| 0 <= j < k ==> (#[trigger] orders[j]).id != id) {
            assert(orders[0].id != id);
        }
    }
}

/// A first-in-first-out queue of orders, which can also be searched by id.
#[derive(Debug)]
pub struct OrderQueue {
    pub orders: VecDeque<Order>,
}

impl View for OrderQueue {
    type V = Seq<OrderView>;

    open spec fn view(&self) -> Seq<OrderView> {
        self.orders@.map_values(|order: Order| order@)
    }
}

impl OrderQueue {
    /// An empty queue.
    pub fn new() -> (r: OrderQueue)
        ensures
            r@ == Seq::<OrderView>::empty(),
    {
        let r = OrderQueue { orders: VecDeque::new() };
        assert(r@ =~= Seq::<OrderView>::empty());
        r
    }

    /// Puts `order` at the back of the queue.
    pub fn append_order(&mut self, order: Order)
        ensures
            final(self)@ == old(self)@.push(order@),
    {
        self.orders.push_back(order);
        assert(self@ =~= old(self)@.push(order@));
    }

    /// The number of orders.
    pub fn len(&self) -> (r: usize)
        ensures
            r == self@.len(),
    {
        self.orders.len()
    }

    /// Whether the queue holds no order.
    pub fn is_empty(&self) -> (r: bool)
        ensures
            r == (self@.len() == 0),
    {
        self.orders.len() == 0
    }

    /// A copy of the oldest order; `EmptyQueueAccess` on an empty queue.
    pub fn peek(&self) -> (r: Result<Order, EngineError>)
        ensures
            match r {
                Ok(order) => self@.len() > 0 && order@ == self@[0],
                Err(e) => self@.len() == 0 && e == EngineError::EmptyQueueAccess,
            },
    {
        if self.orders.len() == 0 {
            Err(EngineError::EmptyQueueAccess)
        } else {
            Ok(self.orders[0].clone())
        }
    }

    /// Drops the oldest order; `EmptyQueueAccess` on an empty queue.
    pub fn popleft(&mut self) -> (r: Result<(), EngineError>)
        ensures
            match r {
                Ok(_) => old(self)@.len() > 0 && final(self)@ == old(self)@.drop_first(),
                Err(e) => {
                    &&& old(self)@.len() == 0
                    &&& e == EngineError::EmptyQueueAccess
                    &&& final(self)@ == old(self)@
                },
            },
    {
        match self.orders.pop_front() {
            Some(_) => {
                assert(self@ =~= old(self)@.drop_first());
                Ok(())
            },
            None => {
                assert(self@ =~= old(self)@);
                Err(EngineError::EmptyQueueAccess)
            },
        }
    }

    /// The position of the first order with `order_id`, if there is one.
    pub fn position(&self, order_id: u128) -> (r: Option<usize>)
        ensures
            match r {
                Some(k) => k == position_of(self@, order_id) && k < self@.len(),
                None => position_of(self@, order_id) == self@.len(),
            },
    {
        let n: usize = self.orders.len();
        let mut pos: usize = 0;
        while pos < n && self.orders[pos].id != order_id
            invariant
                n == self.orders.len(),
                0 <= pos <= n,
                forall|j: int| 0 <= j < pos ==> (#[trigger] self@[j]).id != order_id,
            decreases n - pos,
        {
            pos = pos + 1;
        }
        proof {
            lemma_position_of(self@, order_id, pos as int);
        }
        if pos < n {
            Some(pos)
        } else {
            None
        }
    }

    /// Takes the first order with `order_id` out of the queue and returns it;
    /// `OrderNotFound` where there is none, and the queue is then unchanged.
    pub fn pop(&mut self, order_id: u128) -> (r: Result<Order, EngineError>)
        ensures
            match r {
                Ok(order) => {
                    let k = position_of(old(self)@, order_id);
                    &&& k < old(self)@.len()
                    &&& order@ == old(self)@[k]
                    &&& final(self)@ == old(self)@.remove(k)
                },
                Err(e) => {
                    &&& position_of(old(self)@, order_id) == old(self)@.len()
                    &&& e == EngineError::OrderNotFound(order_id)
                    &&& final(self)@ == old(self)@
                },
            },
    {
        match self.position(order_id) {
            Some(k) => {
                let taken = self.orders.remove(k);
                assert(self@ =~= old(self)@.remove(k as int));
                Ok(taken.unwrap())
            },
            None => Err(EngineError::OrderNotFound(order_id)),
        }
    }

    /// A copy of the first order with `order_id`; `OrderNotFound` where there
    /// is none.
    pub fn get(&self, order_id: u128) -> (r: Result<Order, EngineError>)
        ensures
            match r {
                Ok(order) => {
                    let k = position_of(self@, order_id);
                    k < self@.len() && order@ == self@[k]
                },
                Err(e) => position_of(self@, order_id) == self@.len() && e
                    == EngineError::OrderNotFound(order_id),
            },
    {
        match self.position(order_id) {
            Some(k) => Ok(self.orders[k].clone()),
            None => Err(EngineError::OrderNotFound(order_id)),
        }
    }

    /// Whether the queue holds an order with `order_id`.
    pub fn contains(&self, order_id: u128) -> (r: bool)
        ensures
            r == (position_of(self@, order_id) < self@.len()),
            r == exists|j: int| 0 <= j < self@.len() && (#[trigger] self@[j]).id == order_id,
    {
        proof {
            lemma_position_of(self@, order_id, 0);
        }
        self.position(order_id).is_some()
    }

    /// The ids of the orders, the oldest first.
    pub fn ids(&self) -> (r: Vec<u128>)
        ensures
            r@ == self@.map_values(|order: OrderView| order.id),
    {
        let n: usize = self.orders.len();
        let mut ids: Vec<u128> = Vec::new();
        let mut i: usize = 0;
        while i < n
            invariant
                n == self.orders.len(),
                0 <= i <= n,
                ids@ == self@.take(i as int).map_values(|order: OrderView| order.id),
            decreases n - i,
        {
            ids.push(self.orders[i].id);
            assert(ids@ =~= self@.take(i + 1).map_values(|order: OrderView| order.id));
            i = i + 1;
        }
        assert(self@.take(n as int) =~= self@);
        ids
    }
}

/// A price level as it is handed out: a copy of the orders that rest at one
/// price on one side.
#[derive(Debug)]
pub struct PriceLevel {
    pub side: Side,
    pub price: Decimal,
    pub orders: OrderQueue,
}

/// The mathematical value of a [`PriceLevel`].
pub struct PriceLevelView {
    pub side: Side,
    pub price: Decimal,
    pub orders: Seq<OrderView>,
}

impl View for PriceLevel {
    type V = PriceLevelView;

    open spec fn view(&self) -> PriceLevelView {
        PriceLevelView { side: self.side, price: self.price, orders: self.orders@ }
    }
}

impl PriceLevel {
    /// A level without orders.
    pub fn from_rust(side: Side, price: Decimal) -> (r: PriceLevel)
        ensures
            r@ == (PriceLevelView { side, price, orders: Seq::empty() }),
    {
        PriceLevel { side, price, orders: OrderQueue::new() }
    }

    /// The price of the level.
    pub fn price(&self) -> (r: Decimal)
        ensures
            r == self.price,
    {
        self.price
    }

    /// Whether this level is at least as good as `other`: for bids at the
    /// same or a higher price, for asks at the same or a lower one.
    pub fn lt(&self, other: &PriceLevel) -> (r: bool)
        requires
            self.price.wf(),
            other.price.wf(),
        ensures
            r == self.side.crosses(self.price, other.price),
    {
        self.side.price_is_matchable(self.price, other.price)
    }
}

} // verus!
