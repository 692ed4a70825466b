//! Matching an incoming order against one side of the book.
//!
//! The incoming order walks the opposite side from the best price outward.
//! At each level it fills the resting orders from the front of the queue, and
//! it stops at the first level whose price it does not cross.

use crate::decimal::Decimal;
use crate::level::{side_wf, LevelView, OneSide, OrderEntry, PriceLevelInner};
use crate::order::Side;
use crate::trade::{filled_quantity, Trade};
use std::collections::HashMap;
use vstd::prelude::*;

verus! {

broadcast use vstd::std_specs::hash::group_hash_axioms;

/// What sweeping one queue leaves: the queue, the trades in the order they
/// were made, the ids of the resting orders that were filled completely, and
/// the quantity of the incoming order that is still open.
pub struct QueueOutcome {
    pub orders: Seq<OrderEntry>,
    pub trades: Seq<Trade>,
    pub filled: Seq<u128>,
    pub remaining: int,
}

/// What sweeping a side leaves: the side, the trades in the order they were
/// made, the ids of the resting orders that were filled completely, and the
/// quantity of the incoming order that is still open.
pub struct SweepOutcome {
    pub levels: Seq<LevelView>,
    pub trades: Seq<Trade>,
    pub filled: Seq<u128>,
    pub remaining: int,
}

/// Fills the orders of a queue from the front with `qty` of an incoming order
/// of `side`, id `taker` and limit price `limit`. Each resting order gives as
/// much as both sides have; one that is filled completely leaves the queue.
pub open spec fn sweep_queue(
    orders: Seq<OrderEntry>,
    side: Side,
    taker: u128,
    limit: Decimal,
    qty: int,
) -> QueueOutcome
    decreases orders.len(),
{
    if qty <= 0 || orders.len() == 0 {
        QueueOutcome { orders, trades: Seq::empty(), filled: Seq::empty(), remaining: qty }
    } else {
        let head = orders[0];
        let fill = if qty <= head.quantity {
            qty
        } else {
            head.quantity as int
        };
        let trade = Trade {
            incoming_order_id: taker,
            standing_order_id: head.id,
            fill_quantity: fill as i64,
            fill_price: side.fill_price(limit, head.price),
        };
        if fill == head.quantity {
            let rest = sweep_queue(orders.drop_first(), side, taker, limit, qty - fill);
            QueueOutcome {
                orders: rest.orders,
                trades: seq![trade] + rest.trades,
                filled: seq![head.id] + rest.filled,
                remaining: rest.remaining,
            }
        } else {
            QueueOutcome {
                orders: orders.update(0, head.with_quantity((head.quantity - fill) as i64)),
                trades: seq![trade],
                filled: Seq::empty(),
                remaining: qty - fill,
            }
        }
    }
}

/// Sweeps a side from its best level, the last one, outward, for as long as
/// the incoming order has quantity left and crosses the level's price. A level
/// whose queue is emptied leaves the side.
pub open spec fn sweep_levels(
    levels: Seq<LevelView>,
    side: Side,
    taker: u128,
    limit: Decimal,
    qty: int,
) -> SweepOutcome
    decreases levels.len(),
{
    if qty <= 0 || levels.len() == 0 || !side.crosses(limit, levels.last().price) {
        SweepOutcome { levels, trades: Seq::empty(), filled: Seq::empty(), remaining: qty }
    } else {
        let best = levels.last();
        let q = sweep_queue(best.orders, side, taker, limit, qty);
        if q.orders.len() == 0 {
            let rest = sweep_levels(levels.drop_last(), side, taker, limit, q.remaining);
            SweepOutcome {
                levels: rest.levels,
                trades: q.trades + rest.trades,
                filled: q.filled + rest.filled,
                remaining: rest.remaining,
            }
        } else {
            SweepOutcome {
                levels: levels.drop_last().push(LevelView { price: best.price, orders: q.orders }),
                trades: q.trades,
                filled: q.filled,
                remaining: q.remaining,
            }
        }
    }
}

/// Every order of the queue is well formed and rests at `price`.
pub open spec fn queue_at(orders: Seq<OrderEntry>, price: Decimal) -> bool {
    forall|k: int|
        0 <= k < orders.len() ==> (#[trigger] orders[k]).wf() && orders[k].price.units()
            == price.units()
}

/// Sweeping a queue of well-formed orders leaves well-formed orders at the
/// same price, takes no more than was asked for, and leaves an order in the
/// queue only once the incoming order is filled.
pub proof fn lemma_sweep_queue_wf(
    orders: Seq<OrderEntry>,
    side: Side,
    taker: u128,
    limit: Decimal,
    qty: int,
    price: Decimal,
)
    requires
        queue_at(orders, price),
        qty >= 0,
    ensures
        queue_at(sweep_queue(orders, side, taker, limit, qty).orders, price),
        0 <= sweep_queue(orders, side, taker, limit, qty).remaining <= qty,
        qty > 0 && sweep_queue(orders, side, taker, limit, qty).orders.len() > 0 ==> sweep_queue(
            orders,
            side,
            taker,
            limit,
            qty,
        ).remaining == 0,
    decreases orders.len(),
{
    if qty > 0 && orders.len() > 0 {
        let head = orders[0];
        assert(head.wf());
        let fill = if qty <= head.quantity {
            qty
        } else {
            head.quantity as int
        };
        if fill == head.quantity {
            let rest = orders.drop_first();
            assert forall|k: int| 0 <= k < rest.len() implies (#[trigger] rest[k]).wf()
                && rest[k].price.units() == price.units() by {
                assert(rest[k] == orders[k + 1]);
            }
            lemma_sweep_queue_wf(rest, side, taker, limit, qty - fill, price);
        } else {
            let after = orders.update(0, head.with_quantity((head.quantity - fill) as i64));
            assert forall|k: int| 0 <= k < after.len() implies (#[trigger] after[k]).wf()
                && after[k].price.units() == price.units() by {
                if k > 0 {
                    assert(after[k] == orders[k]);
                }
            }
        }
    }
}

/// The resting orders of a side in the order in which an incoming order meets
/// them: the best level first, and within a level the oldest order first.
pub open spec fn priority_order(levels: Seq<LevelView>) -> Seq<OrderEntry>
    decreases levels.len(),
{
    if levels.len() == 0 {
        Seq::empty()
    } else {
        levels.last().orders + priority_order(levels.drop_last())
    }
}

/// The ids of the first `n` orders.
pub open spec fn leading_ids(orders: Seq<OrderEntry>, n: int) -> Seq<u128> {
    Seq::new(n as nat, |i: int| orders[i].id)
}

/// Whether `after` is what is left of the orders `before` once the first
/// `before.len() - after.len()` of them are gone: the same orders in the same
/// order, of which only the first may have less quantity left.
pub open spec fn remainder_of(after: Seq<OrderEntry>, before: Seq<OrderEntry>) -> bool {
    let gone = before.len() - after.len();
    &&& gone >= 0
    &&& forall|j: int|
        0 <= j < after.len() ==> (#[trigger] after[j]).id == before[gone + j].id && after[j].price
            == before[gone + j].price && after[j].original_quantity == before[gone
            + j].original_quantity && 0 <= after[j].quantity <= before[gone + j].quantity
    &&& forall|j: int| 1 <= j < after.len() ==> (#[trigger] after[j]) == before[gone + j]
    &&& after.len() > 0 && after[0].quantity == 0 ==> before[gone].quantity == 0
}

/// Whether the trades are fills of the orders `resting` one after the other,
/// from the first on, by the incoming order `taker` of `side` with limit
/// `limit`: each trade is with the next order, at the price that the two
/// prices give, only the last trade may leave its order partly filled, and
/// no trade is empty but with an order that has nothing left.
pub open spec fn fills_in_order(
    trades: Seq<Trade>,
    resting: Seq<OrderEntry>,
    side: Side,
    taker: u128,
    limit: Decimal,
) -> bool {
    &&& trades.len() <= resting.len()
    &&& forall|t: int|
        0 <= t < trades.len() ==> (#[trigger] trades[t]).incoming_order_id == taker
            && trades[t].standing_order_id == resting[t].id && trades[t].fill_price
            == side.fill_price(limit, resting[t].price) && 0 <= trades[t].fill_quantity
            <= resting[t].quantity
    &&& forall|t: int|
        0 <= t < trades.len() - 1 ==> (#[trigger] trades[t]).fill_quantity == resting[t].quantity
    &&& forall|t: int|
        0 <= t < trades.len() && (#[trigger] trades[t]).fill_quantity == 0
            ==> resting[t].quantity == 0
}

/// The filled quantity of two runs of trades is the sum of the two.
pub proof fn lemma_filled_quantity_concat(a: Seq<Trade>, b: Seq<Trade>)
    ensures
        filled_quantity(a + b) == filled_quantity(a) + filled_quantity(b),
    decreases b.len(),
{
    if b.len() == 0 {
        assert(a + b =~= a);
    } else {
        assert((a + b).drop_last() =~= a + b.drop_last());
        assert((a + b).last() == b.last());
        lemma_filled_quantity_concat(a, b.drop_last());
    }
}

/// The filled quantity of a single trade is its quantity.
pub proof fn lemma_filled_quantity_one(trade: Trade)
    ensures
        filled_quantity(seq![trade]) == trade.fill_quantity,
{
    assert(seq![trade].drop_last() =~= Seq::<Trade>::empty());
    assert(seq![trade].last() == trade);
    assert(filled_quantity(seq![trade].drop_last()) == 0);
}

/// What a sweep of one queue does, order by order: the trades are fills of
/// the queue's orders from the front on; the orders that were filled
/// completely are gone, in `filled`, and the rest is left as it was but for
/// the first; and what was filled and what is still open add up to what was
/// asked for.
#[verifier::rlimit(60)]
pub proof fn lemma_sweep_queue(
    orders: Seq<OrderEntry>,
    side: Side,
    taker: u128,
    limit: Decimal,
    qty: int,
    price: Decimal,
)
    requires
        queue_at(orders, price),
        qty >= 0,
    ensures
        ({
            let out = sweep_queue(orders, side, taker, limit, qty);
            let gone = orders.len() - out.orders.len();
            &&& fills_in_order(out.trades, orders, side, taker, limit)
            &&& remainder_of(out.orders, orders)
            &&& out.filled == leading_ids(orders, gone)
            &&& gone <= out.trades.len() <= gone + 1
            &&& out.trades.len() == gone + 1 ==> out.trades[gone].fill_quantity
                < orders[gone].quantity && out.orders[0].quantity == orders[gone].quantity
                - out.trades[gone].fill_quantity
            &&& out.trades.len() == gone && out.orders.len() > 0 ==> out.orders[0] == orders[gone]
            &&& forall|t: int|
                0 <= t < gone ==> (#[trigger] out.trades[t]).fill_quantity == orders[t].quantity
            &&& filled_quantity(out.trades) + out.remaining == qty
            &&& 0 <= out.remaining <= qty
        }),
    decreases orders.len(),
{
    let out = sweep_queue(orders, side, taker, limit, qty);
    if qty <= 0 || orders.len() == 0 {
        assert(out.filled =~= leading_ids(orders, 0));
    } else {
        let head = orders[0];
        assert(head.wf());
        let fill = if qty <= head.quantity {
            qty
        } else {
            head.quantity as int
        };
        let trade = Trade {
            incoming_order_id: taker,
            standing_order_id: head.id,
            fill_quantity: fill as i64,
            fill_price: side.fill_price(limit, head.price),
        };
        if fill == head.quantity {
            let rest = orders.drop_first();
            assert forall|k: int| 0 <= k < rest.len() implies (#[trigger] rest[k]).wf()
                && rest[k].price.units() == price.units() by {
                assert(rest[k] == orders[k + 1]);
            }
            lemma_sweep_queue(rest, side, taker, limit, qty - fill, price);
            let r = sweep_queue(rest, side, taker, limit, qty - fill);
            let gone_r = rest.len() - r.orders.len();
            let gone = orders.len() - out.orders.len();
            assert(gone == gone_r + 1);
            assert forall|t: int| 0 <= t < out.trades.len() implies (
            #[trigger] out.trades[t]).incoming_order_id == taker && out.trades[t].standing_order_id
                == orders[t].id && out.trades[t].fill_price == side.fill_price(
                limit,
                orders[t].price,
            ) && 0 <= out.trades[t].fill_quantity <= orders[t].quantity by {
                if t > 0 {
                    assert(out.trades[t] == r.trades[t - 1]);
                    assert(rest[t - 1] == orders[t]);
                }
            }
            assert forall|t: int| 0 <= t < out.trades.len() - 1 implies (
            #[trigger] out.trades[t]).fill_quantity == orders[t].quantity by {
                if t > 0 {
                    assert(out.trades[t] == r.trades[t - 1]);
                    assert(rest[t - 1] == orders[t]);
                }
            }
            assert forall|t: int| 0 <= t < gone implies (#[trigger] out.trades[t]).fill_quantity
                == orders[t].quantity by {
                if t > 0 {
                    assert(out.trades[t] == r.trades[t - 1]);
                    assert(rest[t - 1] == orders[t]);
                }
            }
            assert forall|j: int| 0 <= j < out.orders.len() implies (#[trigger] out.orders[j]).id
                == orders[gone + j].id && out.orders[j].price == orders[gone + j].price
                && out.orders[j].original_quantity == orders[gone + j].original_quantity && 0
                <= out.orders[j].quantity <= orders[gone + j].quantity by {
                assert(out.orders[j] == r.orders[j]);
                assert(rest[gone_r + j] == orders[gone + j]);
            }
            assert forall|j: int| 1 <= j < out.orders.len() implies (#[trigger] out.orders[j])
                == orders[gone + j] by {
                assert(out.orders[j] == r.orders[j]);
                assert(rest[gone_r + j] == orders[gone + j]);
            }
            assert(out.filled =~= leading_ids(orders, gone)) by {
                assert forall|i: int| 0 <= i < gone implies out.filled[i] == orders[i].id by {
                    if i > 0 {
                        assert(out.filled[i] == r.filled[i - 1]);
                        assert(rest[i - 1] == orders[i]);
                    }
                }
            }
            if out.trades.len() == gone + 1 {
                assert(out.trades[gone] == r.trades[gone_r]);
                assert(rest[gone_r] == orders[gone]);
            }
            if out.orders.len() > 0 {
                assert(rest[gone_r] == orders[gone]);
            }
            lemma_filled_quantity_concat(seq![trade], r.trades);
            lemma_filled_quantity_one(trade);
        } else {
            assert(out.filled =~= leading_ids(orders, 0));
            lemma_filled_quantity_one(trade);
        }
    }
}

/// The priority order of a side with one more level at the best end.
pub proof fn lemma_priority_order_push(levels: Seq<LevelView>, best: LevelView)
    ensures
        priority_order(levels.push(best)) == best.orders + priority_order(levels),
{
    assert(levels.push(best).drop_last() =~= levels);
}

/// What a match against a side does, order by order. The trades are fills of
/// the resting orders in priority order: the best price first, and within a
/// price the oldest order first. The orders that were filled completely are
/// gone, in `filled`, and the rest is left as it was but for the first. What
/// was filled and what is still open add up to what was asked for. Every
/// trade is at the price of its resting order. And where something is still
/// open, no level is left that the incoming order crosses.
#[verifier::rlimit(100)]
pub proof fn lemma_sweep_levels(
    levels: Seq<LevelView>,
    side: Side,
    taker: u128,
    limit: Decimal,
    qty: int,
)
    requires
        side_wf(levels, side.opposite().ascending()),
        limit.wf(),
        qty >= 0,
    ensures
        ({
            let out = sweep_levels(levels, side, taker, limit, qty);
            let resting = priority_order(levels);
            let left = priority_order(out.levels);
            &&& fills_in_order(out.trades, resting, side, taker, limit)
            &&& remainder_of(left, resting)
            &&& out.filled == leading_ids(resting, resting.len() - left.len())
            &&& forall|t: int|
                0 <= t < out.trades.len() ==> (#[trigger] out.trades[t]).fill_price.wf()
                    && out.trades[t].fill_price.units() == resting[t].price.units()
            &&& filled_quantity(out.trades) + out.remaining == qty
            &&& 0 <= out.remaining <= qty
            &&& side_wf(out.levels, side.opposite().ascending())
            &&& out.levels.len() <= levels.len()
            &&& forall|i: int|
                0 <= i < out.levels.len() ==> (#[trigger] out.levels[i]).price == levels[i].price
            &&& out.remaining > 0 && out.levels.len() > 0 ==> !side.crosses(
                limit,
                out.levels.last().price,
            )
        }),
    decreases levels.len(),
{
    let ascending = side.opposite().ascending();
    let out = sweep_levels(levels, side, taker, limit, qty);
    let resting = priority_order(levels);
    if qty <= 0 || levels.len() == 0 || !side.crosses(limit, levels.last().price) {
        assert(out.filled =~= leading_ids(resting, 0));
        lemma_priority_order_wf(levels, ascending);
    } else {
        let best = levels.last();
        let front = levels.drop_last();
        assert(levels[levels.len() - 1].wf());
        assert forall|i: int| 0 <= i < front.len() implies (#[trigger] front[i]).wf() by {
            assert(front[i] == levels[i]);
        }
        assert forall|i: int, j: int| 0 <= i < j < front.len() implies crate::level::precedes(
            ascending,
            (#[trigger] front[i]).price,
            (#[trigger] front[j]).price,
        ) by {
            assert(front[i] == levels[i] && front[j] == levels[j]);
        }
        let q = sweep_queue(best.orders, side, taker, limit, qty);
        lemma_sweep_queue(best.orders, side, taker, limit, qty, best.price);
        lemma_sweep_queue_wf(best.orders, side, taker, limit, qty, best.price);
        let n = best.orders.len() as int;
        assert forall|t: int| 0 <= t < q.trades.len() implies (#[trigger] q.trades[t]).fill_price.wf()
            && q.trades[t].fill_price.units() == best.orders[t].price.units() by {
            assert(best.orders[t].wf());
        }
        if q.orders.len() == 0 {
            let rest = sweep_levels(front, side, taker, limit, q.remaining);
            lemma_sweep_levels(front, side, taker, limit, q.remaining);
            let resting_rest = priority_order(front);
            let left = priority_order(out.levels);
            let gone_rest = resting_rest.len() - left.len();
            assert(q.trades.len() == n);
            assert(out.trades == q.trades + rest.trades);
            assert forall|t: int| 0 <= t < out.trades.len() implies (
            #[trigger] out.trades[t]).incoming_order_id == taker && out.trades[t].standing_order_id
                == resting[t].id && out.trades[t].fill_price == side.fill_price(
                limit,
                resting[t].price,
            ) && 0 <= out.trades[t].fill_quantity <= resting[t].quantity
                && out.trades[t].fill_price.wf() && out.trades[t].fill_price.units()
                == resting[t].price.units() by {
                if t < n {
                    assert(out.trades[t] == q.trades[t]);
                    assert(resting[t] == best.orders[t]);
                } else {
                    assert(out.trades[t] == rest.trades[t - n]);
                    assert(resting[t] == resting_rest[t - n]);
                }
            }
            assert forall|t: int| 0 <= t < out.trades.len() - 1 implies (
            #[trigger] out.trades[t]).fill_quantity == resting[t].quantity by {
                if t < n {
                    assert(out.trades[t] == q.trades[t]);
                    assert(resting[t] == best.orders[t]);
                } else {
                    assert(out.trades[t] == rest.trades[t - n]);
                    assert(resting[t] == resting_rest[t - n]);
                }
            }
            assert forall|j: int| 0 <= j < left.len() implies (#[trigger] left[j]).id
                == resting[resting.len() - left.len() + j].id && left[j].price
                == resting[resting.len() - left.len() + j].price && left[j].original_quantity
                == resting[resting.len() - left.len() + j].original_quantity && 0
                <= left[j].quantity <= resting[resting.len() - left.len() + j].quantity by {
                assert(resting[n + gone_rest + j] == resting_rest[gone_rest + j]);
            }
            assert forall|j: int| 1 <= j < left.len() implies (#[trigger] left[j])
                == resting[resting.len() - left.len() + j] by {
                assert(resting[n + gone_rest + j] == resting_rest[gone_rest + j]);
            }
            assert(out.filled =~= leading_ids(resting, resting.len() - left.len())) by {
                assert forall|i: int| 0 <= i < n + gone_rest implies (q.filled + rest.filled)[i]
                    == resting[i].id by {
                    if i < n {
                        assert(resting[i] == best.orders[i]);
                    } else {
                        assert(resting[i] == resting_rest[i - n]);
                    }
                }
            }
            lemma_filled_quantity_concat(q.trades, rest.trades);
            assert forall|i: int| 0 <= i < out.levels.len() implies (#[trigger] out.levels[i]).price
                == levels[i].price by {
                assert(front[i] == levels[i]);
            }
        } else {
            let kept = LevelView { price: best.price, orders: q.orders };
            lemma_priority_order_push(front, kept);
            let left = priority_order(out.levels);
            let resting_rest = priority_order(front);
            let gone = n - q.orders.len();
            assert(left == q.orders + resting_rest);
            assert(resting.len() - left.len() == gone);
            assert forall|t: int| 0 <= t < out.trades.len() implies (
            #[trigger] out.trades[t]).incoming_order_id == taker && out.trades[t].standing_order_id
                == resting[t].id && out.trades[t].fill_price == side.fill_price(
                limit,
                resting[t].price,
            ) && 0 <= out.trades[t].fill_quantity <= resting[t].quantity
                && out.trades[t].fill_price.wf() && out.trades[t].fill_price.units()
                == resting[t].price.units() by {
                assert(resting[t] == best.orders[t]);
            }
            assert forall|t: int| 0 <= t < out.trades.len() - 1 implies (
            #[trigger] out.trades[t]).fill_quantity == resting[t].quantity by {
                assert(resting[t] == best.orders[t]);
            }
            assert forall|j: int| 0 <= j < left.len() implies (#[trigger] left[j]).id
                == resting[gone + j].id && left[j].price == resting[gone + j].price
                && left[j].original_quantity == resting[gone + j].original_quantity && 0
                <= left[j].quantity <= resting[gone + j].quantity by {
                if j < q.orders.len() {
                    assert(left[j] == q.orders[j]);
                    assert(resting[gone + j] == best.orders[gone + j]);
                } else {
                    assert(left[j] == resting_rest[j - q.orders.len()]);
                    assert(resting[gone + j] == resting_rest[gone + j - n]);
                    assert(resting_rest[j - q.orders.len()].wf()) by {
                        lemma_priority_order_wf(front, ascending);
                    }
                }
            }
            assert forall|j: int| 1 <= j < left.len() implies (#[trigger] left[j]) == resting[gone
                + j] by {
                if j < q.orders.len() {
                    assert(left[j] == q.orders[j]);
                    assert(resting[gone + j] == best.orders[gone + j]);
                } else {
                    assert(left[j] == resting_rest[j - q.orders.len()]);
                    assert(resting[gone + j] == resting_rest[gone + j - n]);
                }
            }
            assert(out.filled =~= leading_ids(resting, gone)) by {
                assert forall|i: int| 0 <= i < gone implies q.filled[i] == resting[i].id by {
                    assert(resting[i] == best.orders[i]);
                }
            }
            assert(kept.wf());
            assert forall|i: int| 0 <= i < out.levels.len() implies (#[trigger] out.levels[i]).wf() by {
                if i < front.len() {
                    assert(out.levels[i] == levels[i]);
                }
            }
            assert forall|i: int, j: int| 0 <= i < j < out.levels.len() implies crate::level::precedes(
                ascending,
                (#[trigger] out.levels[i]).price,
                (#[trigger] out.levels[j]).price,
            ) by {
                assert(out.levels[i].price == levels[i].price);
                assert(out.levels[j].price == levels[j].price);
            }
            assert forall|i: int| 0 <= i < out.levels.len() implies (#[trigger] out.levels[i]).price
                == levels[i].price by {
                if i < front.len() {
                    assert(out.levels[i] == levels[i]);
                }
            }
        }
    }
}

/// Every resting order of a well-formed side is well formed.
pub proof fn lemma_priority_order_wf(levels: Seq<LevelView>, ascending: bool)
    requires
        side_wf(levels, ascending),
    ensures
        forall|k: int|
            0 <= k < priority_order(levels).len() ==> (#[trigger] priority_order(levels)[k]).wf(),
    decreases levels.len(),
{
    if levels.len() > 0 {
        let front = levels.drop_last();
        assert(levels[levels.len() - 1].wf());
        assert forall|i: int| 0 <= i < front.len() implies (#[trigger] front[i]).wf() by {
            assert(front[i] == levels[i]);
        }
        assert forall|i: int, j: int| 0 <= i < j < front.len() implies crate::level::precedes(
            ascending,
            (#[trigger] front[i]).price,
            (#[trigger] front[j]).price,
        ) by {
            assert(front[i] == levels[i] && front[j] == levels[j]);
        }
        lemma_priority_order_wf(front, ascending);
        let all = priority_order(levels);
        let n = levels.last().orders.len() as int;
        assert forall|k: int| 0 <= k < all.len() implies (#[trigger] all[k]).wf() by {
            if k < n {
                assert(all[k] == levels.last().orders[k]);
            } else {
                assert(all[k] == priority_order(front)[k - n]);
            }
        }
    }
}

/// What a match against one side returns: the trades and the quantity of the
/// incoming order that is still open.
#[derive(Debug)]
pub struct MatchResult {
    pub trades: Vec<Trade>,
    pub remaining_qty: i64,
}

impl PriceLevelInner {
    /// Fills the orders of this level from the front with `qty` of an incoming
    /// order, adds the trades to `trades`, and takes the orders that are
    /// filled completely out of the queue and out of `index`.
    pub(crate) fn sweep<V>(
        &mut self,
        index: &mut HashMap<u128, V>,
        trades: &mut Vec<Trade>,
        side: Side,
        taker: u128,
        limit: Decimal,
        qty: i64,
    ) -> (remaining: i64)
        requires
            queue_at(old(self)@.orders, old(self)@.price),
            limit.wf(),
            qty >= 0,
        ensures
            ({
                let out = sweep_queue(old(self)@.orders, side, taker, limit, qty as int);
                &&& final(self)@ == (LevelView { price: old(self)@.price, orders: out.orders })
                &&& final(trades)@ == old(trades)@ + out.trades
                &&& final(index)@ == old(index)@.remove_keys(out.filled.to_set())
                &&& remaining == out.remaining
            }),
    {
        let ghost start = self@.orders;
        let ghost price = self@.price;
        let ghost goal = sweep_queue(start, side, taker, limit, qty as int);
        let ghost done_trades = Seq::<Trade>::empty();
        let ghost done_filled = Seq::<u128>::empty();
        let mut remaining: i64 = qty;
        assert(old(index)@.remove_keys(done_filled.to_set()) =~= old(index)@);
        assert(old(trades)@ + done_trades =~= old(trades)@);
        assert(done_trades + goal.trades =~= goal.trades);
        assert(done_filled + goal.filled =~= goal.filled);
        while remaining > 0 && self.orders.len() > 0
            invariant
                self@.price == price,
                queue_at(self@.orders, price),
                limit.wf(),
                remaining >= 0,
                trades@ == old(trades)@ + done_trades,
                index@ == old(index)@.remove_keys(done_filled.to_set()),
                ({
                    let out = sweep_queue(self@.orders, side, taker, limit, remaining as int);
                    &&& goal.orders == out.orders
                    &&& goal.trades == done_trades + out.trades
                    &&& goal.filled == done_filled + out.filled
                    &&& goal.remaining == out.remaining
                }),
            decreases self.orders.len(), remaining,
        {
            let ghost queue = self@.orders;
            let ghost out = sweep_queue(queue, side, taker, limit, remaining as int);
            let popped = self.orders.pop_front();
            let mut standing: OrderEntry = popped.unwrap();
            assert(standing == queue[0]);
            assert(standing.wf());
            assert(self.orders@ =~= queue.drop_first());
            let matched: i64 = if remaining <= standing.quantity {
                remaining
            } else {
                standing.quantity
            };
            standing.quantity = standing.quantity - matched;
            let ghost before = remaining;
            remaining = remaining - matched;
            let fill_price = side.calc_fill_price(limit, standing.price);
            let trade = Trade::from_rust(taker, standing.id, matched, fill_price);
            trades.push(trade);
            if standing.quantity == 0 {
                index.remove(&standing.id);
                proof {
                    let rest = sweep_queue(queue.drop_first(), side, taker, limit, remaining as int);
                    assert(out.trades == seq![trade] + rest.trades);
                    assert(out.filled == seq![standing.id] + rest.filled);
                    assert(done_trades + (seq![trade] + rest.trades) =~= done_trades.push(trade)
                        + rest.trades);
                    assert(done_filled + (seq![standing.id] + rest.filled) =~= done_filled.push(
                        standing.id,
                    ) + rest.filled);
                    assert(old(index)@.remove_keys(done_filled.to_set()).remove(standing.id)
                        =~= old(index)@.remove_keys(done_filled.push(standing.id).to_set())) by {
                        lemma_push_to_set(done_filled, standing.id);
                    }
                    assert forall|k: int| 0 <= k < self@.orders.len() implies (
                    #[trigger] self@.orders[k]).wf() && self@.orders[k].price.units()
                        == price.units() by {
                        assert(self@.orders[k] == queue[k + 1]);
                    }
                    done_trades = done_trades.push(trade);
                    done_filled = done_filled.push(standing.id);
                }
            } else {
                self.orders.push_front(standing);
                proof {
                    assert(self@.orders =~= queue.update(0, standing));
                    assert(remaining == 0);
                    assert(out.trades == seq![trade]);
                    assert(done_trades + seq![trade] =~= done_trades.push(trade));
                    assert(done_trades.push(trade) + Seq::<Trade>::empty() =~= done_trades.push(
                        trade,
                    ));
                    assert(done_filled + Seq::<u128>::empty() =~= done_filled);
                    assert forall|k: int| 0 <= k < self@.orders.len() implies (
                    #[trigger] self@.orders[k]).wf() && self@.orders[k].price.units()
                        == price.units() by {
                        if k > 0 {
                            assert(self@.orders[k] == queue[k]);
                        }
                    }
                    done_trades = done_trades.push(trade);
                }
            }
            assert(trades@ =~= old(trades)@ + done_trades);
        }
        proof {
            let out = sweep_queue(self@.orders, side, taker, limit, remaining as int);
            assert(out.trades == Seq::<Trade>::empty());
            assert(done_trades + out.trades =~= done_trades);
            assert(done_filled + out.filled =~= done_filled);
        }
        remaining
    }
}

impl OneSide {
    /// Whether an incoming order of `side` with limit `limit` and `remaining`
    /// still open can take from the best level of this side.
    pub fn crossing(&self, side: Side, limit: Decimal, remaining: i64) -> (r: bool)
        requires
            side_wf(self@, side.opposite().ascending()),
            limit.wf(),
        ensures
            r == (remaining > 0 && self@.len() > 0 && side.crosses(limit, self@.last().price)),
    {
        if remaining > 0 && self.levels.len() > 0 {
            let last: usize = self.levels.len() - 1;
            assert(self@[last as int].wf());
            side.price_is_matchable(limit, self.levels[last].price)
        } else {
            false
        }
    }

    /// Matches `qty` of an incoming order of `side`, id `taker` and limit price
    /// `limit` against this side, which is the opposite one. Resting orders
    /// that are filled completely leave the side and `index`; a level that is
    /// emptied leaves the side.
    pub fn sweep<V>(
        &mut self,
        index: &mut HashMap<u128, V>,
        side: Side,
        taker: u128,
        limit: Decimal,
        qty: i64,
    ) -> (r: MatchResult)
        requires
            side_wf(old(self)@, side.opposite().ascending()),
            limit.wf(),
            qty >= 0,
        ensures
            ({
                let out = sweep_levels(old(self)@, side, taker, limit, qty as int);
                &&& final(self)@ == out.levels
                &&& r.trades@ == out.trades
                &&& r.remaining_qty == out.remaining
                &&& final(index)@ == old(index)@.remove_keys(out.filled.to_set())
            }),
            side_wf(final(self)@, side.opposite().ascending()),
            0 <= r.remaining_qty <= qty,
    {
        let ghost ascending = side.opposite().ascending();
        let ghost goal = sweep_levels(self@, side, taker, limit, qty as int);
        let ghost done_filled = Seq::<u128>::empty();
        let mut trades: Vec<Trade> = Vec::new();
        let mut remaining: i64 = qty;
        assert(index@.remove_keys(done_filled.to_set()) =~= index@);
        assert(trades@ + goal.trades =~= goal.trades);
        assert(done_filled + goal.filled =~= goal.filled);
        while self.crossing(side, limit, remaining)
            invariant
                ascending == side.opposite().ascending(),
                side_wf(self@, ascending),
                limit.wf(),
                0 <= remaining <= qty,
                index@ == old(index)@.remove_keys(done_filled.to_set()),
                ({
                    let out = sweep_levels(self@, side, taker, limit, remaining as int);
                    &&& goal.levels == out.levels
                    &&& goal.trades == trades@ + out.trades
                    &&& goal.filled == done_filled + out.filled
                    &&& goal.remaining == out.remaining
                }),
            decreases self.levels.len(), remaining,
        {
            let ghost levels = self@;
            let ghost before = remaining;
            let ghost made = trades@;
            let ghost best = levels.last();
            let ghost q = sweep_queue(best.orders, side, taker, limit, remaining as int);
            let last: usize = self.levels.len() - 1;
            assert(levels[last as int].wf());
            assert(levels[last as int] == best);
            proof {
                lemma_sweep_queue_wf(best.orders, side, taker, limit, remaining as int, best.price);
            }
            remaining = self.levels[last].sweep(index, &mut trades, side, taker, limit, remaining);
            proof {
                lemma_concat_to_set(done_filled, q.filled);
                assert(old(index)@.remove_keys(done_filled.to_set()).remove_keys(q.filled.to_set())
                    =~= old(index)@.remove_keys((done_filled + q.filled).to_set()));
            }
            if self.levels[last].orders.len() == 0 {
                self.levels.pop();
                proof {
                    assert(self@ =~= levels.drop_last());
                    let rest = sweep_levels(levels.drop_last(), side, taker, limit, remaining as int);
                    assert(made + (q.trades + rest.trades) =~= (made + q.trades) + rest.trades);
                    assert(done_filled + (q.filled + rest.filled) =~= (done_filled + q.filled)
                        + rest.filled);
                    assert forall|i: int| 0 <= i < self@.len() implies (#[trigger] self@[i]).wf() by {
                        assert(self@[i] == levels[i]);
                    }
                    assert forall|i: int, j: int| 0 <= i < j < self@.len() implies crate::level::precedes(
                        ascending,
                        (#[trigger] self@[i]).price,
                        (#[trigger] self@[j]).price,
                    ) by {
                        assert(self@[i] == levels[i] && self@[j] == levels[j]);
                    }
                }
            } else {
                proof {
                    let kept = LevelView { price: best.price, orders: q.orders };
                    assert(self@ =~= levels.drop_last().push(kept));
                    assert(remaining == 0);
                    assert((made + q.trades) + Seq::<Trade>::empty() =~= made + q.trades);
                    assert((done_filled + q.filled) + Seq::<u128>::empty() =~= done_filled
                        + q.filled);
                    assert(kept.wf());
                    assert forall|i: int| 0 <= i < self@.len() implies (#[trigger] self@[i]).wf() by {
                        if i < last {
                            assert(self@[i] == levels[i]);
                        }
                    }
                    assert forall|i: int, j: int| 0 <= i < j < self@.len() implies crate::level::precedes(
                        ascending,
                        (#[trigger] self@[i]).price,
                        (#[trigger] self@[j]).price,
                    ) by {
                        assert(self@[i].price == levels[i].price);
                        assert(self@[j].price == levels[j].price);
                    }
                }
            }
            proof {
                done_filled = done_filled + q.filled;
            }
        }
        proof {
            assert(trades@ + Seq::<Trade>::empty() =~= trades@);
            assert(done_filled + Seq::<u128>::empty() =~= done_filled);
        }
        MatchResult { trades, remaining_qty: remaining }
    }
}

/// The ids of two sequences joined are the ids of the one and of the other.
pub proof fn lemma_concat_to_set(a: Seq<u128>, b: Seq<u128>)
    ensures
        (a + b).to_set() == a.to_set().union(b.to_set()),
{
    assert forall|x: u128| (a + b).to_set().contains(x) <==> a.to_set().union(
        b.to_set(),
    ).contains(x) by {
        if (a + b).to_set().contains(x) {
            let k = choose|k: int| 0 <= k < (a + b).len() && (a + b)[k] == x;
            if k < a.len() {
                assert(a[k] == x);
            } else {
                assert(b[k - a.len()] == x);
            }
        }
        if a.to_set().contains(x) {
            let k = choose|k: int| 0 <= k < a.len() && a[k] == x;
            assert((a + b)[k] == x);
        }
        if b.to_set().contains(x) {
            let k = choose|k: int| 0 <= k < b.len() && b[k] == x;
            assert((a + b)[a.len() + k] == x);
        }
    }
    assert((a + b).to_set() =~= a.to_set().union(b.to_set()));
}

/// The ids of a sequence with one more pushed are the ids of the sequence and
/// that one.
pub proof fn lemma_push_to_set(ids: Seq<u128>, id: u128)
    ensures
        ids.push(id).to_set() == ids.to_set().insert(id),
{
    assert forall|x: u128| ids.push(id).to_set().contains(x) <==> ids.to_set().insert(id).contains(
        x,
    ) by {
        if ids.push(id).to_set().contains(x) {
            let k = choose|k: int| 0 <= k < ids.push(id).len() && ids.push(id)[k] == x;
            if k < ids.len() {
                assert(ids[k] == x);
            }
        }
        if ids.to_set().contains(x) {
            let k = choose|k: int| 0 <= k < ids.len() && ids[k] == x;
            assert(ids.push(id)[k] == x);
        }
        if x == id {
            assert(ids.push(id)[ids.len() as int] == x);
        }
    }
    assert(ids.push(id).to_set() =~= ids.to_set().insert(id));
}

} // verus!
