//! Depth snapshots: the best levels of each side with their total resting
//! quantity, and the figures derived from them.

use crate::decimal::{
    checked_add, checked_div, checked_mul, checked_sub, decimal_difference, decimal_product,
    decimal_quotient, decimal_sum, Decimal, MAX_MANTISSA,
};
use crate::level::{side_wf, total_quantity, LevelView, OneSide, OrderEntry};
use crate::trade::whole;
use vstd::prelude::*;

verus! {

/// One level of a snapshot: a price and the total quantity resting at it.
#[derive(Clone, Copy, Debug, PartialEq, Eq, Structural)]
pub struct SnapshotLevel {
    pub price: Decimal,
    pub quantity: i128,
}

impl SnapshotLevel {
    /// A snapshot level from its two parts.
    pub fn from_rust(price: Decimal, quantity: i128) -> (r: SnapshotLevel)
        ensures
            r == (SnapshotLevel { price, quantity }),
    {
        SnapshotLevel { price, quantity }
    }

    /// The price of the level.
    pub fn price(&self) -> (r: Decimal)
        ensures
            r == self.price,
    {
        self.price
    }

    /// The total quantity resting at the level.
    pub fn quantity(&self) -> (r: i128)
        ensures
            r == self.quantity,
    {
        self.quantity
    }
}

/// The price is in range and the quantity is not negative, for every level.
pub open spec fn snapshot_levels_wf(levels: Seq<SnapshotLevel>) -> bool {
    forall|i: int|
        0 <= i < levels.len() ==> (#[trigger] levels[i]).price.wf() && levels[i].quantity >= 0
}

/// The number of levels that a snapshot of depth `depth` shows of a side with
/// `available` levels.
pub open spec fn shown(available: int, depth: int) -> int {
    if depth <= 0 {
        0
    } else if depth < available {
        depth
    } else {
        available
    }
}

/// The best `depth` levels of a side, the best first, each with the total
/// quantity of its queue.
pub open spec fn depth_view(levels: Seq<LevelView>, depth: int) -> Seq<SnapshotLevel> {
    Seq::new(
        shown(levels.len() as int, depth) as nat,
        |i: int|
            SnapshotLevel {
                price: levels[levels.len() - 1 - i].price,
                quantity: total_quantity(levels[levels.len() - 1 - i].orders) as i128,
            },
    )
}

/// The sum of the quantities of the levels.
pub open spec fn quantity_sum(levels: Seq<SnapshotLevel>) -> int
    decreases levels.len(),
{
    if levels.len() == 0 {
        0
    } else {
        quantity_sum(levels.drop_last()) + levels.last().quantity
    }
}

/// The sum of price times quantity over the levels, added up from the first
/// level on in decimal arithmetic; `None` where a product or a partial sum
/// does not fit a decimal.
pub open spec fn weighted_sum(levels: Seq<SnapshotLevel>) -> Option<Decimal>
    decreases levels.len(),
{
    if levels.len() == 0 {
        Some(whole(0))
    } else {
        match weighted_sum(levels.drop_last()) {
            Some(sum) => match decimal_product(
                levels.last().price,
                whole(levels.last().quantity as int),
            ) {
                Some(cost) => decimal_sum(sum, cost),
                None => None,
            },
            None => None,
        }
    }
}

/// The quantity-weighted average price of the levels: the sum of price times
/// quantity divided by the sum of the quantities. `None` where the total
/// quantity is zero, as it is for no levels, and where the arithmetic does not
/// fit a decimal.
pub open spec fn vwap_of(levels: Seq<SnapshotLevel>) -> Option<Decimal> {
    let total = quantity_sum(levels);
    if total == 0 || total > MAX_MANTISSA {
        None
    } else {
        match weighted_sum(levels) {
            Some(sum) => decimal_quotient(sum, whole(total)),
            None => None,
        }
    }
}

/// The best ask less the best bid, where both sides have a level.
pub open spec fn spread_of(bids: Seq<SnapshotLevel>, asks: Seq<SnapshotLevel>) -> Option<
    Decimal,
> {
    if bids.len() > 0 && asks.len() > 0 {
        decimal_difference(asks[0].price, bids[0].price)
    } else {
        None
    }
}

/// Half the sum of the best ask and the best bid, where both sides have a
/// level.
pub open spec fn midpoint_of(bids: Seq<SnapshotLevel>, asks: Seq<SnapshotLevel>) -> Option<
    Decimal,
> {
    if bids.len() > 0 && asks.len() > 0 {
        match decimal_sum(asks[0].price, bids[0].price) {
            Some(sum) => decimal_quotient(sum, whole(2)),
            None => None,
        }
    } else {
        None
    }
}

/// The quantities of non-negative levels add up to a non-negative sum that
/// only grows with more levels.
pub proof fn lemma_quantity_sum_grows(levels: Seq<SnapshotLevel>, i: int)
    requires
        snapshot_levels_wf(levels),
        0 <= i <= levels.len(),
    ensures
        0 <= quantity_sum(levels.take(i)) <= quantity_sum(levels),
    decreases levels.len() - i,
{
    assert forall|k: int| 0 <= k < levels.take(i).len() implies (
    #[trigger] levels.take(i)[k]).quantity >= 0 by {
        assert(levels.take(i)[k] == levels[k]);
    }
    lemma_quantity_sum_nonneg(levels.take(i));
    if i < levels.len() {
        assert(levels.take(i + 1).drop_last() =~= levels.take(i));
        assert(levels.take(i + 1).last() == levels[i]);
        lemma_quantity_sum_grows(levels, i + 1);
    } else {
        assert(levels.take(i) =~= levels);
    }
}

/// The quantities of non-negative levels add up to a non-negative sum.
pub proof fn lemma_quantity_sum_nonneg(levels: Seq<SnapshotLevel>)
    requires
        forall|i: int| 0 <= i < levels.len() ==> (#[trigger] levels[i]).quantity >= 0,
    ensures
        0 <= quantity_sum(levels),
    decreases levels.len(),
{
    if levels.len() > 0 {
        assert forall|i: int| 0 <= i < levels.drop_last().len() implies (
        #[trigger] levels.drop_last()[i]).quantity >= 0 by {
            assert(levels.drop_last()[i] == levels[i]);
        }
        lemma_quantity_sum_nonneg(levels.drop_last());
    }
}

/// The quantity-weighted average price of the levels; see [`vwap_of`].
pub fn compute_vwap(levels: &Vec<SnapshotLevel>) -> (r: Option<Decimal>)
    requires
        snapshot_levels_wf(levels@),
    ensures
        r == vwap_of(levels@),
        r matches Some(d) ==> d.wf(),
{
    let n: usize = levels.len();
    let mut sum_pq: Option<Decimal> = Some(Decimal::zero());
    let mut sum_q: i128 = 0;
    let mut too_large: bool = false;
    let mut i: usize = 0;
    assert(levels@.take(0) =~= Seq::<SnapshotLevel>::empty());
    while i < n
        invariant
            n == levels.len(),
            0 <= i <= n,
            snapshot_levels_wf(levels@),
            too_large ==> quantity_sum(levels@.take(i as int)) > MAX_MANTISSA,
            !too_large ==> sum_q == quantity_sum(levels@.take(i as int)) && 0 <= sum_q
                <= MAX_MANTISSA && sum_pq == weighted_sum(levels@.take(i as int)),
            sum_pq matches Some(d) ==> d.wf(),
        decreases n - i,
    {
        let lvl: SnapshotLevel = levels[i];
        proof {
            assert(levels@.take(i + 1).drop_last() =~= levels@.take(i as int));
            assert(levels@.take(i + 1).last() == lvl);
            lemma_quantity_sum_grows(levels@, i as int);
        }
        if !too_large {
            if lvl.quantity > MAX_MANTISSA || sum_q > MAX_MANTISSA - lvl.quantity {
                too_large = true;
            } else {
                sum_q = sum_q + lvl.quantity;
                let quantity = Decimal { mantissa: lvl.quantity, scale: 0 };
                sum_pq = match sum_pq {
                    Some(sum) => match checked_mul(lvl.price, quantity) {
                        Some(cost) => checked_add(sum, cost),
                        None => None,
                    },
                    None => None,
                };
            }
        }
        i = i + 1;
    }
    assert(levels@.take(n as int) =~= levels@);
    if too_large || sum_q == 0 {
        None
    } else {
        match sum_pq {
            Some(sum) => checked_div(sum, Decimal { mantissa: sum_q, scale: 0 }),
            None => None,
        }
    }
}

/// A depth snapshot of the book of one symbol.
#[derive(Debug)]
pub struct Snapshot {
    pub bids: Vec<SnapshotLevel>,
    pub asks: Vec<SnapshotLevel>,
    pub spread: Option<Decimal>,
    pub midpoint: Option<Decimal>,
    pub bid_vwap: Option<Decimal>,
    pub ask_vwap: Option<Decimal>,
}

/// The mathematical value of a [`Snapshot`].
pub struct SnapshotView {
    pub bids: Seq<SnapshotLevel>,
    pub asks: Seq<SnapshotLevel>,
    pub spread: Option<Decimal>,
    pub midpoint: Option<Decimal>,
    pub bid_vwap: Option<Decimal>,
    pub ask_vwap: Option<Decimal>,
}

impl View for Snapshot {
    type V = SnapshotView;

    open spec fn view(&self) -> SnapshotView {
        SnapshotView {
            bids: self.bids@,
            asks: self.asks@,
            spread: self.spread,
            midpoint: self.midpoint,
            bid_vwap: self.bid_vwap,
            ask_vwap: self.ask_vwap,
        }
    }
}

/// The snapshot of depth `depth` of a book with the given sides: the best
/// `depth` levels of each side, the best first, and the spread, the midpoint
/// and the two average prices of the levels shown.
pub open spec fn snapshot_of(bids: Seq<LevelView>, asks: Seq<LevelView>, depth: int)
    -> SnapshotView {
    let bid_levels = depth_view(bids, depth);
    let ask_levels = depth_view(asks, depth);
    SnapshotView {
        bids: bid_levels,
        asks: ask_levels,
        spread: spread_of(bid_levels, ask_levels),
        midpoint: midpoint_of(bid_levels, ask_levels),
        bid_vwap: vwap_of(bid_levels),
        ask_vwap: vwap_of(ask_levels),
    }
}

/// The total quantity of a queue lies between the least and the greatest
/// that so many orders can hold.
pub proof fn lemma_total_quantity_bounds(orders: Seq<OrderEntry>)
    ensures
        orders.len() * i64::MIN <= total_quantity(orders) <= orders.len() * i64::MAX,
    decreases orders.len(),
{
    if orders.len() > 0 {
        lemma_total_quantity_bounds(orders.drop_last());
    }
}

/// The total quantity of a queue of well-formed orders is not negative.
pub proof fn lemma_total_quantity_nonneg(orders: Seq<OrderEntry>)
    requires
        forall|k: int| 0 <= k < orders.len() ==> (#[trigger] orders[k]).quantity >= 0,
    ensures
        0 <= total_quantity(orders),
    decreases orders.len(),
{
    if orders.len() > 0 {
        assert forall|k: int| 0 <= k < orders.drop_last().len() implies (
        #[trigger] orders.drop_last()[k]).quantity >= 0 by {
            assert(orders.drop_last()[k] == orders[k]);
        }
        lemma_total_quantity_nonneg(orders.drop_last());
    }
}

impl OneSide {
    /// The total quantity that rests at the level at position `idx`.
    pub fn level_quantity(&self, idx: usize) -> (r: i128)
        requires
            idx < self@.len(),
        ensures
            r == total_quantity(self@[idx as int].orders),
    {
        let level = &self.levels[idx];
        let n: usize = level.orders.len();
        let mut sum: i128 = 0;
        let mut i: usize = 0;
        assert(level.orders@.take(0) =~= Seq::<OrderEntry>::empty());
        while i < n
            invariant
                n == level.orders@.len(),
                0 <= i <= n,
                sum == total_quantity(level.orders@.take(i as int)),
            decreases n - i,
        {
            proof {
                assert(level.orders@.take(i + 1).drop_last() =~= level.orders@.take(i as int));
                assert(level.orders@.take(i + 1).last() == level.orders@[i as int]);
                lemma_total_quantity_bounds(level.orders@.take(i as int));
            }
            sum = sum + level.orders[i].quantity as i128;
            i = i + 1;
        }
        assert(level.orders@.take(n as int) =~= level.orders@);
        sum
    }

    /// The best `depth` levels of this side, the best first, each with the
    /// total quantity of its queue.
    pub fn best_levels(&self, depth: usize) -> (r: Vec<SnapshotLevel>)
        requires
            side_wf(self@, true) || side_wf(self@, false),
        ensures
            r@ == depth_view(self@, depth as int),
            snapshot_levels_wf(r@),
    {
        let available: usize = self.levels.len();
        let count: usize = if depth < available {
            depth
        } else {
            available
        };
        let mut out: Vec<SnapshotLevel> = Vec::new();
        let mut i: usize = 0;
        while i < count
            invariant
                available == self@.len(),
                count == shown(available as int, depth as int),
                0 <= i <= count,
                side_wf(self@, true) || side_wf(self@, false),
                out@.len() == i,
                forall|k: int| 0 <= k < i ==> (#[trigger] out@[k]) == depth_view(self@, depth as int)[k],
                snapshot_levels_wf(out@),
            decreases count - i,
        {
            let idx: usize = available - 1 - i;
            proof {
                assert(self@[idx as int].wf());
                lemma_total_quantity_bounds(self@[idx as int].orders);
                lemma_total_quantity_nonneg(self@[idx as int].orders);
            }
            let quantity: i128 = self.level_quantity(idx);
            out.push(SnapshotLevel::from_rust(self.levels[idx].price, quantity));
            i = i + 1;
        }
        assert(out@ =~= depth_view(self@, depth as int));
        out
    }
}

impl Snapshot {
    /// The snapshot of depth `depth` of a book with the given sides.
    pub fn build(bids: &OneSide, asks: &OneSide, depth: isize) -> (r: Snapshot)
        requires
            side_wf(bids@, true),
            side_wf(asks@, false),
        ensures
            r@ == snapshot_of(bids@, asks@, depth as int),
            depth >= 0 ==> r.bids@.len() <= depth && r.asks@.len() <= depth,
            depth <= 0 ==> r@ == (SnapshotView {
                bids: Seq::empty(),
                asks: Seq::empty(),
                spread: None,
                midpoint: None,
                bid_vwap: None,
                ask_vwap: None,
            }),
    {
        let depth: usize = if depth > 0 {
            depth as usize
        } else {
            0
        };
        let bid_levels = bids.best_levels(depth);
        let ask_levels = asks.best_levels(depth);
        let best: Option<(Decimal, Decimal)> = if bid_levels.len() > 0 && ask_levels.len() > 0 {
            Some((bid_levels[0].price, ask_levels[0].price))
        } else {
            None
        };
        let spread: Option<Decimal> = match best {
            Some((b, a)) => checked_sub(a, b),
            None => None,
        };
        let midpoint: Option<Decimal> = match best {
            Some((b, a)) => match checked_add(a, b) {
                Some(sum) => checked_div(sum, Decimal::from_i64(2)),
                None => None,
            },
            None => None,
        };
        let bid_vwap = compute_vwap(&bid_levels);
        let ask_vwap = compute_vwap(&ask_levels);
        let r = Snapshot {
            bids: bid_levels,
            asks: ask_levels,
            spread,
            midpoint,
            bid_vwap,
            ask_vwap,
        };
        proof {
            if depth == 0 {
                assert(r.bids@ =~= Seq::<SnapshotLevel>::empty());
                assert(r.asks@ =~= Seq::<SnapshotLevel>::empty());
            }
        }
        r
    }

    /// The bid levels, the best first.
    pub fn bids(&self) -> (r: &Vec<SnapshotLevel>)
        ensures
            r == self.bids,
    {
        &self.bids
    }

    /// The ask levels, the best first.
    pub fn asks(&self) -> (r: &Vec<SnapshotLevel>)
        ensures
            r == self.asks,
    {
        &self.asks
    }

    /// The best ask less the best bid.
    pub fn spread(&self) -> (r: Option<Decimal>)
        ensures
            r == self.spread,
    {
        self.spread
    }

    /// Half the sum of the best ask and the best bid.
    pub fn midpoint(&self) -> (r: Option<Decimal>)
        ensures
            r == self.midpoint,
    {
        self.midpoint
    }

    /// The quantity-weighted average price of the bid levels shown.
    pub fn bid_vwap(&self) -> (r: Option<Decimal>)
        ensures
            r == self.bid_vwap,
    {
        self.bid_vwap
    }

    /// The quantity-weighted average price of the ask levels shown.
    pub fn ask_vwap(&self) -> (r: Option<Decimal>)
        ensures
            r == self.ask_vwap,
    {
        self.ask_vwap
    }
}

} // verus!
