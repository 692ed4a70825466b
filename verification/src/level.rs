//! Price levels and the two sides of a symbol's book.
//!
//! A side is a run of price levels, no two at the same price, sorted so that
//! the best price is last: bids ascend to the highest bid, asks descend to the
//! lowest ask. A level is a queue of the orders that rest at its price, the
//! oldest first.

use crate::decimal::Decimal;
use crate::order::{Order, OrderView, Side};
use std::collections::VecDeque;
use vstd::prelude::*;

verus! {

/// An order as it rests in the book. Its symbol and side are those of the
/// place where it rests.
#[derive(Clone, Copy, Debug, PartialEq, Eq, Structural)]
pub struct OrderEntry {
    pub id: u128,
    pub price: Decimal,
    pub quantity: i64,
    pub original_quantity: i64,
}

/// The mathematical value of a price level: its price and its queue, the
/// oldest order first.
pub struct LevelView {
    pub price: Decimal,
    pub orders: Seq<OrderEntry>,
}

impl OrderEntry {
    /// The remaining quantity is not negative and the price is in range.
    pub open spec fn wf(self) -> bool {
        &&& self.quantity >= 0
        &&& self.price.wf()
    }

    /// The same order with `quantity` left.
    pub open spec fn with_quantity(self, quantity: i64) -> OrderEntry {
        OrderEntry { quantity, ..self }
    }

    /// The entry under which `order` rests.
    pub open spec fn of(order: OrderView) -> OrderEntry {
        OrderEntry {
            id: order.id,
            price: order.price,
            quantity: order.quantity,
            original_quantity: order.original_quantity,
        }
    }

    /// The order that rests under this entry on `side` of the book of `symbol`.
    pub open spec fn order(self, symbol: Seq<char>, side: Side) -> OrderView {
        OrderView {
            id: self.id,
            price: self.price,
            quantity: self.quantity,
            symbol,
            side,
            original_quantity: self.original_quantity,
        }
    }

    /// The entry under which `order` rests in the book.
    pub fn from_order(order: &Order) -> (r: OrderEntry)
        ensures
            r == OrderEntry::of(order@),
    {
        OrderEntry {
            id: order.id,
            price: order.price,
            quantity: order.quantity,
            original_quantity: order.original_quantity,
        }
    }

    /// The order that rests under this entry on `side` of the book of `symbol`.
    pub fn to_order(&self, symbol: &String, side: Side) -> (r: Order)
        ensures
            r@ == self.order(symbol@, side),
    {
        Order {
            id: self.id,
            price: self.price,
            quantity: self.quantity,
            symbol: symbol.clone(),
            side,
            original_quantity: self.original_quantity,
        }
    }
}

impl LevelView {
    /// The queue is not empty, and every order in it is well formed and rests
    /// at the level's price.
    pub open spec fn wf(self) -> bool {
        &&& self.price.wf()
        &&& self.orders.len() > 0
        &&& forall|k: int|
            0 <= k < self.orders.len() ==> (#[trigger] self.orders[k]).wf()
                && self.orders[k].price.units() == self.price.units()
    }
}

/// The sum of the remaining quantities of a queue.
pub open spec fn total_quantity(orders: Seq<OrderEntry>) -> int
    decreases orders.len(),
{
    if orders.len() == 0 {
        0
    } else {
        total_quantity(orders.drop_last()) + orders.last().quantity
    }
}

/// Whether price `a` comes strictly before price `b` in a side's order.
pub open spec fn precedes(ascending: bool, a: Decimal, b: Decimal) -> bool {
    if ascending {
        a.units() < b.units()
    } else {
        a.units() > b.units()
    }
}

/// Every level is well formed, and the prices go strictly up (`ascending`) or
/// strictly down.
pub open spec fn side_wf(levels: Seq<LevelView>, ascending: bool) -> bool {
    &&& forall|i: int| 0 <= i < levels.len() ==> (#[trigger] levels[i]).wf()
    &&& forall|i: int, j: int|
        0 <= i < j < levels.len() ==> precedes(
            ascending,
            (#[trigger] levels[i]).price,
            (#[trigger] levels[j]).price,
        )
}

/// The number of levels whose price comes before `price`. In a sorted side
/// this is where a level at `price` is or belongs.
pub open spec fn rank(levels: Seq<LevelView>, ascending: bool, price: Decimal) -> int
    decreases levels.len(),
{
    if levels.len() == 0 {
        0
    } else {
        rank(levels.drop_last(), ascending, price) + if precedes(
            ascending,
            levels.last().price,
            price,
        ) {
            1int
        } else {
            0int
        }
    }
}

/// Whether the side has a level at `price`.
pub open spec fn has_level(levels: Seq<LevelView>, ascending: bool, price: Decimal) -> bool {
    let i = rank(levels, ascending, price);
    i < levels.len() && levels[i].price.units() == price.units()
}

/// The position of the first order with `id` in a queue, the queue's length
/// where there is none.
pub open spec fn index_of_id(orders: Seq<OrderEntry>, id: u128) -> int
    decreases orders.len(),
{
    if orders.len() == 0 {
        0
    } else if orders[0].id == id {
        0
    } else {
        1 + index_of_id(orders.drop_first(), id)
    }
}

/// The side after `entry` has joined it: at the back of the queue of the level
/// at its price, or as the only order of a new level at the place that keeps
/// the side sorted.
pub open spec fn insert_spec(levels: Seq<LevelView>, ascending: bool, entry: OrderEntry) -> Seq<
    LevelView,
> {
    let i = rank(levels, ascending, entry.price);
    if has_level(levels, ascending, entry.price) {
        levels.update(i, LevelView { price: levels[i].price, orders: levels[i].orders.push(entry) })
    } else {
        levels.insert(i, LevelView { price: entry.price, orders: seq![entry] })
    }
}

/// The side after the first order with `id` has left the level at `price`, the
/// level going with it if it was the last; `None` where there is no such level
/// or no such order in it.
pub open spec fn remove_spec(levels: Seq<LevelView>, ascending: bool, price: Decimal, id: u128)
    -> Option<Seq<LevelView>> {
    let i = rank(levels, ascending, price);
    if has_level(levels, ascending, price) {
        let k = index_of_id(levels[i].orders, id);
        if k < levels[i].orders.len() {
            if levels[i].orders.len() == 1 {
                Some(levels.remove(i))
            } else {
                Some(
                    levels.update(
                        i,
                        LevelView { price: levels[i].price, orders: levels[i].orders.remove(k) },
                    ),
                )
            }
        } else {
            None
        }
    } else {
        None
    }
}

/// Whether `i` splits the side at `price`: the levels before `i` come before
/// the price, those from `i` on do not.
pub open spec fn splits_at(levels: Seq<LevelView>, ascending: bool, price: Decimal, i: int)
    -> bool {
    &&& 0 <= i <= levels.len()
    &&& forall|j: int| 0 <= j < i ==> precedes(ascending, (#[trigger] levels[j]).price, price)
    &&& forall|j: int|
        i <= j < levels.len() ==> !precedes(ascending, (#[trigger] levels[j]).price, price)
}

/// In a sorted side the rank of a price is the one place that splits the side
/// at that price.
pub proof fn lemma_rank_splits(levels: Seq<LevelView>, ascending: bool, price: Decimal, i: int)
    requires
        side_wf(levels, ascending),
    ensures
        splits_at(levels, ascending, price, rank(levels, ascending, price)),
        splits_at(levels, ascending, price, i) ==> i == rank(levels, ascending, price),
    decreases levels.len(),
{
    if levels.len() > 0 {
        let front = levels.drop_last();
        let n = levels.len() - 1;
        assert forall|a: int| 0 <= a < front.len() implies (#[trigger] front[a]).wf() by {
            assert(front[a] == levels[a]);
        }
        assert forall|a: int, b: int| 0 <= a < b < front.len() implies precedes(
            ascending,
            (#[trigger] front[a]).price,
            (#[trigger] front[b]).price,
        ) by {
            assert(front[a] == levels[a]);
            assert(front[b] == levels[b]);
        }
        let r = rank(front, ascending, price);
        lemma_rank_splits(front, ascending, price, n);
        assert forall|j: int| 0 <= j < r implies precedes(
            ascending,
            (#[trigger] levels[j]).price,
            price,
        ) by {
            assert(front[j] == levels[j]);
        }
        if precedes(ascending, levels.last().price, price) {
            assert forall|j: int| 0 <= j < n implies precedes(
                ascending,
                (#[trigger] front[j]).price,
                price,
            ) by {
                assert(front[j] == levels[j]);
                assert(levels[n] == levels.last());
                assert(precedes(ascending, levels[j].price, levels[n].price));
            }
            assert(splits_at(front, ascending, price, n));
            assert(r == n);
        } else {
            assert forall|j: int| r <= j < levels.len() implies !precedes(
                ascending,
                (#[trigger] levels[j]).price,
                price,
            ) by {
                if j < n {
                    assert(front[j] == levels[j]);
                }
            }
        }
    }
    let r = rank(levels, ascending, price);
    if splits_at(levels, ascending, price, i) && i != r {
        if i < r {
            assert(precedes(ascending, levels[i].price, price));
        } else {
            assert(precedes(ascending, levels[r].price, price));
        }
    }
}

/// The first order with `id` is where [`index_of_id`] says: no order before
/// that position has the id, and the order at it has.
pub proof fn lemma_index_of_id(orders: Seq<OrderEntry>, id: u128)
    ensures
        0 <= index_of_id(orders, id) <= orders.len(),
        forall|j: int| 0 <= j < index_of_id(orders, id) ==> (#[trigger] orders[j]).id != id,
        index_of_id(orders, id) < orders.len() ==> orders[index_of_id(orders, id)].id == id,
    decreases orders.len(),
{
    if orders.len() > 0 && orders[0].id != id {
        let rest = orders.drop_first();
        lemma_index_of_id(rest, id);
        let k = index_of_id(rest, id);
        assert forall|j: int| 0 <= j < k + 1 implies (#[trigger] orders[j]).id != id by {
            if j > 0 {
                assert(rest[j - 1] == orders[j]);
            }
        }
        if k < rest.len() {
            assert(rest[k] == orders[k + 1]);
        }
    }
}

/// A position that no earlier order with `id` precedes is the one that
/// [`index_of_id`] gives.
pub proof fn lemma_index_of_id_unique(orders: Seq<OrderEntry>, id: u128, k: int)
    requires
        0 <= k <= orders.len(),
        forall|j: int| 0 <= j < k ==> (#[trigger] orders[j]).id != id,
        k < orders.len() ==> orders[k].id == id,
    ensures
        index_of_id(orders, id) == k,
{
    lemma_index_of_id(orders, id);
    let i = index_of_id(orders, id);
    if i < k {
        assert(orders[i].id != id);
    } else if k < i {
        assert(orders[k].id != id);
    }
}

/// A sorted, well-formed side stays so when an order joins it.
pub proof fn lemma_insert_keeps_wf(levels: Seq<LevelView>, ascending: bool, entry: OrderEntry)
    requires
        side_wf(levels, ascending),
        entry.wf(),
    ensures
        side_wf(insert_spec(levels, ascending, entry), ascending),
{
    let i = rank(levels, ascending, entry.price);
    lemma_rank_splits(levels, ascending, entry.price, i);
    let after = insert_spec(levels, ascending, entry);
    if has_level(levels, ascending, entry.price) {
        let grown = LevelView { price: levels[i].price, orders: levels[i].orders.push(entry) };
        assert(levels[i].wf());
        assert forall|k: int| 0 <= k < grown.orders.len() implies (#[trigger] grown.orders[k]).wf()
            && grown.orders[k].price.units() == grown.price.units() by {
            if k < levels[i].orders.len() {
                assert(grown.orders[k] == levels[i].orders[k]);
            }
        }
        assert forall|a: int| 0 <= a < after.len() implies (#[trigger] after[a]).wf() by {
            if a != i {
                assert(after[a] == levels[a]);
            }
        }
        assert forall|a: int, b: int| 0 <= a < b < after.len() implies precedes(
            ascending,
            (#[trigger] after[a]).price,
            (#[trigger] after[b]).price,
        ) by {
            assert(after[a].price == levels[a].price);
            assert(after[b].price == levels[b].price);
        }
    } else {
        let fresh = LevelView { price: entry.price, orders: seq![entry] };
        assert(fresh.wf());
        assert forall|a: int| 0 <= a < after.len() implies (#[trigger] after[a]).wf() by {
            if a < i {
                assert(after[a] == levels[a]);
            } else if a > i {
                assert(after[a] == levels[a - 1]);
            }
        }
        assert forall|a: int, b: int| 0 <= a < b < after.len() implies precedes(
            ascending,
            (#[trigger] after[a]).price,
            (#[trigger] after[b]).price,
        ) by {
            if b < i {
                assert(after[a] == levels[a] && after[b] == levels[b]);
            } else if b == i {
                assert(after[a] == levels[a]);
            } else if a < i {
                assert(after[a] == levels[a] && after[b] == levels[b - 1]);
            } else if a == i {
                assert(after[b] == levels[b - 1]);
                assert(!precedes(ascending, levels[b - 1].price, entry.price));
                if b - 1 > i {
                    assert(precedes(ascending, levels[i].price, levels[b - 1].price));
                }
            } else {
                assert(after[a] == levels[a - 1] && after[b] == levels[b - 1]);
            }
        }
    }
}

/// A sorted, well-formed side stays so when an order leaves it.
pub proof fn lemma_remove_keeps_wf(
    levels: Seq<LevelView>,
    ascending: bool,
    price: Decimal,
    id: u128,
)
    requires
        side_wf(levels, ascending),
    ensures
        remove_spec(levels, ascending, price, id) matches Some(after) ==> side_wf(
            after,
            ascending,
        ),
{
    let i = rank(levels, ascending, price);
    lemma_rank_splits(levels, ascending, price, i);
    if let Some(after) = remove_spec(levels, ascending, price, id) {
        let k = index_of_id(levels[i].orders, id);
        lemma_index_of_id(levels[i].orders, id);
        assert(levels[i].wf());
        if levels[i].orders.len() == 1 {
            assert forall|a: int| 0 <= a < after.len() implies (#[trigger] after[a]).wf() by {
                if a < i {
                    assert(after[a] == levels[a]);
                } else {
                    assert(after[a] == levels[a + 1]);
                }
            }
            assert forall|a: int, b: int| 0 <= a < b < after.len() implies precedes(
                ascending,
                (#[trigger] after[a]).price,
                (#[trigger] after[b]).price,
            ) by {
                let a0 = if a < i {
                    a
                } else {
                    a + 1
                };
                let b0 = if b < i {
                    b
                } else {
                    b + 1
                };
                assert(after[a] == levels[a0] && after[b] == levels[b0]);
            }
        } else {
            let shrunk = LevelView { price: levels[i].price, orders: levels[i].orders.remove(k) };
            assert forall|j: int| 0 <= j < shrunk.orders.len() implies (
            #[trigger] shrunk.orders[j]).wf() && shrunk.orders[j].price.units()
                == shrunk.price.units() by {
                if j < k {
                    assert(shrunk.orders[j] == levels[i].orders[j]);
                } else {
                    assert(shrunk.orders[j] == levels[i].orders[j + 1]);
                }
            }
            assert forall|a: int| 0 <= a < after.len() implies (#[trigger] after[a]).wf() by {
                if a != i {
                    assert(after[a] == levels[a]);
                }
            }
            assert forall|a: int, b: int| 0 <= a < b < after.len() implies precedes(
                ascending,
                (#[trigger] after[a]).price,
                (#[trigger] after[b]).price,
            ) by {
                assert(after[a].price == levels[a].price);
                assert(after[b].price == levels[b].price);
            }
        }
    }
}

/// A price level: the orders that rest at one price, the oldest first.
#[derive(Debug)]
pub struct PriceLevelInner {
    pub price: Decimal,
    pub orders: VecDeque<OrderEntry>,
}

impl View for PriceLevelInner {
    type V = LevelView;

    open spec fn view(&self) -> LevelView {
        LevelView { price: self.price, orders: self.orders@ }
    }
}

/// One side of the book of one symbol.
#[derive(Debug)]
pub struct OneSide {
    pub levels: Vec<PriceLevelInner>,
}

impl View for OneSide {
    type V = Seq<LevelView>;

    open spec fn view(&self) -> Seq<LevelView> {
        self.levels@.map_values(|level: PriceLevelInner| level@)
    }
}

impl OneSide {
    /// A side without levels.
    pub fn new() -> (r: OneSide)
        ensures
            r@ == Seq::<LevelView>::empty(),
    {
        let r = OneSide { levels: Vec::new() };
        assert(r@ =~= Seq::<LevelView>::empty());
        r
    }

    /// The number of levels.
    pub fn len(&self) -> (r: usize)
        ensures
            r == self@.len(),
    {
        self.levels.len()
    }

    /// Finds the level at `price` by binary search in the side's order:
    /// `Ok` with its position where there is one, else `Err` with the position
    /// where a level at that price belongs.
    pub fn find_level(&self, price: Decimal, ascending: bool) -> (r: Result<usize, usize>)
        requires
            side_wf(self@, ascending),
            price.wf(),
        ensures
            match r {
                Ok(i) => i == rank(self@, ascending, price) && has_level(self@, ascending, price),
                Err(i) => i == rank(self@, ascending, price) && !has_level(
                    self@,
                    ascending,
                    price,
                ),
            },
    {
        let ghost levels = self@;
        let mut lo: usize = 0;
        let mut hi: usize = self.levels.len();
        while lo < hi
            invariant
                levels == self@,
                levels.len() == self.levels.len(),
                side_wf(levels, ascending),
                price.wf(),
                0 <= lo <= hi <= levels.len(),
                forall|j: int| 0 <= j < lo ==> precedes(ascending, (#[trigger] levels[j]).price, price),
                forall|j: int|
                    hi <= j < levels.len() ==> precedes(
                        ascending,
                        price,
                        (#[trigger] levels[j]).price,
                    ),
            decreases hi - lo,
        {
            let mid: usize = lo + (hi - lo) / 2;
            assert(levels[mid as int] == self.levels@[mid as int]@);
            assert(levels[mid as int].wf());
            let c: i8 = self.levels[mid].price.compare(&price);
            if c == 0 {
                proof {
                    assert forall|j: int| 0 <= j < mid implies precedes(
                        ascending,
                        (#[trigger] levels[j]).price,
                        price,
                    ) by {
                        assert(precedes(ascending, levels[j].price, levels[mid as int].price));
                    }
                    assert forall|j: int| mid <= j < levels.len() implies !precedes(
                        ascending,
                        (#[trigger] levels[j]).price,
                        price,
                    ) by {
                        if j > mid {
                            assert(precedes(ascending, levels[mid as int].price, levels[j].price));
                        }
                    }
                    lemma_rank_splits(levels, ascending, price, mid as int);
                }
                return Ok(mid);
            }
            let before: bool = if ascending {
                c < 0
            } else {
                c > 0
            };
            if before {
                proof {
                    assert forall|j: int| 0 <= j < mid + 1 implies precedes(
                        ascending,
                        (#[trigger] levels[j]).price,
                        price,
                    ) by {
                        if j < mid {
                            assert(precedes(ascending, levels[j].price, levels[mid as int].price));
                        }
                    }
                }
                lo = mid + 1;
            } else {
                proof {
                    assert forall|j: int| mid <= j < levels.len() implies precedes(
                        ascending,
                        price,
                        (#[trigger] levels[j]).price,
                    ) by {
                        if j > mid {
                            assert(precedes(ascending, levels[mid as int].price, levels[j].price));
                        }
                    }
                }
                hi = mid;
            }
        }
        proof {
            lemma_rank_splits(levels, ascending, price, lo as int);
        }
        Err(lo)
    }

    /// Puts `entry` into the level at its price, at the back of the queue;
    /// where the side has no such level, one is made at the place that keeps
    /// the side sorted.
    pub fn insert(&mut self, entry: OrderEntry, ascending: bool)
        requires
            side_wf(old(self)@, ascending),
            entry.wf(),
        ensures
            final(self)@ == insert_spec(old(self)@, ascending, entry),
            side_wf(final(self)@, ascending),
    {
        proof {
            lemma_insert_keeps_wf(self@, ascending, entry);
            lemma_rank_splits(self@, ascending, entry.price, 0);
        }
        match self.find_level(entry.price, ascending) {
            Ok(idx) => {
                self.levels[idx].orders.push_back(entry);
                assert(self@ =~= insert_spec(old(self)@, ascending, entry));
            },
            Err(idx) => {
                let mut orders: VecDeque<OrderEntry> = VecDeque::new();
                orders.push_back(entry);
                assert(orders@ =~= seq![entry]);
                self.levels.insert(idx, PriceLevelInner { price: entry.price, orders });
                assert(self@ =~= insert_spec(old(self)@, ascending, entry));
            },
        }
    }

    /// Takes the first order with `order_id` out of the level at `price`, and
    /// the level out of the side if that was its last order. Returns whether
    /// there was such an order; where there was none the side is unchanged.
    pub fn remove_order(&mut self, price: Decimal, order_id: u128, ascending: bool) -> (r: bool)
        requires
            side_wf(old(self)@, ascending),
            price.wf(),
        ensures
            match remove_spec(old(self)@, ascending, price, order_id) {
                Some(after) => r && final(self)@ == after,
                None => !r && final(self)@ == old(self)@,
            },
            side_wf(final(self)@, ascending),
    {
        proof {
            lemma_remove_keeps_wf(self@, ascending, price, order_id);
        }
        if let Ok(idx) = self.find_level(price, ascending) {
            let ghost queue = self@[idx as int].orders;
            assert(self@[idx as int] == self.levels@[idx as int]@);
            assert(self@[idx as int].wf());
            let n: usize = self.levels[idx].orders.len();
            let mut pos: usize = 0;
            while pos < n && self.levels[idx].orders[pos].id != order_id
                invariant
                    idx < self.levels.len(),
                    self.levels@[idx as int].orders@ == queue,
                    n == queue.len(),
                    0 <= pos <= n,
                    forall|j: int| 0 <= j < pos ==> (#[trigger] queue[j]).id != order_id,
                decreases n - pos,
            {
                pos = pos + 1;
            }
            proof {
                lemma_index_of_id_unique(queue, order_id, pos as int);
            }
            if pos < n {
                self.levels[idx].orders.remove(pos);
                if self.levels[idx].orders.len() == 0 {
                    self.levels.remove(idx);
                }
                assert(self@ =~= remove_spec(old(self)@, ascending, price, order_id).unwrap());
                return true;
            }
        }
        false
    }
}

} // verus!
