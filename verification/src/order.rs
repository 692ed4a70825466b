//! Orders, their sides and their status.

use crate::decimal::{parsed_decimal, Decimal};
use crate::error::{EngineError, Rejection};
use crate::ident::random_id;
use vstd::prelude::*;

verus! {

/// The side of the book an order is on: a bid buys, an ask sells.
#[derive(Clone, Copy, Debug, PartialEq, Eq, Hash, Structural)]
pub enum Side {
    BID,
    ASK,
}

/// Where an order stands after matching.
#[allow(non_camel_case_types)]
#[derive(Clone, Copy, Debug, PartialEq, Eq, Structural)]
pub enum OrderStatus {
    /// Nothing of the order has been filled.
    QUEUED,
    /// Part of the order has been filled.
    PARTIAL_FILL,
    /// Nothing of the order remains.
    FILLED,
}

impl Side {
    /// The lower-case name of the side.
    pub fn as_str(self) -> (r: &'static str)
        ensures
            r@ == match self {
                Side::BID => "bid"@,
                Side::ASK => "ask"@,
            },
    {
        match self {
            Side::BID => "bid",
            Side::ASK => "ask",
        }
    }

    /// The opposite side.
    pub open spec fn opposite(self) -> Side {
        match self {
            Side::BID => Side::ASK,
            Side::ASK => Side::BID,
        }
    }

    /// The opposite side, where the counterparties of an order rest.
    pub fn other(&self) -> (r: Side)
        ensures
            r == self.opposite(),
            r != *self,
    {
        match self {
            Side::BID => Side::ASK,
            Side::ASK => Side::BID,
        }
    }

    /// Whether the levels of this side are kept in ascending order of price.
    /// Bids are, so that the highest bid is last; asks are kept in descending
    /// order, so that the lowest ask is last.
    pub open spec fn ascending(self) -> bool {
        self == Side::BID
    }

    /// Whether an incoming order of this side at price `incoming` crosses a
    /// resting order at price `standing`: a bid crosses at or above the resting
    /// price, an ask at or below it.
    pub open spec fn crosses(self, incoming: Decimal, standing: Decimal) -> bool {
        match self {
            Side::BID => incoming.units() >= standing.units(),
            Side::ASK => incoming.units() <= standing.units(),
        }
    }

    /// The price at which an incoming order of this side at price `incoming`
    /// trades with a resting order at price `standing`: the lower of the two
    /// for a bid, the higher for an ask. Of two equal prices a bid takes the
    /// incoming one and an ask the resting one.
    pub open spec fn fill_price(self, incoming: Decimal, standing: Decimal) -> Decimal {
        match self {
            Side::BID => if standing.units() < incoming.units() {
                standing
            } else {
                incoming
            },
            Side::ASK => if standing.units() < incoming.units() {
                incoming
            } else {
                standing
            },
        }
    }

    /// Whether an incoming order of this side at price `incoming` can trade
    /// with a resting order at price `standing`.
    pub fn price_is_matchable(self, incoming: Decimal, standing: Decimal) -> (r: bool)
        requires
            incoming.wf(),
            standing.wf(),
        ensures
            r == self.crosses(incoming, standing),
    {
        let c: i8 = incoming.compare(&standing);
        match self {
            Side::BID => c >= 0,
            Side::ASK => c <= 0,
        }
    }

    /// The price of a trade between an incoming order of this side and a
    /// resting order.
    pub fn calc_fill_price(self, incoming: Decimal, standing: Decimal) -> (r: Decimal)
        requires
            incoming.wf(),
            standing.wf(),
        ensures
            r == self.fill_price(incoming, standing),
            r.wf(),
            self.crosses(incoming, standing) ==> r.units() == standing.units(),
    {
        let c: i8 = standing.compare(&incoming);
        match self {
            Side::BID => if c < 0 {
                standing
            } else {
                incoming
            },
            Side::ASK => if c < 0 {
                incoming
            } else {
                standing
            },
        }
    }
}

/// Whether `c` is the letter `lower` in either case.
pub open spec fn is_letter(c: char, lower: char, upper: char) -> bool {
    c == lower || c == upper
}

/// The side that a token names, whatever the case of its letters.
pub open spec fn side_of_token(text: Seq<char>) -> Option<Side> {
    if text.len() != 3 {
        None
    } else if is_letter(text[0], 'b', 'B') && is_letter(text[1], 'i', 'I') && is_letter(
        text[2],
        'd',
        'D',
    ) {
        Some(Side::BID)
    } else if is_letter(text[0], 'a', 'A') && is_letter(text[1], 's', 'S') && is_letter(
        text[2],
        'k',
        'K',
    ) {
        Some(Side::ASK)
    } else {
        None
    }
}

/// Reads a side from a token: `bid` or `ask`, in any mix of cases.
pub fn parse_side(text: &str) -> (r: Result<Side, EngineError>)
    ensures
        r == match side_of_token(text@) {
            Some(side) => Ok::<Side, EngineError>(side),
            None => Err(EngineError::InvalidOrder(Rejection::Side)),
        },
{
    if text.unicode_len() != 3 {
        return Err(EngineError::InvalidOrder(Rejection::Side));
    }
    let c0: char = text.get_char(0);
    let c1: char = text.get_char(1);
    let c2: char = text.get_char(2);
    if (c0 == 'b' || c0 == 'B') && (c1 == 'i' || c1 == 'I') && (c2 == 'd' || c2 == 'D') {
        Ok(Side::BID)
    } else if (c0 == 'a' || c0 == 'A') && (c1 == 's' || c1 == 'S') && (c2 == 'k' || c2 == 'K') {
        Ok(Side::ASK)
    } else {
        Err(EngineError::InvalidOrder(Rejection::Side))
    }
}

impl OrderStatus {
    /// The lower-case name of the status.
    pub fn as_str(self) -> (r: &'static str)
        ensures
            r@ == match self {
                OrderStatus::QUEUED => "queued"@,
                OrderStatus::PARTIAL_FILL => "partial_fill"@,
                OrderStatus::FILLED => "filled"@,
            },
    {
        match self {
            OrderStatus::QUEUED => "queued",
            OrderStatus::PARTIAL_FILL => "partial_fill",
            OrderStatus::FILLED => "filled",
        }
    }
}

/// An order: who it is, what it trades, at what limit, and how much is left.
#[derive(Debug)]
pub struct Order {
    pub id: u128,
    pub price: Decimal,
    pub quantity: i64,
    pub symbol: String,
    pub side: Side,
    pub original_quantity: i64,
}

/// The mathematical value of an [`Order`].
pub struct OrderView {
    pub id: u128,
    pub price: Decimal,
    pub quantity: i64,
    pub symbol: Seq<char>,
    pub side: Side,
    pub original_quantity: i64,
}

impl View for Order {
    type V = OrderView;

    open spec fn view(&self) -> OrderView {
        OrderView {
            id: self.id,
            price: self.price,
            quantity: self.quantity,
            symbol: self.symbol@,
            side: self.side,
            original_quantity: self.original_quantity,
        }
    }
}

impl OrderView {
    /// The remaining quantity is not negative and the price is in range.
    pub open spec fn wf(self) -> bool {
        &&& self.quantity >= 0
        &&& self.price.wf()
    }

    /// The status that the two quantities give.
    pub open spec fn status(self) -> OrderStatus {
        if self.quantity == 0 {
            OrderStatus::FILLED
        } else if self.quantity < self.original_quantity {
            OrderStatus::PARTIAL_FILL
        } else {
            OrderStatus::QUEUED
        }
    }

    /// The same order with `quantity` left.
    pub open spec fn with_quantity(self, quantity: i64) -> OrderView {
        OrderView { quantity, ..self }
    }
}

impl Clone for Order {
    fn clone(&self) -> (r: Order)
        ensures
            r == *self,
    {
        Order {
            id: self.id,
            price: self.price,
            quantity: self.quantity,
            symbol: self.symbol.clone(),
            side: self.side,
            original_quantity: self.original_quantity,
        }
    }
}

impl Order {
    /// The remaining quantity is not negative and the price is in range.
    pub open spec fn wf(&self) -> bool {
        self@.wf()
    }

    /// A new order under a fresh random id. The price is read from decimal
    /// text, so that no rounding of a binary fraction enters the book.
    ///
    /// Fails with `InvalidOrder(Quantity)` where the quantity is not positive,
    /// else with `InvalidOrder(Price)` where the text is not a decimal.
    pub fn new(side: Side, symbol: String, price: &str, quantity: i64) -> (r: Result<
        Order,
        EngineError,
    >)
        ensures
            match r {
                Ok(o) => {
                    &&& quantity > 0
                    &&& parsed_decimal(price@) == Some(o.price)
                    &&& o@ == (OrderView {
                        id: o.id,
                        price: o.price,
                        quantity,
                        symbol: symbol@,
                        side,
                        original_quantity: quantity,
                    })
                    &&& o.wf()
                },
                Err(e) => if quantity <= 0 {
                    e == EngineError::InvalidOrder(Rejection::Quantity)
                } else {
                    &&& e == EngineError::InvalidOrder(Rejection::Price)
                    &&& parsed_decimal(price@) is None
                },
            },
    {
        if quantity <= 0 {
            return Err(EngineError::InvalidOrder(Rejection::Quantity));
        }
        match Decimal::parse(price) {
            Some(p) => Order::from_parts(random_id(), side, symbol, p, quantity),
            None => Err(EngineError::InvalidOrder(Rejection::Price)),
        }
    }

    /// A new order with a given id and price.
    ///
    /// Fails with `InvalidOrder(Quantity)` exactly where the quantity is not
    /// positive.
    pub fn from_parts(id: u128, side: Side, symbol: String, price: Decimal, quantity: i64) -> (r:
        Result<Order, EngineError>)
        ensures
            r matches Ok(o) ==> o@ == (OrderView {
                id,
                price,
                quantity,
                symbol: symbol@,
                side,
                original_quantity: quantity,
            }),
            r is Ok <==> quantity > 0,
            r matches Err(e) ==> e == EngineError::InvalidOrder(Rejection::Quantity),
    {
        if quantity <= 0 {
            Err(EngineError::InvalidOrder(Rejection::Quantity))
        } else {
            Ok(Order { id, price, quantity, symbol, side, original_quantity: quantity })
        }
    }

    /// The order's id.
    pub fn id(&self) -> (r: u128)
        ensures
            r == self.id,
    {
        self.id
    }

    /// The limit price.
    pub fn price(&self) -> (r: Decimal)
        ensures
            r == self.price,
    {
        self.price
    }

    /// The quantity that is still open.
    pub fn quantity(&self) -> (r: i64)
        ensures
            r == self.quantity,
    {
        self.quantity
    }

    /// Sets the quantity that is still open.
    pub fn set_quantity(&mut self, value: i64)
        ensures
            final(self)@ == old(self)@.with_quantity(value),
    {
        self.quantity = value;
    }

    /// The traded symbol.
    pub fn symbol(&self) -> (r: &str)
        ensures
            r@ == self.symbol@,
    {
        self.symbol.as_str()
    }

    /// The side.
    pub fn side(&self) -> (r: Side)
        ensures
            r == self.side,
    {
        self.side
    }

    /// The quantity the order was made with.
    pub fn original_quantity(&self) -> (r: i64)
        ensures
            r == self.original_quantity,
    {
        self.original_quantity
    }

    /// `FILLED` where nothing is left, `PARTIAL_FILL` where less is left than
    /// the order was made with, else `QUEUED`.
    pub fn status(&self) -> (r: OrderStatus)
        ensures
            r == self@.status(),
    {
        if self.quantity == 0 {
            OrderStatus::FILLED
        } else if self.quantity < self.original_quantity {
            OrderStatus::PARTIAL_FILL
        } else {
            OrderStatus::QUEUED
        }
    }
}

/// A new bid; see [`Order::new`].
pub fn bid(symbol: String, price: &str, quantity: i64) -> (r: Result<Order, EngineError>)
    ensures
        match r {
            Ok(o) => {
                &&& quantity > 0
                &&& parsed_decimal(price@) == Some(o.price)
                &&& o@ == (OrderView {
                    id: o.id,
                    price: o.price,
                    quantity,
                    symbol: symbol@,
                    side: Side::BID,
                    original_quantity: quantity,
                })
            },
            Err(e) => if quantity <= 0 {
                e == EngineError::InvalidOrder(Rejection::Quantity)
            } else {
                &&& e == EngineError::InvalidOrder(Rejection::Price)
                &&& parsed_decimal(price@) is None
            },
        },
{
    Order::new(Side::BID, symbol, price, quantity)
}

/// A new ask; see [`Order::new`].
pub fn ask(symbol: String, price: &str, quantity: i64) -> (r: Result<Order, EngineError>)
    ensures
        match r {
            Ok(o) => {
                &&& quantity > 0
                &&& parsed_decimal(price@) == Some(o.price)
                &&& o@ == (OrderView {
                    id: o.id,
                    price: o.price,
                    quantity,
                    symbol: symbol@,
                    side: Side::ASK,
                    original_quantity: quantity,
                })
            },
            Err(e) => if quantity <= 0 {
                e == EngineError::InvalidOrder(Rejection::Quantity)
            } else {
                &&& e == EngineError::InvalidOrder(Rejection::Price)
                &&& parsed_decimal(price@) is None
            },
        },
{
    Order::new(Side::ASK, symbol, price, quantity)
}

} // verus!
