//! The failures that the engine reports.

use vstd::prelude::*;

verus! {

/// Why an order was refused before it reached the book.
#[derive(Clone, Copy, Debug, PartialEq, Eq, Structural)]
pub enum Rejection {
    /// The quantity is zero or negative.
    Quantity,
    /// The price text is not a decimal number.
    Price,
    /// The symbol is empty.
    Symbol,
    /// The side is neither `bid` nor `ask`.
    Side,
}

/// A failure of an engine operation.
#[derive(Clone, Copy, Debug, PartialEq, Eq, Structural)]
pub enum EngineError {
    /// The order is not valid; raised when an order is built, never while
    /// matching.
    InvalidOrder(Rejection),
    /// No resting order has this id.
    OrderNotFound(u128),
    /// The identity index names a place in the book where the order is not.
    InconsistentState,
    /// The front of an empty queue was asked for.
    EmptyQueueAccess,
}

impl Rejection {
    /// A sentence for the person who sent the order.
    pub fn describe(&self) -> (r: &'static str)
        ensures
            r@ == match *self {
                Rejection::Quantity => "Order quantity must be greater than zero"@,
                Rejection::Price => "Invalid price value"@,
                Rejection::Symbol => "Symbol cannot be empty"@,
                Rejection::Side => "Invalid side. Expected 'bid' or 'ask'."@,
            },
    {
        match self {
            Rejection::Quantity => "Order quantity must be greater than zero",
            Rejection::Price => "Invalid price value",
            Rejection::Symbol => "Symbol cannot be empty",
            Rejection::Side => "Invalid side. Expected 'bid' or 'ask'.",
        }
    }
}

impl EngineError {
    /// A sentence that names the failure.
    pub fn describe(&self) -> (r: &'static str)
        ensures
            r@ == match *self {
                EngineError::InvalidOrder(why) => match why {
                    Rejection::Quantity => "Order quantity must be greater than zero"@,
                    Rejection::Price => "Invalid price value"@,
                    Rejection::Symbol => "Symbol cannot be empty"@,
                    Rejection::Side => "Invalid side. Expected 'bid' or 'ask'."@,
                },
                EngineError::OrderNotFound(_) => "Order not found"@,
                EngineError::InconsistentState => "Price level doesn't exist!"@,
                EngineError::EmptyQueueAccess => "Order Queue is Empty!"@,
            },
    {
        match self {
            EngineError::InvalidOrder(why) => why.describe(),
            EngineError::OrderNotFound(_) => "Order not found",
            EngineError::InconsistentState => "Price level doesn't exist!",
            EngineError::EmptyQueueAccess => "Order Queue is Empty!",
        }
    }
}

} // verus!
