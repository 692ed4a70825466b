//! A limit-order matching engine with price-time priority.
//!
//! The engine keeps one book per traded symbol. Each book has a bid side and
//! an ask side; each side is a sorted run of price levels, and each level is
//! a first-in-first-out queue of resting orders. Every executable function
//! carries a contract over a mathematical model of the book.

pub mod book;
pub mod consistency;
pub mod decimal;
pub mod error;
pub mod ident;
pub mod ingest;
pub mod laws;
pub mod level;
pub mod matching;
pub mod order;
pub mod snapshot;
pub mod trade;

pub use book::{Book, DEFAULT_DEPTH};
pub use decimal::Decimal;
pub use error::{EngineError, Rejection};
pub use ingest::{validate_records, OrderRecord, RecordError};
pub use order::{ask, bid, parse_side, Order, OrderStatus, Side};
pub use snapshot::{compute_vwap, Snapshot, SnapshotLevel};
pub use trade::{compute_blotter_stats, OrderQueue, PriceLevel, Trade, TradeBlotter};
