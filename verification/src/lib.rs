//! A single-process limit order matching engine.
//!
//! Per tradable instrument the engine keeps a book of resting buy (bid) and
//! sell (ask) orders and matches incoming orders against that book under
//! deterministic price/time priority: ask levels are consumed ascending by
//! price, bid levels descending, and within a level strictly first-in
//! first-out. A marketable (crossing) limit order executes against the book
//! before any remainder rests; emptied orders and levels are pruned in the
//! same operation.

pub mod decimal;
pub mod engine;
pub mod errors;
pub mod orderbook;
pub mod price;
