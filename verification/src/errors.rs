use vstd::prelude::*;

verus! {

/// The failures an engine operation can report. All of them are returned as
/// explicit result values; none is recovered internally.
#[derive(Clone, Copy, Debug, PartialEq, Eq, Structural)]
pub enum EngineError {
    /// An operation referenced a trading pair with no registered book.
    MarketNotFound,
    /// A market was registered twice for the same trading pair.
    MarketAlreadyExists,
    /// A cancellation referenced an order that is not currently resting.
    OrderNotFound,
    /// A price input was non-positive, too precise for the fixed scale, or
    /// too large for the internal representation.
    InvalidPrice,
    /// An order size input was zero.
    InvalidSize,
}

} // verus!
