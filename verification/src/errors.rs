use vstd::prelude::*;

verus! {

/// Everything an operation can be rejected with.  Each kind is recoverable by
/// the caller: the engine returns the error and performs no mutation at all.
#[derive(Clone, Copy, Debug, PartialEq, Eq, Structural)]
pub enum Error {
    /// The chosen seat position is already occupied (or lies outside the table).
    SeatTaken,
    /// Every seat of the table is occupied.
    TableFull,
    /// A deposit falls outside the allowed buy-in range.
    DepositOutOfRange,
    /// The caller holds no seat at this table (or no stored secret matches).
    NotAPlayer,
    /// The caller holds a seat, but action is awaited from another one.
    NotYourTurn,
    /// The current stage has no open betting round.
    HandNotInProgress,
    /// The action is not legal in the current state, e.g. a check while the
    /// outstanding bet is unmatched.
    IllegalAction,
    /// The seat's wallet cannot cover the attempted raise.
    InsufficientFunds,
}

} // verus!
