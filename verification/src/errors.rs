//! The error taxonomy of the game library. Every fallible operation reports
//! exactly one of these reasons and leaves all state unchanged.

use vstd::prelude::*;

verus! {

/// Why a request was rejected. All checks run before any mutation, so a
/// failure never leaves a partially applied move behind.
#[derive(Clone, Copy, Debug, PartialEq, Eq, Structural)]
pub enum GameError {
    /// A board was requested with a side length above 19.
    ConfigError,
    /// A coordinate lies outside the board.
    OutOfBounds,
    /// A cell write with a value above 2.
    InvalidValue,
    /// A stone was placed on a non-empty cell.
    CellOccupied,
    /// The mover is not the player whose turn it is.
    WrongTurn,
    /// The swap rule was invoked at a turn other than 1.
    SwapNotAllowed,
    /// No game exists under the given index.
    GameNotFound,
    /// The game has already finished.
    GameAlreadyFinished,
    /// The caller is not the expected mover.
    UnauthorizedCaller,
    /// The cell argument does not match the move kind.
    MalformedRequest,
}

} // verus!
