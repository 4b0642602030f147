use vstd::prelude::*;

verus! {

/// The ways a tic-tac-toe configuration or action can be rejected. All are
/// recoverable values returned to the caller, never a process abort.
#[derive(Clone, Copy, Debug, PartialEq, Eq, Structural)]
pub enum Error {
    /// The requested winning-sequence length exceeds the board length.
    InvalidGameCondition,
    /// The action addresses a cell that is occupied or out of bounds.
    CellAlreadyMarked,
    /// The acting player is not the one whose turn it is.
    NotPlayerTurn,
    /// No legal moves remain on the board.
    NoMovesAvailable,
    /// The game has already concluded.
    GameOver,
}

} // verus!
