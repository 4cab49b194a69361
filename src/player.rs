//! Match-ups between strategies: who plays, and the tally of finished games.
use vstd::prelude::*;
use crate::board::{Board, Case, EndState, is_opening};

verus! {

/// How a side chooses its moves.
#[derive(Debug, Clone, Copy, PartialEq, Eq, Structural)]
pub enum Strategy {
    Random,
    Greedy,
    Manual,
    Minimax { depth: u8 },
    MCTS { playout_budget: usize, final_solve: bool },
    MCTSRave { playout_budget: usize, final_solve: bool },
}

/// Whether games run unattended or one move at a time for a watcher.
#[derive(Debug, Clone, Copy, PartialEq, Eq, Structural)]
pub enum PlayStyle {
    Automatic,
    Progressive,
}

/// A match-up: the board and the strategies of (Black, White).
#[derive(Debug)]
pub struct Player {
    pub board: Board,
    pub strategy: (Strategy, Strategy),
}

impl Strategy {
    /// A human needs a watched game: manual play is refused in automatic games.
    pub fn allowed_in(&self, style: &PlayStyle) -> (r: bool)
        ensures
            r == !(*self == Strategy::Manual && *style == PlayStyle::Automatic),
    {
        match (self, style) {
            (Strategy::Manual, PlayStyle::Automatic) => false,
            _ => true,
        }
    }
}

impl Player {
    /// New players (Black, White) on the opening board.
    pub fn new(strategy: (Strategy, Strategy)) -> (p: Self)
        ensures
            is_opening(p.board.cases),
            p.board.history.moves@.len() == 0,
            p.board.history.history@.len() == 0,
            p.strategy == strategy,
    {
        Player { board: Board::new(), strategy }
    }
}

/// Adds a finished game to the tally (Black wins, White wins, draws).
pub fn record_result(score: (u32, u32, u32), end_state: EndState) -> (r: (u32, u32, u32))
    requires
        score.0 < u32::MAX && score.1 < u32::MAX && score.2 < u32::MAX,
    ensures
        r.0 == score.0 + if end_state == EndState::Winner(Case::Black) { 1int } else { 0int },
        r.1 == score.1 + if end_state == EndState::Winner(Case::White) { 1int } else { 0int },
        r.2 == score.2 + if end_state == EndState::Winner(Case::Empty) { 1int } else { 0int },
{
    match end_state {
        EndState::Winner(Case::Black) => (score.0 + 1, score.1, score.2),
        EndState::Winner(Case::White) => (score.0, score.1 + 1, score.2),
        EndState::Winner(Case::Empty) => (score.0, score.1, score.2 + 1),
    }
}

} // verus!
