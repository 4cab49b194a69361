//! An 8×8 Othello (Reversi) engine: the board and its rules, a depth-bounded
//! minimax search with alpha-beta pruning, and Monte Carlo tree search with an
//! optional RAVE blend and an exact end-game solve.

pub mod board;
pub mod rules;
pub mod minimax;
pub mod mcts;
pub mod mcts_rave;
pub mod player;
pub mod scraper;
