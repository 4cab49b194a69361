//! Monte Carlo tree search with Rapid Action Value Estimation: the same tree
//! and rounds as the plain engine, with the AMAF counters of every node fed to
//! the selection policy, and the most visited child played.
use vstd::prelude::*;
use crate::board::{Board, Case, GameError};
use crate::mcts::{ChildStats, root_ok, reconciled, selected, first_with, picked, lemma_first_with_exists};
pub use crate::mcts::Node;

verus! {

/// A Monte Carlo tree search engine whose selection blends UCT with AMAF
/// statistics (the blend lives in the `score` given to `search`), keeping its
/// tree between moves and playing the most visited child.
#[derive(Debug)]
pub struct MCTSRave {
    pub root: Node,
    pub player: Case,
    pub playout_budget: usize,
    pub final_solve: bool,
}

impl MCTSRave {
    /// The tree is well formed and its counters can still grow.
    pub open spec fn wf(&self) -> bool {
        root_ok(self.root)
    }

    /// An engine for `player`, to move on `board`, running `playout_budget`
    /// rounds per search, with the exact solve near the end when `final_solve`.
    pub fn new(player: Case, final_solve: bool, playout_budget: usize, board: Board) -> (r: MCTSRave)
        ensures
            r.wf(),
            r.root.state == board,
            r.player == player,
            r.root.children@.len() == 0,
            r.playout_budget == playout_budget,
            r.final_solve == final_solve,
    {
        MCTSRave { root: Node::root(board), player, playout_budget, final_solve }
    }

    /// The last move recorded on the board, which the opponent played.
    pub fn get_opponents_last_move(&self, board: &Board) -> (r: Option<(usize, usize)>)
        ensures
            board.history.moves@.len() == 0 ==> r.is_none(),
            board.history.moves@.len() > 0 ==> r == Some(board.history.moves@.last()),
    {
        let n = board.history.moves.len();
        if n == 0 {
            None
        } else {
            Some(board.history.moves[n - 1])
        }
    }

    /// The move to play on `board`: brings the tree in step with the
    /// opponent's last move, selects the most visited move (or one by the exact
    /// solve), and keeps the subtree of that move for the next search.
    /// `score` ranks the children during selection; higher explores first.
    pub fn search<F: Fn(ChildStats) -> u64>(&mut self, board: &Board, score: &F) -> (res: Result<(usize, usize), GameError>)
        requires
            old(self).wf(),
            forall|st: ChildStats| score.requires((st,)),
        ensures
            final(self).wf(),
            final(self).player == old(self).player,
            final(self).playout_budget == old(self).playout_budget,
            final(self).final_solve == old(self).final_solve,
            exists|r: Node, s: Node| #![trigger reconciled(old(self).root, *board, r), selected(r, s, res, old(self).playout_budget as int, old(self).final_solve, true)]
                reconciled(old(self).root, *board, r)
                && selected(r, s, res, old(self).playout_budget as int, old(self).final_solve, true)
                && (res.is_ok() ==> exists|i: int| #[trigger] first_with(s.children@, i, res->Ok_0) && final(self).root == s.children@[i]),
    {
        if let Some(opp_move) = self.get_opponents_last_move(board) {
            self.root.update_with_opponents_move(opp_move, board);
        }
        let ghost r = self.root;
        let res = self.root.select_move(self.playout_budget, self.final_solve, true, score);
        let ghost s = self.root;
        if let Ok(m) = res {
            proof {
                let i = choose|i: int| #[trigger] picked(s, i, m, self.final_solve, s.is_fully_expanded, true);
                assert(s.children@[i].mov == m);
                if !(exists|j: int| #[trigger] first_with(s.children@, j, m)) {
                    assert forall|j: int| 0 <= j <= i implies !(#[trigger] s.children@[j].mov == m) by {
                        if s.children@[j].mov == m {
                            lemma_first_with_exists(s.children@, j, m);
                        }
                    }
                }
            }
            self.root.promote_child(m);
        }
        proof {
            assert(reconciled(old(self).root, *board, r));
        }
        res
    }
}

} // verus!
