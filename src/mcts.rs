//! Monte Carlo tree search: nodes that keep visit statistics, grown one node
//! per round by selection, expansion, a random playout and backpropagation,
//! with an exact backward-induction solve once a subtree is complete.
use vstd::prelude::*;
use rand::seq::SliceRandom;
use crate::board::{
    Board, BoardState, Case, EndState, GameError, opponent_of, turn_of, leader, discs, legal_moves,
    played, lemma_legal_moves_entries, lemma_legal_moves_contains, lemma_discs_bound,
};

verus! {

/// Counters are kept below this bound, far beyond any real search, so that
/// every update provably fits in 64 bits.
pub const VISIT_LIMIT: u64 = 0x0100_0000_0000_0000;

/// What a selection policy sees of a child: its own counters and the visits
/// of its parent.
#[derive(Clone, Copy, Debug, PartialEq, Eq, Structural)]
pub struct ChildStats {
    pub played: u64,
    pub wins: u64,
    pub played_rave: u64,
    pub wins_rave: u64,
    pub parent_played: u64,
}

/// A node of the search tree. `turn` is the color to move at the node;
/// `wins` counts the playouts through the node won by the other color, the one
/// who chose it. `children[i]` follows the `i`-th legal move of `state`.
#[derive(Debug)]
pub struct Node {
    pub mov: (usize, usize),
    pub played: u64,
    pub wins: u64,
    pub turn: Case,
    pub state: Board,
    pub children: Vec<Node>,
    pub is_fully_expanded: bool,
    pub wins_rave: u64,
    pub played_rave: u64,
    pub winning_state: Option<Case>,
}

/// The invariant of a search tree: `turn` is the side to move on the state;
/// counters are ordered and bounded by the parent's visits; the children
/// follow the legal moves of the state, each visited and one disc further into
/// the game; and a node is fully expanded exactly when every legal move has a
/// child and every child is fully expanded.
pub open spec fn tree_ok(n: Node) -> bool
    decreases n,
{
    let ms = legal_moves(n.state.cases, turn_of(n.state.cases));
    &&& n.turn == turn_of(n.state.cases)
    &&& n.wins <= n.played
    &&& n.wins_rave <= n.played_rave
    &&& n.children@.len() <= ms.len()
    &&& n.is_fully_expanded <==> (n.children@.len() == ms.len() && forall|i: int|
        0 <= i < n.children@.len() ==> (#[trigger] n.children@[i]).is_fully_expanded)
    &&& forall|i: int|
        0 <= i < n.children@.len() ==> {
            &&& (#[trigger] n.children@[i]).mov == ms[i]
            &&& 1 <= n.children@[i].played <= n.played
            &&& n.children@[i].played_rave <= 64 * n.played
            &&& discs(n.children@[i].state.cases) == discs(n.state.cases) + 1
            &&& tree_ok(n.children@[i])
        }
}

/// One step of backward induction at a node where `turn` moves: the current
/// outcome is kept once it is a win for `turn`; otherwise a child's outcome
/// replaces it unless that child is a win for the opponent.
pub open spec fn ws_step(turn: Case, current: Case, to_add: Case) -> Case {
    if turn != current {
        if to_add != opponent_of(turn) {
            to_add
        } else {
            current
        }
    } else {
        current
    }
}

/// The solved outcome of a node from its first `k` children: the winner on
/// the board when the side to move has no move, else the backward induction
/// over the children, starting from a win for the opponent.
pub open spec fn solved_upto(n: Node, k: int) -> Case
    decreases n, k,
{
    if legal_moves(n.state.cases, turn_of(n.state.cases)).len() == 0 {
        leader(n.state.cases)
    } else if k <= 0 {
        opponent_of(n.turn)
    } else if k > n.children@.len() {
        solved_upto(n, n.children@.len() as int)
    } else {
        let c = n.children@[k - 1];
        ws_step(n.turn, solved_upto(n, k - 1), solved_upto(c, c.children@.len() as int))
    }
}

/// The solved outcome of a node over the subtree built so far.
pub open spec fn solved(n: Node) -> Case {
    solved_upto(n, n.children@.len() as int)
}

/// The two nodes differ at most in the solved outcomes they record.
pub open spec fn same_but_solved(a: Node, b: Node) -> bool
    decreases a,
{
    &&& a.mov == b.mov
    &&& a.played == b.played
    &&& a.wins == b.wins
    &&& a.turn == b.turn
    &&& a.state == b.state
    &&& a.is_fully_expanded == b.is_fully_expanded
    &&& a.wins_rave == b.wins_rave
    &&& a.played_rave == b.played_rave
    &&& a.children@.len() == b.children@.len()
    &&& forall|i: int| 0 <= i < a.children@.len() ==> same_but_solved(#[trigger] a.children@[i], b.children@[i])
}

/// Relies on rand's `SliceRandom::choose` with the thread-local generator:
/// on a non-empty slice it returns one of its elements.
#[verifier::external_body]
fn choose_move(moves: &Vec<(usize, usize)>) -> (m: (usize, usize))
    requires
        moves@.len() > 0,
    ensures
        moves@.contains(m),
{
    *moves.choose(&mut rand::thread_rng()).unwrap()
}

impl Node {
    /// A fresh node for `state`, with no statistics; fully expanded when the
    /// side to move has no move.
    pub fn root(state: Board) -> (n: Node)
        ensures
            n.state == state,
            n.turn == turn_of(state.cases),
            n.played == 0 && n.wins == 0 && n.played_rave == 0 && n.wins_rave == 0,
            n.children@.len() == 0,
            n.is_fully_expanded == (legal_moves(state.cases, turn_of(state.cases)).len() == 0),
            n.winning_state.is_none(),
            n.mov == (0usize, 0usize),
            tree_ok(n),
    {
        let turn = state.get_turn();
        let is_fully_expanded = state.is_ended();
        Node {
            mov: (0, 0),
            played: 0,
            wins: 0,
            turn,
            state,
            children: Vec::new(),
            is_fully_expanded,
            wins_rave: 0,
            played_rave: 0,
            winning_state: None,
        }
    }

    /// One step of backward induction (see `ws_step`).
    pub fn update_winning_state(turn: Case, current: Case, to_add: Case) -> (r: Case)
        ensures
            r == ws_step(turn, current, to_add),
    {
        if turn != current {
            if to_add != turn.opponent() {
                return to_add;
            }
            return current;
        }
        current
    }

    /// Solves the subtree by backward induction and records in every node
    /// its solved outcome.
    pub fn generate_winning_state(&mut self)
        requires
            tree_ok(*old(self)),
        ensures
            same_but_solved(*old(self), *final(self)),
            final(self).winning_state == Some(solved(*old(self))),
            forall|i: int| 0 <= i < final(self).children@.len() ==> (#[trigger] final(self).children@[i]).winning_state == Some(solved(old(self).children@[i])),
        decreases *old(self),
    {
        let ghost n0 = *self;
        if self.state.is_ended() {
            self.winning_state = Some(self.state.current_winner());
            proof {
                lemma_same_but_solved_refl(n0);
            }
            return;
        }
        let mut wstate = self.turn.opponent();
        let mut i: usize = 0;
        while i < self.children.len()
            invariant
                n0 == *old(self),
                tree_ok(n0),
                legal_moves(n0.state.cases, turn_of(n0.state.cases)).len() != 0,
                self.children@.len() == n0.children@.len(),
                i <= self.children@.len(),
                self.mov == n0.mov && self.played == n0.played && self.wins == n0.wins && self.turn == n0.turn,
                self.state == n0.state && self.is_fully_expanded == n0.is_fully_expanded,
                self.wins_rave == n0.wins_rave && self.played_rave == n0.played_rave,
                wstate == solved_upto(n0, i as int),
                forall|k: int| 0 <= k < i ==> same_but_solved(n0.children@[k], #[trigger] self.children@[k]),
                forall|k: int| 0 <= k < i ==> (#[trigger] self.children@[k]).winning_state == Some(solved(n0.children@[k])),
                forall|k: int| i <= k < self.children@.len() ==> #[trigger] self.children@[k] == n0.children@[k],
            decreases self.children@.len() - i,
        {
            proof {
                assert(decreases_to!(n0 => n0.children@[i as int]));
            }
            self.children[i].generate_winning_state();
            let child_state = match self.children[i].winning_state {
                Some(c) => c,
                None => Case::Empty,
            };
            wstate = Node::update_winning_state(self.turn, wstate, child_state);
            i = i + 1;
        }
        self.winning_state = Some(wstate);
    }
}

proof fn lemma_same_but_solved_refl(a: Node)
    ensures
        same_but_solved(a, a),
    decreases a,
{
    assert forall|i: int| 0 <= i < a.children@.len() implies same_but_solved(#[trigger] a.children@[i], a.children@[i]) by {
        lemma_same_but_solved_refl(a.children@[i]);
    }
}

/// How many times `m` appears in `s`.
pub open spec fn occ(s: Seq<(usize, usize)>, m: (usize, usize)) -> int
    decreases s.len(),
{
    if s.len() == 0 {
        0
    } else {
        occ(s.drop_last(), m) + if s.last() == m { 1int } else { 0int }
    }
}

proof fn lemma_occ_bound(s: Seq<(usize, usize)>, m: (usize, usize))
    ensures
        0 <= occ(s, m) <= s.len(),
    decreases s.len(),
{
    if s.len() > 0 {
        lemma_occ_bound(s.drop_last(), m);
    }
}

/// Child `i` is the first child reached by its move.
pub open spec fn first_mov(kids: Seq<Node>, i: int) -> bool {
    forall|j: int| 0 <= j < i ==> kids[j].mov != kids[i].mov
}

/// Child `i` is the first child reached by `m`.
pub open spec fn first_with(kids: Seq<Node>, i: int, m: (usize, usize)) -> bool {
    &&& 0 <= i < kids.len()
    &&& kids[i].mov == m
    &&& forall|j: int| 0 <= j < i ==> (#[trigger] kids[j]).mov != m
}

/// The AMAF playouts that a round adds to child `i`: the occurrences of its
/// move among the moves of both colors, counted once per move.
pub open spec fn amaf_visits(kids: Seq<Node>, i: int, moves_b: Seq<(usize, usize)>, moves_w: Seq<(usize, usize)>) -> int {
    if first_mov(kids, i) {
        occ(moves_b, kids[i].mov) + occ(moves_w, kids[i].mov)
    } else {
        0
    }
}

/// The AMAF wins that a round adds to child `i`: the occurrences of its move
/// among the moves of the color that won.
pub open spec fn amaf_wins(kids: Seq<Node>, i: int, endstate: EndState, moves_b: Seq<(usize, usize)>, moves_w: Seq<(usize, usize)>) -> int {
    if !first_mov(kids, i) {
        0
    } else if endstate == EndState::Winner(Case::Black) {
        occ(moves_b, kids[i].mov)
    } else if endstate == EndState::Winner(Case::White) {
        occ(moves_w, kids[i].mov)
    } else {
        0
    }
}

/// The statistics of child `j` of `n` as a selection policy sees them.
pub open spec fn stats_of(n: Node, j: int) -> ChildStats {
    ChildStats {
        played: n.children@[j].played,
        wins: n.children@[j].wins,
        played_rave: n.children@[j].played_rave,
        wins_rave: n.children@[j].wins_rave,
        parent_played: n.played,
    }
}

/// A round went down from `a` (now `b`) into child `k`: among the children
/// that were not fully expanded, `k` has the highest score in `sc`, and is
/// the last with it; it was visited once more; the other children changed at
/// most in their AMAF counters.
pub open spec fn descended(a: Node, b: Node, k: int, sc: Seq<u64>) -> bool {
    &&& 0 <= k < a.children@.len()
    &&& sc.len() == a.children@.len()
    &&& !a.children@[k].is_fully_expanded
    &&& forall|j: int| 0 <= j < a.children@.len() && !a.children@[j].is_fully_expanded ==> #[trigger] sc[j] <= sc[k]
    &&& forall|j: int| k < j < a.children@.len() && !a.children@[j].is_fully_expanded ==> #[trigger] sc[j] < sc[k]
    &&& b.children@[k].played == a.children@[k].played + 1
    &&& b.children@[k].mov == a.children@[k].mov
    &&& forall|j: int| 0 <= j < a.children@.len() && j != k ==> same_but_rave(a.children@[j], #[trigger] b.children@[j])
}

/// `b1` is reached from `b0` by the legal plies `plies`, each played by the
/// side to move; `blacks` and `whites` are the plies of each color, in order.
pub open spec fn plies_from(
    b0: Board,
    plies: Seq<(usize, usize)>,
    blacks: Seq<(usize, usize)>,
    whites: Seq<(usize, usize)>,
    b1: Board,
) -> bool
    decreases plies.len(),
{
    if plies.len() == 0 {
        &&& blacks.len() == 0
        &&& whites.len() == 0
        &&& b1.cases == b0.cases
        &&& b1.history.moves@ == b0.history.moves@
        &&& b1.history.history@ == b0.history.history@
    } else {
        exists|mid: Board|
            #[trigger] played(mid, plies.last(), b1) && if turn_of(mid.cases) == Case::White {
                &&& whites.len() > 0
                &&& whites.last() == plies.last()
                &&& plies_from(b0, plies.drop_last(), blacks, whites.drop_last(), mid)
            } else {
                &&& blacks.len() > 0
                &&& blacks.last() == plies.last()
                &&& plies_from(b0, plies.drop_last(), blacks.drop_last(), whites, mid)
            }
    }
}

/// The two nodes differ at most in their own AMAF counters.
pub open spec fn same_but_rave(a: Node, b: Node) -> bool {
    &&& a.mov == b.mov
    &&& a.played == b.played
    &&& a.wins == b.wins
    &&& a.turn == b.turn
    &&& a.state == b.state
    &&& a.children == b.children
    &&& a.is_fully_expanded == b.is_fully_expanded
    &&& a.winning_state == b.winning_state
}

impl Node {
    /// Plays uniformly random legal moves on `board` until the game ends;
    /// returns how it ended and the moves played by Black and by White.
    pub fn simulate_random_playout(board: &mut Board) -> (r: (EndState, Vec<(usize, usize)>, Vec<(usize, usize)>))
        requires
            legal_moves(old(board).cases, turn_of(old(board).cases)).len() > 0,
        ensures
            r.1@.len() + r.2@.len() <= 64 - discs(old(board).cases),
            legal_moves(final(board).cases, turn_of(final(board).cases)).len() == 0,
            r.0 == EndState::Winner(leader(final(board).cases)),
            exists|plies: Seq<(usize, usize)>| plies.len() >= 1 && #[trigger] plies_from(*old(board), plies, r.1@, r.2@, *final(board)),
    {
        let ghost d0 = discs(board.cases);
        let ghost b0 = *board;
        let ghost mut plies: Seq<(usize, usize)> = Seq::empty();
        let mut moves_black: Vec<(usize, usize)> = Vec::new();
        let mut moves_white: Vec<(usize, usize)> = Vec::new();
        proof {
            lemma_discs_bound(board.cases);
        }
        loop
            invariant
                legal_moves(board.cases, turn_of(board.cases)).len() > 0,
                moves_black@.len() + moves_white@.len() == discs(board.cases) - d0,
                discs(board.cases) <= 64,
                d0 == discs(old(board).cases),
                b0 == *old(board),
                plies_from(b0, plies, moves_black@, moves_white@, *board),
            decreases 64 - discs(board.cases),
        {
            let ghost mid = *board;
            let turn = board.get_turn();
            let moves = board.available_moves(None);
            let m = choose_move(&moves);
            proof {
                lemma_legal_moves_contains(board.cases, turn_of(board.cases), m);
            }
            let game_state = board.play_move(&m);
            proof {
                lemma_discs_bound(board.cases);
            }
            let ghost old_b = moves_black@;
            let ghost old_w = moves_white@;
            if turn == Case::White {
                moves_white.push(m);
            } else {
                moves_black.push(m);
            }
            proof {
                let np = plies.push(m);
                assert(np.drop_last() =~= plies);
                if turn == Case::White {
                    assert(moves_white@.drop_last() =~= old_w);
                } else {
                    assert(moves_black@.drop_last() =~= old_b);
                }
                assert(played(mid, np.last(), *board));
                plies = np;
                assert(plies_from(b0, plies, moves_black@, moves_white@, *board));
            }
            match game_state {
                Ok(BoardState::Ongoing) => {},
                Ok(BoardState::Ended(endstate)) => {
                    proof {
                        assert(plies.len() >= 1 && plies_from(b0, plies, moves_black@, moves_white@, *board));
                    }
                    return (endstate, moves_black, moves_white);
                },
                Err(_) => {
                    proof {
                        assert(false);
                    }
                    return (EndState::Winner(Case::Empty), moves_black, moves_white);
                },
            }
        }
    }

    /// Counts one more playout through the node, won or not by the color
    /// that chose it.
    pub fn update_from_endstate(&mut self, endstate: EndState)
        requires
            old(self).played < VISIT_LIMIT,
            old(self).wins <= old(self).played,
        ensures
            final(self).played == old(self).played + 1,
            final(self).wins == old(self).wins + if endstate == EndState::Winner(opponent_of(old(self).turn)) {
                1int
            } else {
                0int
            },
            final(self).mov == old(self).mov && final(self).turn == old(self).turn,
            final(self).state == old(self).state && final(self).children == old(self).children,
            final(self).played_rave == old(self).played_rave && final(self).wins_rave == old(self).wins_rave,
            final(self).is_fully_expanded == old(self).is_fully_expanded,
            final(self).winning_state == old(self).winning_state,
    {
        self.played = self.played + 1;
        let EndState::Winner(winner) = endstate;
        if winner == self.turn.opponent() {
            self.wins = self.wins + 1;
        }
    }

    /// The index of the child reached by `m`, if there is one.
    pub fn find_child(&self, m: (usize, usize)) -> (r: Option<usize>)
        ensures
            r.is_some() ==> first_with(self.children@, r->0 as int, m),
            r.is_none() ==> forall|i: int| 0 <= i < self.children@.len() ==> (#[trigger] self.children@[i]).mov != m,
    {
        let mut i: usize = 0;
        while i < self.children.len()
            invariant
                i <= self.children@.len(),
                forall|k: int| 0 <= k < i ==> (#[trigger] self.children@[k]).mov != m,
            decreases self.children@.len() - i,
        {
            if self.children[i].mov.0 == m.0 && self.children[i].mov.1 == m.1 {
                return Some(i);
            }
            i = i + 1;
        }
        None
    }

    /// All-moves-as-first update: the first child reached by a move counts
    /// one more playout for each time that move appears among the moves of a
    /// color in the round, won when that color won.
    pub fn update_from_endstate_rave(&mut self, endstate: EndState, moves_b: &Vec<(usize, usize)>, moves_w: &Vec<(usize, usize)>)
        requires
            moves_b@.len() + moves_w@.len() <= 64,
            forall|i: int| 0 <= i < old(self).children@.len() ==> (#[trigger] old(self).children@[i]).played_rave <= 0x4000_0000_0000_0000
                && old(self).children@[i].wins_rave <= old(self).children@[i].played_rave,
        ensures
            final(self).children@.len() == old(self).children@.len(),
            forall|i: int| 0 <= i < old(self).children@.len() ==> {
                &&& same_but_rave(old(self).children@[i], #[trigger] final(self).children@[i])
                &&& final(self).children@[i].played_rave == old(self).children@[i].played_rave + amaf_visits(old(self).children@, i, moves_b@, moves_w@)
                &&& final(self).children@[i].wins_rave == old(self).children@[i].wins_rave + amaf_wins(old(self).children@, i, endstate, moves_b@, moves_w@)
                &&& final(self).children@[i].played_rave <= old(self).children@[i].played_rave + moves_b@.len() + moves_w@.len()
                &&& final(self).children@[i].wins_rave <= final(self).children@[i].played_rave
            },
            final(self).mov == old(self).mov && final(self).turn == old(self).turn,
            final(self).state == old(self).state,
            final(self).played == old(self).played && final(self).wins == old(self).wins,
            final(self).played_rave == old(self).played_rave && final(self).wins_rave == old(self).wins_rave,
            final(self).is_fully_expanded == old(self).is_fully_expanded,
            final(self).winning_state == old(self).winning_state,
    {
        let EndState::Winner(winner) = endstate;
        let black_won: u64 = if winner == Case::Black { 1 } else { 0 };
        let white_won: u64 = if winner == Case::White { 1 } else { 0 };
        let ghost n0 = *self;
        proof {
            assert forall|i: int| 0 <= i < n0.children@.len() implies occ(moves_b@, #[trigger] n0.children@[i].mov) <= moves_b@.len()
                && occ(moves_w@, n0.children@[i].mov) <= moves_w@.len() by {
                lemma_occ_bound(moves_b@, n0.children@[i].mov);
                lemma_occ_bound(moves_w@, n0.children@[i].mov);
            }
        }
        self.amaf_pass(moves_b, black_won, Ghost(0));
        let ghost n1 = *self;
        self.amaf_pass(moves_w, white_won, Ghost(moves_b@.len() as int));
        proof {
            assert(moves_b@.take(moves_b@.len() as int) =~= moves_b@);
            assert(moves_w@.take(moves_w@.len() as int) =~= moves_w@);
            assert forall|i: int| 0 <= i < n0.children@.len() implies first_mov(n1.children@, i) == first_mov(n0.children@, i) by {
                assert forall|j: int| 0 <= j < i implies (n1.children@[j].mov == n1.children@[i].mov) == (n0.children@[j].mov == n0.children@[i].mov) by {
                    assert(same_but_rave(n0.children@[j], n1.children@[j]));
                    assert(same_but_rave(n0.children@[i], n1.children@[i]));
                }
            }
        }
    }

    /// One AMAF pass over `list`: the first child reached by each listed move
    /// counts a playout, won when `won` is 1.
    fn amaf_pass(&mut self, list: &Vec<(usize, usize)>, won: u64, Ghost(before): Ghost<int>)
        requires
            won <= 1,
            0 <= before,
            before + list@.len() <= 64,
            forall|i: int| 0 <= i < old(self).children@.len() ==> (#[trigger] old(self).children@[i]).played_rave <= 0x4000_0000_0000_0000 + before
                && old(self).children@[i].wins_rave <= old(self).children@[i].played_rave,
        ensures
            final(self).children@.len() == old(self).children@.len(),
            forall|i: int| 0 <= i < old(self).children@.len() ==> {
                &&& same_but_rave(old(self).children@[i], #[trigger] final(self).children@[i])
                &&& final(self).children@[i].played_rave == old(self).children@[i].played_rave
                    + if first_mov(old(self).children@, i) { occ(list@, old(self).children@[i].mov) } else { 0 }
                &&& final(self).children@[i].wins_rave == old(self).children@[i].wins_rave
                    + if first_mov(old(self).children@, i) && won == 1 { occ(list@, old(self).children@[i].mov) } else { 0 }
                &&& final(self).children@[i].wins_rave <= final(self).children@[i].played_rave
            },
            final(self).mov == old(self).mov && final(self).turn == old(self).turn,
            final(self).state == old(self).state,
            final(self).played == old(self).played && final(self).wins == old(self).wins,
            final(self).played_rave == old(self).played_rave && final(self).wins_rave == old(self).wins_rave,
            final(self).is_fully_expanded == old(self).is_fully_expanded,
            final(self).winning_state == old(self).winning_state,
    {
        let ghost n0 = *self;
        let mut k: usize = 0;
        while k < list.len()
            invariant
                won <= 1,
                k <= list@.len(),
                0 <= before,
                before + list@.len() <= 64,
                n0 == *old(self),
                self.children@.len() == n0.children@.len(),
                forall|i: int| 0 <= i < n0.children@.len() ==> (#[trigger] n0.children@[i]).played_rave <= 0x4000_0000_0000_0000 + before,
                forall|i: int| 0 <= i < n0.children@.len() ==> {
                    &&& same_but_rave(n0.children@[i], #[trigger] self.children@[i])
                    &&& self.children@[i].played_rave == n0.children@[i].played_rave
                        + if first_mov(n0.children@, i) { occ(list@.take(k as int), n0.children@[i].mov) } else { 0 }
                    &&& self.children@[i].wins_rave == n0.children@[i].wins_rave
                        + if first_mov(n0.children@, i) && won == 1 { occ(list@.take(k as int), n0.children@[i].mov) } else { 0 }
                    &&& occ(list@.take(k as int), n0.children@[i].mov) <= k
                    &&& self.children@[i].wins_rave <= self.children@[i].played_rave
                },
                self.mov == n0.mov && self.turn == n0.turn && self.state == n0.state,
                self.played == n0.played && self.wins == n0.wins,
                self.played_rave == n0.played_rave && self.wins_rave == n0.wins_rave,
                self.is_fully_expanded == n0.is_fully_expanded,
                self.winning_state == n0.winning_state,
            decreases list@.len() - k,
        {
            let m = list[k];
            proof {
                assert(list@.take(k + 1).drop_last() =~= list@.take(k as int));
                assert(list@.take(k + 1).last() == m);
            }
            match self.find_child(m) {
                Some(c) => {
                    proof {
                        assert(same_but_rave(n0.children@[c as int], self.children@[c as int]));
                        assert(first_mov(n0.children@, c as int)) by {
                            assert forall|j: int| 0 <= j < c implies n0.children@[j].mov != n0.children@[c as int].mov by {
                                assert(same_but_rave(n0.children@[j], self.children@[j]));
                            }
                        }
                    }
                    let child = &mut self.children[c];
                    child.played_rave = child.played_rave + 1;
                    child.wins_rave = child.wins_rave + won;
                    proof {
                        assert forall|i: int| 0 <= i < n0.children@.len() && i != c && first_mov(n0.children@, i)
                            implies n0.children@[i].mov != m by {
                            if n0.children@[i].mov == m {
                                if i < c {
                                    assert(same_but_rave(n0.children@[i], self.children@[i]));
                                } else {
                                    assert(n0.children@[c as int].mov == n0.children@[i].mov);
                                }
                            }
                        }
                    }
                },
                None => {
                    proof {
                        assert forall|i: int| 0 <= i < n0.children@.len() implies n0.children@[i].mov != m by {
                            assert(same_but_rave(n0.children@[i], self.children@[i]));
                        }
                    }
                },
            }
            k = k + 1;
        }
        proof {
            assert(list@.take(list@.len() as int) =~= list@);
        }
    }

    /// Marks the node fully expanded once every one of its `n_moves` legal
    /// moves has a child and every child is fully expanded.
    pub fn update_fully_expanded(&mut self, n_moves: usize)
        ensures
            final(self).is_fully_expanded == (old(self).is_fully_expanded || (old(self).children@.len() == n_moves
                && forall|i: int| 0 <= i < old(self).children@.len() ==> (#[trigger] old(self).children@[i]).is_fully_expanded)),
            final(self).mov == old(self).mov && final(self).turn == old(self).turn,
            final(self).state == old(self).state && final(self).children == old(self).children,
            final(self).played == old(self).played && final(self).wins == old(self).wins,
            final(self).played_rave == old(self).played_rave && final(self).wins_rave == old(self).wins_rave,
            final(self).winning_state == old(self).winning_state,
    {
        if self.children.len() != n_moves {
            return;
        }
        let mut i: usize = 0;
        while i < self.children.len()
            invariant
                i <= self.children@.len(),
                forall|k: int| 0 <= k < i ==> (#[trigger] self.children@[k]).is_fully_expanded,
            decreases self.children@.len() - i,
        {
            if !self.children[i].is_fully_expanded {
                return;
            }
            i = i + 1;
        }
        self.is_fully_expanded = true;
    }

    /// Creates the child of `parent` reached by `move_`: plays it, runs a
    /// random playout from there unless the game ended, and counts that
    /// outcome in the child. Returns the child, the outcome and the moves of
    /// the playout by Black and by White.
    pub fn from_expansion(parent: &Node, move_: (usize, usize)) -> (r: (Node, EndState, Vec<(usize, usize)>, Vec<(usize, usize)>))
        requires
            crate::rules::legal(parent.state.cases, move_.0 as int, move_.1 as int, turn_of(parent.state.cases)),
        ensures
            r.0.mov == move_,
            played(parent.state, move_, r.0.state),
            r.0.turn == turn_of(r.0.state.cases),
            r.0.played == 1,
            r.0.wins == if r.1 == EndState::Winner(opponent_of(r.0.turn)) { 1int } else { 0int },
            r.0.played_rave == 0 && r.0.wins_rave == 0,
            r.0.children@.len() == 0,
            r.0.winning_state.is_none(),
            r.0.is_fully_expanded == (legal_moves(r.0.state.cases, turn_of(r.0.state.cases)).len() == 0),
            r.0.is_fully_expanded ==> r.1 == EndState::Winner(leader(r.0.state.cases)),
            r.0.is_fully_expanded ==> r.2@.len() == 0 && r.3@.len() == 0,
            !r.0.is_fully_expanded ==> exists|s0: Board, plies: Seq<(usize, usize)>, fin: Board| {
                &&& s0.cases == r.0.state.cases
                &&& s0.history.moves@ == r.0.state.history.moves@
                &&& s0.history.history@ == r.0.state.history.history@
                &&& plies.len() >= 1
                &&& #[trigger] plies_from(s0, plies, r.2@, r.3@, fin)
                &&& legal_moves(fin.cases, turn_of(fin.cases)).len() == 0
                &&& r.1 == EndState::Winner(leader(fin.cases))
            },
            tree_ok(r.0),
            discs(r.0.state.cases) == discs(parent.state.cases) + 1,
            r.2@.len() + r.3@.len() <= 64 - discs(r.0.state.cases),
    {
        let mut board = parent.state.duplicate();
        let res = board.play_move(&move_);
        let ghost mut ws0: Board = board;
        let ghost mut wplies: Seq<(usize, usize)> = Seq::empty();
        let ghost mut wfin: Board = board;
        let (is_end_state, endstate, moves_b, moves_w) = match res {
            Ok(BoardState::Ongoing) => {
                let mut sim = board.duplicate();
                proof {
                    ws0 = sim;
                }
                let (e, b, w) = Node::simulate_random_playout(&mut sim);
                proof {
                    wplies = choose|plies: Seq<(usize, usize)>| plies.len() >= 1 && #[trigger] plies_from(ws0, plies, b@, w@, sim);
                    wfin = sim;
                }
                (false, e, b, w)
            },
            Ok(BoardState::Ended(e)) => (true, e, Vec::new(), Vec::new()),
            Err(_) => {
                proof {
                    assert(false);
                }
                (true, EndState::Winner(Case::Empty), Vec::new(), Vec::new())
            },
        };
        proof {
            if !is_end_state {
                assert(plies_from(ws0, wplies, moves_b@, moves_w@, wfin));
                assert(wplies.len() >= 1);
                assert(ws0.cases == board.cases);
                assert(ws0.history.moves@ == board.history.moves@);
                assert(ws0.history.history@ == board.history.history@);
                assert(legal_moves(wfin.cases, turn_of(wfin.cases)).len() == 0);
                assert(endstate == EndState::Winner(leader(wfin.cases)));
            }
        }
        proof {
            lemma_discs_bound(board.cases);
        }
        let turn = board.get_turn();
        let mut node = Node {
            mov: move_,
            played: 0,
            wins: 0,
            turn,
            state: board,
            children: Vec::new(),
            is_fully_expanded: is_end_state,
            wins_rave: 0,
            played_rave: 0,
            winning_state: None,
        };
        node.update_from_endstate(endstate);
        let r = (node, endstate, moves_b, moves_w);
        proof {
            if !r.0.is_fully_expanded {
                assert(plies_from(ws0, wplies, r.2@, r.3@, wfin));
                assert(ws0.cases == r.0.state.cases);
            }
        }
        r
    }
}

impl Node {
    /// The statistics of child `i` as a selection policy sees them.
    pub fn child_stats(&self, i: usize) -> (st: ChildStats)
        requires
            i < self.children@.len(),
        ensures
            st.played == self.children@[i as int].played,
            st.wins == self.children@[i as int].wins,
            st.played_rave == self.children@[i as int].played_rave,
            st.wins_rave == self.children@[i as int].wins_rave,
            st.parent_played == self.played,
    {
        let c = &self.children[i];
        ChildStats {
            played: c.played,
            wins: c.wins,
            played_rave: c.played_rave,
            wins_rave: c.wins_rave,
            parent_played: self.played,
        }
    }

    /// One round of search below this node. A fully expanded node is left
    /// as it is (a draw is reported). Otherwise the first legal move without a
    /// child gets one, evaluated by a random playout; when every move has a
    /// child, the round goes down into the child that is not fully expanded and
    /// has the highest `score` (the last such on ties). The outcome is counted
    /// in this node and, as AMAF statistics, in the children whose moves were
    /// played. Returns the outcome and the moves of the round by Black and by
    /// White.
    pub fn expand<F: Fn(ChildStats) -> u64>(&mut self, score: &F) -> (r: (EndState, Vec<(usize, usize)>, Vec<(usize, usize)>))
        requires
            tree_ok(*old(self)),
            old(self).played < VISIT_LIMIT,
            forall|st: ChildStats| score.requires((st,)),
        ensures
            tree_ok(*final(self)),
            final(self).mov == old(self).mov && final(self).turn == old(self).turn,
            final(self).state == old(self).state,
            final(self).played_rave == old(self).played_rave && final(self).wins_rave == old(self).wins_rave,
            final(self).winning_state == old(self).winning_state,
            final(self).children@.len() >= old(self).children@.len(),
            r.1@.len() + r.2@.len() <= 64 - discs(old(self).state.cases),
            old(self).is_fully_expanded ==> r.0 == EndState::Winner(Case::Empty) && *final(self) == *old(self)
                && r.1@.len() == 0 && r.2@.len() == 0,
            !old(self).is_fully_expanded ==> {
                &&& final(self).played == old(self).played + 1
                &&& final(self).wins == old(self).wins + if r.0 == EndState::Winner(opponent_of(old(self).turn)) { 1int } else { 0int }
            },
            !old(self).is_fully_expanded && old(self).children@.len() < legal_moves(old(self).state.cases, turn_of(old(self).state.cases)).len() ==> {
                &&& final(self).children@.len() == old(self).children@.len() + 1
                &&& forall|j: int| 0 <= j < old(self).children@.len() ==> same_but_rave(old(self).children@[j], #[trigger] final(self).children@[j])
            },
            !old(self).is_fully_expanded && old(self).children@.len() == legal_moves(old(self).state.cases, turn_of(old(self).state.cases)).len() ==> {
                &&& final(self).children@.len() == old(self).children@.len()
                &&& exists|b: int, sc: Seq<u64>| #[trigger] descended(*old(self), *final(self), b, sc) && forall|j: int|
                    0 <= j < old(self).children@.len() && !old(self).children@[j].is_fully_expanded
                        ==> call_ensures(*score, (stats_of(*old(self), j),), #[trigger] sc[j])
            },
        decreases *old(self),
    {
        let ghost n0 = *self;
        proof {
            lemma_discs_bound(self.state.cases);
        }
        if self.is_fully_expanded {
            return (EndState::Winner(Case::Empty), Vec::new(), Vec::new());
        }
        let turn = self.state.get_turn();
        let moves = self.state.available_moves(None);
        proof {
            lemma_legal_moves_entries(self.state.cases, turn);
        }
        if self.children.len() < moves.len() {
            let move_ = moves[self.children.len()];
            let (child, endstate, mut moves_b, mut moves_w) = Node::from_expansion(self, move_);
            if turn == Case::Black {
                moves_b.push(move_);
            } else {
                moves_w.push(move_);
            }
            self.children.push(child);
            proof {
                assert forall|i: int| 0 <= i < self.children@.len() implies (#[trigger] self.children@[i]).played_rave <= 0x4000_0000_0000_0000
                    && self.children@[i].wins_rave <= self.children@[i].played_rave by {
                    if i < n0.children@.len() {
                        assert(n0.children@[i] == self.children@[i]);
                        assert(tree_ok(n0.children@[i]));
                    }
                }
            }
            self.update_from_endstate(endstate);
            let ghost n1 = *self;
            self.update_from_endstate_rave(endstate, &moves_b, &moves_w);
            self.update_fully_expanded(moves.len());
            proof {
                assert forall|i: int| 0 <= i < self.children@.len() implies {
                    &&& (#[trigger] self.children@[i]).mov == moves@[i]
                    &&& 1 <= self.children@[i].played <= self.played
                    &&& self.children@[i].played_rave <= 64 * self.played
                    &&& discs(self.children@[i].state.cases) == discs(self.state.cases) + 1
                    &&& tree_ok(self.children@[i])
                } by {
                    assert(same_but_rave(n1.children@[i], self.children@[i]));
                    if i < n0.children@.len() {
                        assert(n0.children@[i] == n1.children@[i]);
                        assert(tree_ok(n0.children@[i]));
                    }
                    lemma_tree_ok_rave(n1.children@[i], self.children@[i]);
                }
                assert forall|j: int| 0 <= j < n0.children@.len() implies same_but_rave(n0.children@[j], #[trigger] self.children@[j]) by {
                    assert(n0.children@[j] == n1.children@[j]);
                    assert(same_but_rave(n1.children@[j], self.children@[j]));
                }
                assert forall|i: int| 0 <= i < self.children@.len() implies (#[trigger] self.children@[i]).is_fully_expanded == n1.children@[i].is_fully_expanded by {
                    assert(same_but_rave(n1.children@[i], self.children@[i]));
                }
            }
            return (endstate, moves_b, moves_w);
        }
        let mut best: Option<usize> = None;
        let mut best_score: u64 = 0;
        let ghost mut sc: Seq<u64> = Seq::empty();
        let mut i: usize = 0;
        while i < self.children.len()
            invariant
                *self == n0,
                i <= self.children@.len(),
                sc.len() == i,
                forall|st: ChildStats| score.requires((st,)),
                best.is_some() ==> best->0 < i && !self.children@[best->0 as int].is_fully_expanded && sc[best->0 as int] == best_score,
                best.is_none() ==> forall|j: int| 0 <= j < i ==> (#[trigger] self.children@[j]).is_fully_expanded,
                forall|j: int| 0 <= j < i && !self.children@[j].is_fully_expanded ==> call_ensures(*score, (stats_of(n0, j),), #[trigger] sc[j]),
                forall|j: int| 0 <= j < i && !self.children@[j].is_fully_expanded ==> #[trigger] sc[j] <= best_score,
                best.is_some() ==> forall|j: int| best->0 < j < i && !self.children@[j].is_fully_expanded ==> #[trigger] sc[j] < best_score,
            decreases self.children@.len() - i,
        {
            if !self.children[i].is_fully_expanded {
                let st = self.child_stats(i);
                proof {
                    assert(st == stats_of(n0, i as int));
                }
                let v = score(st);
                proof {
                    sc = sc.push(v);
                }
                if best.is_none() || v >= best_score {
                    best = Some(i);
                    best_score = v;
                }
            } else {
                proof {
                    sc = sc.push(0u64);
                }
            }
            i = i + 1;
        }
        match best {
            None => {
                proof {
                    assert(false);
                }
                (EndState::Winner(Case::Empty), Vec::new(), Vec::new())
            },
            Some(b) => {
                let ghost kid = n0.children@[b as int];
                proof {
                    assert(decreases_to!(n0 => n0.children@[b as int]));
                    assert(tree_ok(kid));
                }
                let (endstate, mut moves_b, mut moves_w) = self.children[b].expand(score);
                let move_ = self.children[b].mov;
                if turn == Case::Black {
                    moves_b.push(move_);
                } else {
                    moves_w.push(move_);
                }
                let ghost n_mid = *self;
                proof {
                    assert forall|i: int| 0 <= i < self.children@.len() implies (#[trigger] self.children@[i]).played_rave <= 0x4000_0000_0000_0000
                        && self.children@[i].wins_rave <= self.children@[i].played_rave by {
                        if i != b {
                            assert(n0.children@[i] == self.children@[i]);
                        }
                        assert(tree_ok(n0.children@[i]));
                    }
                }
                self.update_from_endstate(endstate);
                let ghost n1 = *self;
                self.update_from_endstate_rave(endstate, &moves_b, &moves_w);
                self.update_fully_expanded(moves.len());
                proof {
                    assert forall|i: int| 0 <= i < self.children@.len() implies {
                        &&& (#[trigger] self.children@[i]).mov == moves@[i]
                        &&& 1 <= self.children@[i].played <= self.played
                        &&& self.children@[i].played_rave <= 64 * self.played
                        &&& discs(self.children@[i].state.cases) == discs(self.state.cases) + 1
                        &&& tree_ok(self.children@[i])
                    } by {
                        assert(same_but_rave(n1.children@[i], self.children@[i]));
                        if i != b {
                            assert(n0.children@[i] == n1.children@[i]);
                        }
                        assert(tree_ok(n0.children@[i]));
                        lemma_tree_ok_rave(n1.children@[i], self.children@[i]);
                    }
                    assert forall|i: int| 0 <= i < self.children@.len() implies (#[trigger] self.children@[i]).is_fully_expanded == n1.children@[i].is_fully_expanded by {
                        assert(same_but_rave(n1.children@[i], self.children@[i]));
                    }
                    assert forall|j: int| 0 <= j < n0.children@.len() && j != b implies same_but_rave(n0.children@[j], #[trigger] self.children@[j]) by {
                        assert(n0.children@[j] == n1.children@[j]);
                        assert(same_but_rave(n1.children@[j], self.children@[j]));
                    }
                    assert(same_but_rave(n1.children@[b as int], self.children@[b as int]));
                    assert(descended(n0, *self, b as int, sc));
                }
                (endstate, moves_b, moves_w)
            },
        }
    }
}

/// The invariant of a subtree does not depend on the root's AMAF counters,
/// as long as they stay ordered.
proof fn lemma_tree_ok_rave(a: Node, b: Node)
    requires
        tree_ok(a),
        same_but_rave(a, b),
        b.wins_rave <= b.played_rave,
    ensures
        tree_ok(b),
{
}

/// Child `i` has the most visits among the children of `n`.
#[verifier::opaque]
pub open spec fn most_visited(n: Node, i: int) -> bool {
    forall|j: int| 0 <= j < n.children@.len() ==> n.children@[i].played >= (#[trigger] n.children@[j]).played
}

/// Child `i` was visited and has the best win ratio among the visited
/// children of `n`.
#[verifier::opaque]
pub open spec fn best_ratio(n: Node, i: int) -> bool {
    &&& n.children@[i].played > 0
    &&& forall|j: int| 0 <= j < n.children@.len() && n.children@[j].played > 0 ==> ratio_ge(n.children@[i], #[trigger] n.children@[j])
}

/// Child `i` of `n` is reached by `m` and is a move that the root selection
/// may play: one with the node's solved outcome when the solve ran (asked
/// for, on a fully expanded node), else one with the most visits
/// (`by_visits`) or the best win ratio.
pub open spec fn picked(n: Node, i: int, m: (usize, usize), solve: bool, full: bool, by_visits: bool) -> bool {
    &&& 0 <= i < n.children@.len()
    &&& n.children@[i].mov == m
    &&& {
        ||| solve && full && n.children@[i].winning_state == n.winning_state
        ||| by_visits && most_visited(n, i)
        ||| !by_visits && best_ratio(n, i)
    }
}

/// Child `a` has a win ratio at least that of child `b` (both visited).
pub open spec fn ratio_ge(a: Node, b: Node) -> bool {
    a.wins * b.played >= b.wins * a.played
}

/// Backward induction never leaves a win for the side to move unused.
pub proof fn lemma_winning_child_wins(n: Node, i: int)
    requires
        legal_moves(n.state.cases, turn_of(n.state.cases)).len() != 0,
        n.turn != Case::Empty,
        0 <= i < n.children@.len(),
        solved(n.children@[i]) == n.turn,
    ensures
        solved(n) == n.turn,
{
    lemma_win_upto(n, i, n.children@.len() as int);
}

/// In a position where every move ends the game, a move after which the side
/// to move leads makes the solved outcome of the position a win for that side;
/// the exact solve then only picks moves that win.
pub proof fn lemma_forced_win_is_found(n: Node, i: int, j: int)
    requires
        legal_moves(n.state.cases, turn_of(n.state.cases)).len() != 0,
        n.turn != Case::Empty,
        0 <= i < n.children@.len(),
        0 <= j < n.children@.len(),
        forall|k: int| 0 <= k < n.children@.len() ==> legal_moves(
            (#[trigger] n.children@[k]).state.cases,
            turn_of(n.children@[k].state.cases),
        ).len() == 0,
        leader(n.children@[i].state.cases) == n.turn,
        solved(n.children@[j]) == solved(n),
    ensures
        solved(n) == n.turn,
        leader(n.children@[j].state.cases) == n.turn,
{
    lemma_winning_child_wins(n, i);
}

proof fn lemma_win_upto(n: Node, i: int, k: int)
    requires
        legal_moves(n.state.cases, turn_of(n.state.cases)).len() != 0,
        n.turn != Case::Empty,
        0 <= i < k <= n.children@.len(),
        solved(n.children@[i]) == n.turn,
    ensures
        solved_upto(n, k) == n.turn,
    decreases k,
{
    if k - 1 > i {
        lemma_win_upto(n, i, k - 1);
    }
}

/// Some child always shares the solved outcome of a node that has children
/// and a side to move.
pub proof fn lemma_solved_from_child(n: Node, k: int)
    requires
        legal_moves(n.state.cases, turn_of(n.state.cases)).len() != 0,
        n.turn != Case::Empty,
        1 <= k <= n.children@.len(),
    ensures
        exists|i: int| 0 <= i < k && #[trigger] solved(n.children@[i]) == solved_upto(n, k),
    decreases k,
{
    if k > 1 {
        lemma_solved_from_child(n, k - 1);
        if solved_upto(n, k) != solved(n.children@[k - 1]) {
            let i = choose|i: int| 0 <= i < k - 1 && #[trigger] solved(n.children@[i]) == solved_upto(n, k - 1);
            assert(solved(n.children@[i]) == solved_upto(n, k));
        }
    } else {
        assert(solved(n.children@[0]) == solved_upto(n, 1));
    }
}

impl Node {
    /// The moves of the children whose recorded solved outcome is the node's.
    pub fn solved_moves(&self) -> (moves: Vec<(usize, usize)>)
        ensures
            forall|m: (usize, usize)| moves@.contains(m) ==> exists|i: int|
                0 <= i < self.children@.len() && (#[trigger] self.children@[i]).mov == m
                    && self.children@[i].winning_state == self.winning_state,
            (exists|i: int| 0 <= i < self.children@.len() && (#[trigger] self.children@[i]).winning_state == self.winning_state)
                ==> moves@.len() > 0,
    {
        let mut moves: Vec<(usize, usize)> = Vec::new();
        let mut i: usize = 0;
        while i < self.children.len()
            invariant
                i <= self.children@.len(),
                forall|m: (usize, usize)| moves@.contains(m) ==> exists|j: int|
                    0 <= j < self.children@.len() && (#[trigger] self.children@[j]).mov == m
                        && self.children@[j].winning_state == self.winning_state,
                (exists|j: int| 0 <= j < i && (#[trigger] self.children@[j]).winning_state == self.winning_state)
                    ==> moves@.len() > 0,
            decreases self.children@.len() - i,
        {
            if self.children[i].winning_state == self.winning_state {
                let m = self.children[i].mov;
                let ghost old_moves = moves@;
                moves.push(m);
                proof {
                    assert forall|q: (usize, usize)| moves@.contains(q) implies exists|j: int|
                        0 <= j < self.children@.len() && (#[trigger] self.children@[j]).mov == q
                            && self.children@[j].winning_state == self.winning_state by {
                        if q != m {
                            let k = choose|k: int| 0 <= k < moves@.len() && moves@[k] == q;
                            assert(old_moves[k] == q);
                            assert(old_moves.contains(q));
                        } else {
                            assert(self.children@[i as int].mov == q);
                        }
                    }
                }
            }
            i = i + 1;
        }
        moves
    }

    /// The moves of the visited children with the best win ratio.
    pub fn best_ratio_moves(&self) -> (moves: Vec<(usize, usize)>)
        ensures
            forall|m: (usize, usize)| moves@.contains(m) ==> exists|i: int|
                0 <= i < self.children@.len() && (#[trigger] self.children@[i]).mov == m && best_ratio(*self, i),
            (exists|i: int| 0 <= i < self.children@.len() && (#[trigger] self.children@[i]).played > 0) ==> moves@.len() > 0,
    {
        let mut moves: Vec<(usize, usize)> = Vec::new();
        let mut best: Option<usize> = None;
        let mut i: usize = 0;
        while i < self.children.len()
            invariant
                i <= self.children@.len(),
                best.is_some() ==> best->0 < i && self.children@[best->0 as int].played > 0
                    && forall|j: int| 0 <= j < i && self.children@[j].played > 0
                        ==> ratio_ge(self.children@[best->0 as int], #[trigger] self.children@[j]),
                best.is_none() ==> forall|j: int| 0 <= j < i ==> (#[trigger] self.children@[j]).played == 0,
                best.is_some() ==> moves@.len() > 0,
                forall|m: (usize, usize)| moves@.contains(m) ==> exists|k: int|
                    0 <= k < i && (#[trigger] self.children@[k]).mov == m && self.children@[k].played > 0
                        && best.is_some() && ratio_ge(self.children@[k], self.children@[best->0 as int])
                        && ratio_ge(self.children@[best->0 as int], self.children@[k]),
            decreases self.children@.len() - i,
        {
            let c = &self.children[i];
            if c.played > 0 {
                let better = match best {
                    None => 2u8,
                    Some(b) => {
                        let d = &self.children[b];
                        let cw = c.wins as u128;
                        let cp = c.played as u128;
                        let dw = d.wins as u128;
                        let dp = d.played as u128;
                        proof {
                            assert(cw * dp <= 0xffff_ffff_ffff_ffffu128 * 0xffff_ffff_ffff_ffffu128) by (nonlinear_arith)
                                requires
                                    cw <= 0xffff_ffff_ffff_ffffu128,
                                    dp <= 0xffff_ffff_ffff_ffffu128,
                            ;
                            assert(dw * cp <= 0xffff_ffff_ffff_ffffu128 * 0xffff_ffff_ffff_ffffu128) by (nonlinear_arith)
                                requires
                                    dw <= 0xffff_ffff_ffff_ffffu128,
                                    cp <= 0xffff_ffff_ffff_ffffu128,
                            ;
                        }
                        let lhs: u128 = cw * dp;
                        let rhs: u128 = dw * cp;
                        if lhs > rhs {
                            2u8
                        } else if lhs == rhs {
                            1u8
                        } else {
                            0u8
                        }
                    },
                };
                if better == 2 {
                    proof {
                        lemma_ratio_trans_all(self.children@, best, i as int);
                    }
                    moves = Vec::new();
                    moves.push(c.mov);
                    best = Some(i);
                    proof {
                        assert forall|m: (usize, usize)| moves@.contains(m) implies exists|k: int|
                            0 <= k < i + 1 && (#[trigger] self.children@[k]).mov == m && self.children@[k].played > 0
                                && best.is_some() && ratio_ge(self.children@[k], self.children@[best->0 as int])
                                && ratio_ge(self.children@[best->0 as int], self.children@[k]) by {
                            assert(moves@[0] == m);
                            assert(ratio_ge(self.children@[i as int], self.children@[i as int])) by (nonlinear_arith);
                        }
                    }
                } else if better == 1 {
                    let ghost old_moves = moves@;
                    moves.push(c.mov);
                    proof {
                        let b = best->0 as int;
                        assert forall|m: (usize, usize)| moves@.contains(m) implies exists|k: int|
                            0 <= k < i + 1 && (#[trigger] self.children@[k]).mov == m && self.children@[k].played > 0
                                && best.is_some() && ratio_ge(self.children@[k], self.children@[best->0 as int])
                                && ratio_ge(self.children@[best->0 as int], self.children@[k]) by {
                            if m != self.children@[i as int].mov {
                                assert(old_moves.contains(m));
                            } else {
                                assert(ratio_ge(self.children@[i as int], self.children@[b]));
                            }
                        }
                    }
                }
            }
            i = i + 1;
        }
        proof {
            reveal(best_ratio);
            assert forall|m: (usize, usize)| moves@.contains(m) implies exists|k: int|
                0 <= k < self.children@.len() && (#[trigger] self.children@[k]).mov == m && best_ratio(*self, k) by {
                let k = choose|k: int| 0 <= k < i && (#[trigger] self.children@[k]).mov == m && self.children@[k].played > 0
                    && best.is_some() && ratio_ge(self.children@[k], self.children@[best->0 as int])
                    && ratio_ge(self.children@[best->0 as int], self.children@[k]);
                assert forall|j: int| 0 <= j < self.children@.len() && self.children@[j].played > 0
                    implies ratio_ge(self.children@[k], #[trigger] self.children@[j]) by {
                    lemma_ratio_trans(self.children@[k], self.children@[best->0 as int], self.children@[j]);
                }
                assert(best_ratio(*self, k));
            }
        }
        moves
    }

    /// The moves of the children with the most visits.
    pub fn most_played_moves(&self) -> (moves: Vec<(usize, usize)>)
        ensures
            forall|m: (usize, usize)| moves@.contains(m) ==> exists|i: int|
                0 <= i < self.children@.len() && (#[trigger] self.children@[i]).mov == m && most_visited(*self, i),
            self.children@.len() > 0 ==> moves@.len() > 0,
    {
        let mut moves: Vec<(usize, usize)> = Vec::new();
        let mut most_played: u64 = 0;
        let mut i: usize = 0;
        while i < self.children.len()
            invariant
                i <= self.children@.len(),
                forall|j: int| 0 <= j < i ==> (#[trigger] self.children@[j]).played <= most_played,
                i > 0 ==> moves@.len() > 0,
                forall|m: (usize, usize)| moves@.contains(m) ==> exists|k: int|
                    0 <= k < i && (#[trigger] self.children@[k]).mov == m && self.children@[k].played == most_played,
            decreases self.children@.len() - i,
        {
            let c = &self.children[i];
            if c.played > most_played || i == 0 {
                most_played = c.played;
                moves = Vec::new();
                moves.push(c.mov);
                proof {
                    assert forall|m: (usize, usize)| moves@.contains(m) implies exists|k: int|
                        0 <= k < i + 1 && (#[trigger] self.children@[k]).mov == m && self.children@[k].played == most_played by {
                        assert(moves@[0] == m);
                    }
                }
            } else if c.played == most_played {
                let ghost old_moves = moves@;
                moves.push(c.mov);
                proof {
                    assert forall|m: (usize, usize)| moves@.contains(m) implies exists|k: int|
                        0 <= k < i + 1 && (#[trigger] self.children@[k]).mov == m && self.children@[k].played == most_played by {
                        if m != self.children@[i as int].mov {
                            assert(old_moves.contains(m));
                        }
                    }
                }
            }
            i = i + 1;
        }
        proof {
            reveal(most_visited);
            assert forall|m: (usize, usize)| moves@.contains(m) implies exists|k: int|
                0 <= k < self.children@.len() && (#[trigger] self.children@[k]).mov == m && most_visited(*self, k) by {
                let k = choose|k: int| 0 <= k < i && (#[trigger] self.children@[k]).mov == m && self.children@[k].played == most_played;
                assert(most_visited(*self, k));
            }
        }
        moves
    }
}

proof fn lemma_ratio_trans(a: Node, b: Node, c: Node)
    requires
        a.played > 0 && b.played > 0 && c.played > 0,
        ratio_ge(a, b),
        ratio_ge(b, c),
    ensures
        ratio_ge(a, c),
{
    assert(a.wins * c.played >= c.wins * a.played) by (nonlinear_arith)
        requires
            a.played > 0 && b.played > 0 && c.played > 0,
            a.wins * b.played >= b.wins * a.played,
            b.wins * c.played >= c.wins * b.played,
            a.wins >= 0 && b.wins >= 0 && c.wins >= 0,
    ;
}

proof fn lemma_ratio_trans_all(kids: Seq<Node>, best: Option<usize>, i: int)
    requires
        0 <= i < kids.len(),
        kids[i].played > 0,
        best.is_some() ==> best->0 < i && kids[best->0 as int].played > 0
            && forall|j: int| 0 <= j < i && kids[j].played > 0 ==> ratio_ge(kids[best->0 as int], #[trigger] kids[j]),
        best.is_some() ==> ratio_ge(kids[i], kids[best->0 as int]),
        best.is_none() ==> forall|j: int| 0 <= j < i ==> (#[trigger] kids[j]).played == 0,
    ensures
        forall|j: int| 0 <= j < i + 1 && kids[j].played > 0 ==> ratio_ge(kids[i], #[trigger] kids[j]),
{
    assert forall|j: int| 0 <= j < i + 1 && kids[j].played > 0 implies ratio_ge(kids[i], #[trigger] kids[j]) by {
        if j == i {
            assert(kids[i].wins * kids[i].played >= kids[i].wins * kids[i].played);
        } else {
            lemma_ratio_trans(kids[i], kids[best->0 as int], kids[j]);
        }
    }
}

/// Recording solved outcomes keeps the invariant of the tree.
proof fn lemma_same_but_solved_ok(a: Node, b: Node)
    requires
        tree_ok(a),
        same_but_solved(a, b),
    ensures
        tree_ok(b),
    decreases a,
{
    let ms = legal_moves(b.state.cases, turn_of(b.state.cases));
    assert forall|i: int| 0 <= i < b.children@.len() implies {
        &&& (#[trigger] b.children@[i]).mov == ms[i]
        &&& 1 <= b.children@[i].played <= b.played
        &&& b.children@[i].played_rave <= 64 * b.played
        &&& discs(b.children@[i].state.cases) == discs(b.state.cases) + 1
        &&& tree_ok(b.children@[i])
    } by {
        assert(same_but_solved(a.children@[i], b.children@[i]));
        lemma_same_but_solved_ok(a.children@[i], b.children@[i]);
    }
    assert forall|i: int| 0 <= i < b.children@.len() implies (#[trigger] b.children@[i]).is_fully_expanded == a.children@[i].is_fully_expanded by {
        assert(same_but_solved(a.children@[i], b.children@[i]));
    }
}

/// A root that search can work on.
pub open spec fn root_ok(n: Node) -> bool {
    tree_ok(n) && n.played < VISIT_LIMIT
}

/// Recording solved outcomes does not change them.
proof fn lemma_same_but_solved_solved(a: Node, b: Node, k: int)
    requires
        same_but_solved(a, b),
    ensures
        solved_upto(a, k) == solved_upto(b, k),
    decreases a, k,
{
    if legal_moves(a.state.cases, turn_of(a.state.cases)).len() != 0 && k > 0 {
        if k > a.children@.len() {
            lemma_same_but_solved_solved(a, b, a.children@.len() as int);
        } else {
            lemma_same_but_solved_solved(a, b, k - 1);
            let c = a.children@[k - 1];
            assert(same_but_solved(c, b.children@[k - 1]));
            lemma_same_but_solved_solved(c, b.children@[k - 1], c.children@.len() as int);
        }
    }
}

/// Among children reached by `m` there is a first one.
pub proof fn lemma_first_with_exists(kids: Seq<Node>, j: int, m: (usize, usize))
    requires
        0 <= j < kids.len(),
        kids[j].mov == m,
    ensures
        exists|i: int| #[trigger] first_with(kids, i, m),
    decreases j,
{
    if !first_with(kids, j, m) {
        let k = choose|k: int| 0 <= k < j && (#[trigger] kids[k]).mov == m;
        lemma_first_with_exists(kids, k, m);
    }
}

/// `r` is a root with no statistics for the position of `board`.
pub open spec fn fresh_root(board: Board, r: Node) -> bool {
    &&& r.state.cases == board.cases
    &&& r.state.history.moves@ == board.history.moves@
    &&& r.state.history.history@ == board.history.history@
    &&& r.turn == turn_of(board.cases)
    &&& r.children@.len() == 0
    &&& r.played == 0 && r.wins == 0 && r.played_rave == 0 && r.wins_rave == 0
    &&& r.winning_state.is_none()
    &&& r.is_fully_expanded == (legal_moves(board.cases, turn_of(board.cases)).len() == 0)
}

/// The root `r` that search works from, given the previous root `o` and the
/// board: `o` itself when no move was played yet; the first child of `o` for
/// the last move on the board when there is one; else a fresh root on the
/// board.
pub open spec fn reconciled(o: Node, board: Board, r: Node) -> bool {
    if board.history.moves@.len() == 0 {
        r == o
    } else {
        let m = board.history.moves@.last();
        if exists|i: int| #[trigger] first_with(o.children@, i, m) {
            exists|i: int| #[trigger] first_with(o.children@, i, m) && r == o.children@[i]
        } else {
            fresh_root(board, r)
        }
    }
}

/// What choosing a move from root `a` does, leaving root `s` and the result
/// `res` (see `select_move`).
pub open spec fn selected(
    a: Node,
    s: Node,
    res: Result<(usize, usize), GameError>,
    playout_budget: int,
    final_solve: bool,
    by_visits: bool,
) -> bool {
    let n_legal = legal_moves(a.state.cases, turn_of(a.state.cases)).len();
    let m = res->Ok_0;
    &&& root_ok(s)
    &&& s.state == a.state && s.turn == a.turn && s.mov == a.mov
    &&& a.is_fully_expanded ==> s.is_fully_expanded
    &&& res.is_err() ==> res == Err::<(usize, usize), GameError>(GameError::NoMovesAvailable)
    &&& n_legal == 0 ==> res.is_err()
    &&& n_legal > 0 && (a.children@.len() > 0 || (playout_budget > 0 && a.played + 1 < VISIT_LIMIT)) ==> res.is_ok()
    &&& res.is_ok() ==> crate::rules::legal(a.state.cases, m.0 as int, m.1 as int, turn_of(a.state.cases))
    &&& res.is_ok() ==> exists|i: int| #[trigger] picked(s, i, m, final_solve, s.is_fully_expanded, by_visits)
    &&& final_solve && s.is_fully_expanded && n_legal > 0 ==> {
        &&& res.is_ok()
        &&& s.winning_state == Some(solved(s))
        &&& exists|i: int| 0 <= i < s.children@.len() && (#[trigger] s.children@[i]).mov == m && solved(s.children@[i]) == solved(s)
    }
}

impl Node {
    /// Keeps the tree in step with the board after the opponent played
    /// `opp_move`: the first child for that move becomes the root when there
    /// is one; otherwise the stale tree is dropped for a fresh root on `board`.
    pub fn update_with_opponents_move(&mut self, opp_move: (usize, usize), board: &Board)
        requires
            root_ok(*old(self)),
        ensures
            root_ok(*final(self)),
            (exists|i: int| #[trigger] first_with(old(self).children@, i, opp_move))
                ==> exists|i: int| #[trigger] first_with(old(self).children@, i, opp_move) && *final(self) == old(self).children@[i],
            !(exists|i: int| #[trigger] first_with(old(self).children@, i, opp_move)) ==> fresh_root(*board, *final(self)),
    {
        match self.find_child(opp_move) {
            Some(i) => {
                let ghost n0 = *self;
                let child = self.children.remove(i);
                proof {
                    assert(child == n0.children@[i as int]);
                    assert(first_with(n0.children@, i as int, opp_move));
                }
                *self = child;
            },
            None => {
                let state = board.duplicate();
                *self = Node::root(state);
            },
        }
    }

    /// Makes the first child reached by `move_` the root, dropping its siblings.
    pub fn promote_child(&mut self, move_: (usize, usize))
        requires
            root_ok(*old(self)),
        ensures
            root_ok(*final(self)),
            (exists|i: int| #[trigger] first_with(old(self).children@, i, move_))
                ==> exists|i: int| #[trigger] first_with(old(self).children@, i, move_) && *final(self) == old(self).children@[i],
    {
        match self.find_child(move_) {
            Some(i) => {
                let ghost n0 = *self;
                let child = self.children.remove(i);
                proof {
                    assert(child == n0.children@[i as int]);
                    assert(first_with(n0.children@, i as int, move_));
                }
                *self = child;
            },
            None => {},
        }
    }

    /// Chooses the move to play from this root. With no legal move, fails.
    /// Unless the root is already fully expanded with `final_solve`, runs
    /// `playout_budget` rounds of `expand` first. Then, with `final_solve` and
    /// a fully expanded root, solves the tree and picks at random among the
    /// moves whose solved outcome is the root's; otherwise picks at random
    /// among the children with the best win ratio, or with the most visits
    /// when `by_visits`.
    pub fn select_move<F: Fn(ChildStats) -> u64>(
        &mut self,
        playout_budget: usize,
        final_solve: bool,
        by_visits: bool,
        score: &F,
    ) -> (res: Result<(usize, usize), GameError>)
        requires
            root_ok(*old(self)),
            forall|st: ChildStats| score.requires((st,)),
        ensures
            selected(*old(self), *final(self), res, playout_budget as int, final_solve, by_visits),
    {
        let ghost n0 = *self;
        proof {
            lemma_legal_moves_entries(self.state.cases, turn_of(self.state.cases));
        }
        if self.state.is_ended() {
            return Err(GameError::NoMovesAvailable);
        }
        if !(self.is_fully_expanded && final_solve) {
            let mut k: usize = 0;
            while k < playout_budget
                invariant
                    root_ok(*self),
                    self.state == n0.state && self.turn == n0.turn && self.mov == n0.mov,
                    n0.is_fully_expanded ==> self.is_fully_expanded,
                    self.children@.len() >= n0.children@.len(),
                    legal_moves(n0.state.cases, turn_of(n0.state.cases)).len() > 0,
                    k > 0 && n0.played + 1 < VISIT_LIMIT ==> self.children@.len() > 0,
                    k == 0 ==> self.played == n0.played,
                    forall|st: ChildStats| score.requires((st,)),
                decreases playout_budget - k,
            {
                if self.played < VISIT_LIMIT - 1 {
                    let _ = self.expand(score);
                }
                k = k + 1;
            }
        }
        if self.is_fully_expanded && final_solve {
            let ghost pre = *self;
            self.generate_winning_state();
            proof {
                lemma_same_but_solved_ok(pre, *self);
                lemma_same_but_solved_solved(pre, *self, pre.children@.len() as int);
                assert(pre.children@.len() > 0);
                lemma_solved_from_child(pre, pre.children@.len() as int);
                let i = choose|i: int| 0 <= i < pre.children@.len() && #[trigger] solved(pre.children@[i]) == solved_upto(pre, pre.children@.len() as int);
                assert(same_but_solved(pre.children@[i], self.children@[i]));
                lemma_same_but_solved_solved(pre.children@[i], self.children@[i], pre.children@[i].children@.len() as int);
                assert(self.children@[i].winning_state == self.winning_state);
            }
            let candidates = self.solved_moves();
            if candidates.len() > 0 {
                let m = choose_move(&candidates);
                proof {
                    let i = choose|i: int| 0 <= i < self.children@.len() && (#[trigger] self.children@[i]).mov == m
                        && self.children@[i].winning_state == self.winning_state;
                    assert(picked(*self, i, m, final_solve, self.is_fully_expanded, by_visits));
                    assert(same_but_solved(pre.children@[i], self.children@[i]));
                    lemma_same_but_solved_solved(pre.children@[i], self.children@[i], pre.children@[i].children@.len() as int);
                    assert(solved(self.children@[i]) == solved(*self));
                    assert(tree_ok(pre));
                }
                let res = Ok(m);
                assert(res->Ok_0 == m);
                return res;
            }
        }
        proof {
            if self.children@.len() > 0 {
                assert(self.children@[0].played >= 1);
            }
        }
        let candidates = if by_visits {
            self.most_played_moves()
        } else {
            self.best_ratio_moves()
        };
        if candidates.len() == 0 {
            return Err(GameError::NoMovesAvailable);
        }
        let m = choose_move(&candidates);
        proof {
            if by_visits {
                let i = choose|i: int| 0 <= i < self.children@.len() && (#[trigger] self.children@[i]).mov == m && most_visited(*self, i);
                assert(picked(*self, i, m, final_solve, self.is_fully_expanded, by_visits));
            } else {
                let i = choose|i: int| 0 <= i < self.children@.len() && (#[trigger] self.children@[i]).mov == m && best_ratio(*self, i);
                assert(picked(*self, i, m, final_solve, self.is_fully_expanded, by_visits));
            }
            assert(tree_ok(*self));
        }
        let res = Ok(m);
        assert(res->Ok_0 == m);
        res
    }
}

/// A Monte Carlo tree search engine that keeps its tree from one move to the
/// next and picks the child with the best win ratio.
#[derive(Debug)]
pub struct MCTS {
    pub root: Node,
    pub player: Case,
    pub playout_budget: usize,
    pub final_solve: bool,
}

impl MCTS {
    /// The tree is well formed and its counters can still grow.
    pub open spec fn wf(&self) -> bool {
        root_ok(self.root)
    }

    /// An engine for `player`, to move on `board`, running `playout_budget`
    /// rounds per search, with the exact solve near the end when `final_solve`.
    pub fn new(player: Case, final_solve: bool, playout_budget: usize, board: Board) -> (r: MCTS)
        ensures
            r.wf(),
            r.root.state == board,
            r.player == player,
            r.root.children@.len() == 0,
            r.playout_budget == playout_budget,
            r.final_solve == final_solve,
    {
        MCTS { root: Node::root(board), player, playout_budget, final_solve }
    }

    /// The last move recorded on the board, which the opponent played.
    pub fn get_opponents_last_move(&self, board: &Board) -> (r: Option<(usize, usize)>)
        ensures
            board.history.moves@.len() == 0 ==> r.is_none(),
            board.history.moves@.len() > 0 ==> r == Some(board.history.moves@.last()),
    {
        let n = board.history.moves.len();
        if n == 0 {
            None
        } else {
            Some(board.history.moves[n - 1])
        }
    }

    /// The move to play on `board`: brings the tree in step with the
    /// opponent's last move, selects a move by win ratio (or by the exact
    /// solve), and keeps the subtree of that move for the next search.
    /// `score` ranks the children during selection; higher explores first.
    pub fn search<F: Fn(ChildStats) -> u64>(&mut self, board: &Board, score: &F) -> (res: Result<(usize, usize), GameError>)
        requires
            old(self).wf(),
            forall|st: ChildStats| score.requires((st,)),
        ensures
            final(self).wf(),
            final(self).player == old(self).player,
            final(self).playout_budget == old(self).playout_budget,
            final(self).final_solve == old(self).final_solve,
            exists|r: Node, s: Node| #![trigger reconciled(old(self).root, *board, r), selected(r, s, res, old(self).playout_budget as int, old(self).final_solve, false)]
                reconciled(old(self).root, *board, r)
                && selected(r, s, res, old(self).playout_budget as int, old(self).final_solve, false)
                && (res.is_ok() ==> exists|i: int| #[trigger] first_with(s.children@, i, res->Ok_0) && final(self).root == s.children@[i]),
    {
        if let Some(opp_move) = self.get_opponents_last_move(board) {
            self.root.update_with_opponents_move(opp_move, board);
        }
        let ghost r = self.root;
        let res = self.root.select_move(self.playout_budget, self.final_solve, false, score);
        let ghost s = self.root;
        if let Ok(m) = res {
            proof {
                let i = choose|i: int| #[trigger] picked(s, i, m, self.final_solve, s.is_fully_expanded, false);
                assert(s.children@[i].mov == m);
                if !(exists|j: int| #[trigger] first_with(s.children@, j, m)) {
                    assert forall|j: int| 0 <= j <= i implies !(#[trigger] s.children@[j].mov == m) by {
                        if s.children@[j].mov == m {
                            lemma_first_with_exists(s.children@, j, m);
                        }
                    }
                }
            }
            self.root.promote_child(m);
        }
        proof {
            assert(reconciled(old(self).root, *board, r));
        }
        res
    }
}

} // verus!
