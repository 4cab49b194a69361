//! Depth-bounded game trees and their minimax evaluation with alpha-beta pruning.
use vstd::prelude::*;
use crate::board::{
    Board, Case, GameError, count, turn_of, opponent_of, legal_moves, consistent, same_cells,
    lemma_legal_moves_entries, lemma_play_then_reset, lemma_same_cells_eq, lemma_played_consistent,
    lemma_discs_bound,
};
use crate::rules::{Cells, in_bounds, cell_after};
use rayon::iter::{IntoParallelRefIterator, IndexedParallelIterator};

verus! {

/// A node of a game tree: the grid it stands for, the move that led to it,
/// the disc counts (black, white), the number of legal moves, its children
/// (one per legal move, in the order of `available_moves`) once expanded, and
/// the value that the last search gave it.
#[derive(Debug)]
pub struct Tree {
    pub subtree: Option<Vec<Tree>>,
    pub moves: usize,
    pub mov: Option<(usize, usize)>,
    pub score: (usize, usize),
    pub cases: [[Case; 8]; 8],
    pub value: Option<i32>,
}

/// `next` is the grid after the side to move on `cases` plays `m`.
pub open spec fn successor(cases: Cells, m: (usize, usize), next: Cells) -> bool {
    forall|x: int, y: int| in_bounds(x, y) ==> #[trigger] next[x][y] == cell_after(
        cases,
        m.0 as int,
        m.1 as int,
        turn_of(cases),
        x,
        y,
    )
}

/// The counters of a node describe its own grid.
pub open spec fn node_ok(t: Tree) -> bool {
    &&& t.score.0 == count(t.cases, Case::Black)
    &&& t.score.1 == count(t.cases, Case::White)
    &&& t.moves == legal_moves(t.cases, turn_of(t.cases)).len()
}

/// The children of `t`, or none.
pub open spec fn kids(t: Tree) -> Seq<Tree> {
    match t.subtree {
        Some(v) => v@,
        None => seq![],
    }
}

/// The tree is the game tree of its root grid: each node describes its grid,
/// expanded nodes have one child per legal move in order, and every node less
/// than `depth` plies deep that has a legal move is expanded. With `exact`,
/// nodes at `depth` plies or without a move are not expanded.
pub open spec fn shaped(t: Tree, depth: int, exact: bool) -> bool
    decreases t,
{
    let ms = legal_moves(t.cases, turn_of(t.cases));
    &&& node_ok(t)
    &&& depth > 0 && t.moves > 0 ==> t.subtree is Some
    &&& exact ==> (t.subtree is Some <==> depth > 0 && t.moves > 0)
    &&& t.subtree is Some ==> {
        &&& kids(t).len() == ms.len()
        &&& forall|i: int|
            0 <= i < kids(t).len() ==> {
                &&& (#[trigger] kids(t)[i]).mov == Some(ms[i])
                &&& successor(t.cases, ms[i], kids(t)[i].cases)
                &&& shaped(kids(t)[i], depth - 1, exact)
            }
    }
}

/// No node of the tree has a recorded value yet.
pub open spec fn fresh(t: Tree) -> bool
    decreases t,
{
    &&& t.value.is_none()
    &&& forall|i: int| 0 <= i < kids(t).len() ==> fresh(#[trigger] kids(t)[i])
}

/// `b` is `a` grown to `depth` plies: nodes within `depth` plies keep their
/// grid, move, counters and recorded value; an unexpanded one gets the exact
/// game tree of its grid (with no values) to the remaining depth; an expanded
/// one keeps its children, each grown in turn; deeper nodes are unchanged.
pub open spec fn grown_from(a: Tree, b: Tree, depth: int) -> bool
    decreases a,
{
    if depth <= 0 {
        b == a
    } else {
        let ms = legal_moves(a.cases, turn_of(a.cases));
        &&& b.cases == a.cases
        &&& b.mov == a.mov
        &&& b.moves == a.moves
        &&& b.score == a.score
        &&& b.value == a.value
        &&& b.subtree is Some
        &&& if a.subtree is None {
            &&& kids(b).len() == ms.len()
            &&& forall|i: int|
                0 <= i < kids(b).len() ==> {
                    &&& (#[trigger] kids(b)[i]).mov == Some(ms[i])
                    &&& successor(a.cases, ms[i], kids(b)[i].cases)
                    &&& shaped(kids(b)[i], depth - 1, true)
                    &&& fresh(kids(b)[i])
                }
        } else {
            &&& kids(b).len() == kids(a).len()
            &&& forall|i: int| 0 <= i < kids(a).len() ==> grown_from(#[trigger] kids(a)[i], kids(b)[i], depth - 1)
        }
    }
}

impl Tree {
    /// Builds the game tree of `board` down to `depth` plies, trying each
    /// move on the board and undoing it before the next; the board is left as
    /// it was.
    pub fn from_board(board: &mut Board, mov: Option<(usize, usize)>, depth: u8) -> (t: Self)
        requires
            consistent(*old(board)),
        ensures
            shaped(t, depth as int, true),
            t.cases == old(board).cases,
            t.mov == mov,
            t.value.is_none(),
            fresh(t),
            consistent(*final(board)),
            final(board).cases == old(board).cases,
            final(board).history.moves@ == old(board).history.moves@,
            final(board).history.history@ == old(board).history.history@,
        decreases depth,
    {
        let moves = board.available_moves(None);
        let score = board.score();
        if depth == 0 || moves.len() == 0 {
            return Tree { subtree: None, moves: moves.len(), cases: board.cases, score, value: None, mov };
        }
        let ghost b0 = *board;
        let ghost color = turn_of(b0.cases);
        proof {
            lemma_legal_moves_entries(b0.cases, color);
        }
        let mut subtrees: Vec<Tree> = Vec::new();
        let mut i: usize = 0;
        while i < moves.len()
            invariant
                depth > 0,
                i <= moves@.len(),
                consistent(*board),
                board.cases == b0.cases,
                board.history.moves@ == b0.history.moves@,
                board.history.history@ == b0.history.history@,
                color == turn_of(b0.cases),
                moves@ == legal_moves(b0.cases, color),
                forall|k: int| 0 <= k < moves@.len() ==> crate::rules::legal(b0.cases, #[trigger] moves@[k].0 as int, moves@[k].1 as int, color),
                subtrees@.len() == i,
                forall|k: int| 0 <= k < i ==> {
                    &&& (#[trigger] subtrees@[k]).mov == Some(moves@[k])
                    &&& successor(b0.cases, moves@[k], subtrees@[k].cases)
                    &&& shaped(subtrees@[k], depth - 1, true)
                    &&& fresh(subtrees@[k])
                },
            decreases moves@.len() - i,
        {
            let m = moves[i];
            let ghost before = *board;
            let res = board.play_move(&m);
            let ghost moved = *board;
            proof {
                lemma_played_consistent(before, m, moved);
            }
            let child = Tree::from_board(board, Some(m), depth - 1);
            board.reset(1);
            proof {
                lemma_play_then_reset(before, m, moved, *board);
                lemma_same_cells_eq(board.cases, before.cases);
            }
            subtrees.push(child);
            i = i + 1;
        }
        let t = Tree {
            subtree: Some(subtrees),
            moves: moves.len(),
            score,
            cases: board.cases,
            value: None,
            mov,
        };
        proof {
            assert(kids(t) == subtrees@);
        }
        t
    }
}

/// How far `k` stands from the edge: 0 on the edge, 1 next to it, 2 inside.
pub open spec fn ring(k: int) -> int {
    if k == 0 || k == 7 {
        0
    } else if k == 1 || k == 6 {
        1
    } else {
        2
    }
}

/// The positional weight of a cell: corners are worth most, edges are good,
/// and the cells that give access to a corner are bad.
pub open spec fn weight(i: int, j: int) -> int {
    let a = ring(i);
    let b = ring(j);
    if a == 0 && b == 0 {
        256
    } else if (a == 0 && b == 1) || (a == 1 && b == 0) || (a == 1 && b == 1) {
        -8
    } else if (a == 0 && b == 2) || (a == 2 && b == 0) {
        16
    } else if (a == 1 && b == 2) || (a == 2 && b == 1) {
        -4
    } else {
        0
    }
}

/// The weight of cell (i, j) of the positional table.
pub fn placement_score(i: usize, j: usize) -> (w: isize)
    requires
        i < 8,
        j < 8,
    ensures
        w == weight(i as int, j as int),
{
    let a: usize = if i == 0 || i == 7 {
        0
    } else if i == 1 || i == 6 {
        1
    } else {
        2
    };
    let b: usize = if j == 0 || j == 7 {
        0
    } else if j == 1 || j == 6 {
        1
    } else {
        2
    };
    if a == 0 && b == 0 {
        256
    } else if (a == 0 && b == 1) || (a == 1 && b == 0) || (a == 1 && b == 1) {
        -8
    } else if (a == 0 && b == 2) || (a == 2 && b == 0) {
        16
    } else if (a == 1 && b == 2) || (a == 2 && b == 1) {
        -4
    } else {
        0
    }
}

/// The summed weights of the cells of `color` among the first `j` of row `i`.
pub open spec fn weight_row(row: [Case; 8], i: int, color: Case, j: int) -> int
    decreases j,
{
    if j <= 0 {
        0
    } else {
        weight_row(row, i, color, j - 1) + if row[j - 1] == color {
            weight(i, j - 1)
        } else {
            0
        }
    }
}

/// The summed weights of the cells of `color` among the first `i` rows.
pub open spec fn weight_rows(b: Cells, color: Case, i: int) -> int
    decreases i,
{
    if i <= 0 {
        0
    } else {
        weight_rows(b, color, i - 1) + weight_row(b[i - 1], i - 1, color, 8)
    }
}

/// The positional value of the discs of `color`.
pub open spec fn placement(b: Cells, color: Case) -> int {
    weight_rows(b, color, 8)
}

/// The positional values of the grid, (white, black).
pub fn matrix_eval(cases: &[[Case; 8]; 8]) -> (res: (isize, isize))
    ensures
        res.0 == placement(*cases, Case::White),
        res.1 == placement(*cases, Case::Black),
        -512 <= res.0 <= 16384,
        -512 <= res.1 <= 16384,
{
    let mut white: isize = 0;
    let mut black: isize = 0;
    let mut i: usize = 0;
    while i < 8
        invariant
            i <= 8,
            white == weight_rows(*cases, Case::White, i as int),
            black == weight_rows(*cases, Case::Black, i as int),
            -64 * i <= white <= 2048 * i,
            -64 * i <= black <= 2048 * i,
        decreases 8 - i,
    {
        let mut j: usize = 0;
        while j < 8
            invariant
                i < 8,
                j <= 8,
                white == weight_rows(*cases, Case::White, i as int) + weight_row(cases[i as int], i as int, Case::White, j as int),
                black == weight_rows(*cases, Case::Black, i as int) + weight_row(cases[i as int], i as int, Case::Black, j as int),
                -64 * i - 8 * j <= white <= 2048 * i + 256 * j,
                -64 * i - 8 * j <= black <= 2048 * i + 256 * j,
            decreases 8 - j,
        {
            if cases[i][j] == Case::White {
                white = white + placement_score(i, j);
            } else if cases[i][j] == Case::Black {
                black = black + placement_score(i, j);
            }
            j = j + 1;
        }
        i = i + 1;
    }
    (white, black)
}

/// 2 to the power `p`, for the phases of a game.
pub open spec fn phase_factor(p: int) -> int
    decreases p,
{
    if p <= 0 {
        1
    } else {
        2 * phase_factor(p - 1)
    }
}

/// The sign of `x`: -1, 0 or 1.
pub open spec fn sign(x: int) -> int {
    if x > 0 {
        1
    } else if x < 0 {
        -1
    } else {
        0
    }
}

/// The disc balance of the node in favour of `color`.
pub open spec fn balance(t: Tree, color: Case) -> int {
    if color == Case::Black {
        t.score.0 - t.score.1
    } else {
        t.score.1 - t.score.0
    }
}

/// The static value of a node for `color`: at a node without moves, a large
/// reward of the sign of the disc balance plus the balance; elsewhere the
/// balance weighted by the phase of the game (one phase per 16 discs) plus the
/// positional difference.
pub open spec fn eval(t: Tree, color: Case) -> int {
    let bal = balance(t, color);
    if t.moves == 0 {
        10000 * sign(bal) + bal
    } else {
        bal * phase_factor((t.score.0 + t.score.1) / 16) + if color == Case::Black {
            placement(t.cases, Case::Black) - placement(t.cases, Case::White)
        } else {
            placement(t.cases, Case::White) - placement(t.cases, Case::Black)
        }
    }
}

/// The static evaluation of a node from the point of view of `color`.
pub fn evaluate(tree: &Tree, color: Case) -> (v: i32)
    requires
        tree.score.0 <= 64,
        tree.score.1 <= 64,
    ensures
        v == eval(*tree, color),
        -20000 <= v <= 20000,
{
    let score = tree.score;
    let filled = score.0 + score.1;
    let balance: i32 = if color == Case::Black {
        score.0 as i32 - score.1 as i32
    } else {
        score.1 as i32 - score.0 as i32
    };
    if tree.moves == 0 {
        let reward: i32 = if balance > 0 {
            10000
        } else if balance < 0 {
            -10000
        } else {
            0
        };
        reward + balance
    } else {
        let phase = filled / 16;
        // the disc balance counts twice as much in each later phase
        let factor: i32 = if phase == 0 {
            1
        } else if phase == 1 {
            2
        } else if phase == 2 {
            4
        } else if phase == 3 {
            8
        } else if phase == 4 {
            16
        } else if phase == 5 {
            32
        } else if phase == 6 {
            64
        } else if phase == 7 {
            128
        } else {
            256
        };
        proof {
            assert(phase_factor(0) == 1);
            assert(phase_factor(1) == 2);
            assert(phase_factor(2) == 4);
            assert(phase_factor(3) == 8);
            assert(phase_factor(4) == 16);
            assert(phase_factor(5) == 32);
            assert(phase_factor(6) == 64);
            assert(phase_factor(7) == 128);
            assert(phase_factor(8) == 256);
            assert(-64 * 256 <= balance * factor <= 64 * 256) by (nonlinear_arith)
                requires
                    -64 <= balance <= 64,
                    1 <= factor <= 256,
            ;
        }
        let mut result: i32 = balance * factor;
        let matrix = matrix_eval(&tree.cases);
        result = result + if color == Case::Black {
            matrix.1 as i32 - matrix.0 as i32
        } else {
            matrix.0 as i32 - matrix.1 as i32
        };
        result
    }
}

/// A node whose value is static: it has no legal move or has not been expanded.
pub open spec fn is_leaf(t: Tree) -> bool {
    t.moves == 0 || t.subtree is None
}

/// The minimax value for `maxc` of `t`, where `cur` is to move, taken over
/// the first `n` children only: `maxc` maximizes and the opponent minimizes;
/// a leaf has its static value.
pub open spec fn mm_upto(t: Tree, maxc: Case, cur: Case, n: int) -> int
    decreases t, n,
{
    if is_leaf(t) {
        eval(t, maxc)
    } else if n <= 0 {
        if cur == maxc {
            i32::MIN as int
        } else {
            i32::MAX as int
        }
    } else if n > kids(t).len() {
        mm_upto(t, maxc, cur, kids(t).len() as int)
    } else {
        let prev = mm_upto(t, maxc, cur, n - 1);
        let kid = kids(t)[n - 1];
        let v = mm_upto(kid, maxc, opponent_of(cur), kids(kid).len() as int);
        if cur == maxc {
            if v > prev {
                v
            } else {
                prev
            }
        } else {
            if v < prev {
                v
            } else {
                prev
            }
        }
    }
}

/// The minimax value of `t` for `maxc`, where `cur` is to move.
pub open spec fn mm(t: Tree, maxc: Case, cur: Case) -> int {
    mm_upto(t, maxc, cur, kids(t).len() as int)
}

/// What alpha-beta search promises of a value `f` found in the window
/// (alpha, beta) for a node of minimax value `v`: exact inside the window, a
/// bound on the side where it fell out.
pub open spec fn window(f: int, alpha: int, beta: int, v: int) -> bool {
    &&& f <= alpha ==> v <= f
    &&& f >= beta ==> v >= f
    &&& alpha < f < beta ==> v == f
}

/// The two trees differ at most in the values recorded by a search.
pub open spec fn same_shape(a: Tree, b: Tree) -> bool
    decreases a,
{
    &&& a.moves == b.moves
    &&& a.mov == b.mov
    &&& a.score == b.score
    &&& a.cases == b.cases
    &&& (a.subtree is Some <==> b.subtree is Some)
    &&& kids(a).len() == kids(b).len()
    &&& forall|i: int| 0 <= i < kids(a).len() ==> same_shape(#[trigger] kids(a)[i], kids(b)[i])
}

/// `j` is the first child of `t` whose minimax value is that of `t`.
pub open spec fn first_best(t: Tree, color: Case, j: int) -> bool {
    &&& 0 <= j < kids(t).len()
    &&& mm(kids(t)[j], color, opponent_of(color)) == mm(t, color, color)
    &&& forall|l: int| 0 <= l < j ==> mm(#[trigger] kids(t)[l], color, opponent_of(color)) != mm(t, color, color)
}

/// Every tree has its own shape.
pub proof fn lemma_same_shape_refl(a: Tree)
    ensures
        same_shape(a, a),
    decreases a,
{
    assert forall|i: int| 0 <= i < kids(a).len() implies same_shape(#[trigger] kids(a)[i], kids(a)[i]) by {
        lemma_same_shape_refl(kids(a)[i]);
    }
}

/// Recorded values do not matter to the shape of a game tree.
pub proof fn lemma_same_shape_shaped(a: Tree, b: Tree, depth: int, exact: bool)
    requires
        same_shape(a, b),
        shaped(a, depth, exact),
    ensures
        shaped(b, depth, exact),
    decreases a,
{
    let ms = legal_moves(b.cases, turn_of(b.cases));
    assert forall|i: int| 0 <= i < kids(b).len() implies {
        &&& (#[trigger] kids(b)[i]).mov == Some(ms[i])
        &&& successor(b.cases, ms[i], kids(b)[i].cases)
        &&& shaped(kids(b)[i], depth - 1, exact)
    } by {
        assert(same_shape(kids(a)[i], kids(b)[i]));
        lemma_same_shape_shaped(kids(a)[i], kids(b)[i], depth - 1, exact);
    }
}

/// Minimax values do not depend on the values recorded by earlier searches.
pub proof fn lemma_same_shape_mm(a: Tree, b: Tree, maxc: Case, cur: Case, n: int)
    requires
        same_shape(a, b),
    ensures
        mm_upto(a, maxc, cur, n) == mm_upto(b, maxc, cur, n),
    decreases a, n,
{
    if !is_leaf(a) && n > 0 {
        if n > kids(a).len() {
            lemma_same_shape_mm(a, b, maxc, cur, kids(a).len() as int);
        } else {
            lemma_same_shape_mm(a, b, maxc, cur, n - 1);
            let ka = kids(a)[n - 1];
            let kb = kids(b)[n - 1];
            assert(same_shape(ka, kb));
            lemma_same_shape_mm(ka, kb, maxc, opponent_of(cur), kids(ka).len() as int);
        }
    }
}

/// Minimax values lie in the range of `i32`.
pub proof fn lemma_mm_bounds(t: Tree, maxc: Case, cur: Case, n: int)
    requires
        shaped(t, 0, false),
    ensures
        i32::MIN <= mm_upto(t, maxc, cur, n) <= i32::MAX,
    decreases t, n,
{
    if is_leaf(t) {
        lemma_discs_bound(t.cases);
        assert(-64 <= balance(t, maxc) <= 64);
        assert(phase_factor(0) == 1);
        assert(phase_factor(1) == 2);
        assert(phase_factor(2) == 4);
        assert(phase_factor(3) == 8);
        assert(phase_factor(4) == 16);
        lemma_placement_bounds(t.cases, Case::Black, 8);
        lemma_placement_bounds(t.cases, Case::White, 8);
        let p = (t.score.0 + t.score.1) / 16;
        assert(0 <= p <= 4);
        let bal = balance(t, maxc);
        let f = phase_factor(p);
        assert(-1024 <= bal * f <= 1024) by (nonlinear_arith)
            requires
                -64 <= bal <= 64,
                1 <= f <= 16,
        ;
    } else if n > 0 {
        if n > kids(t).len() {
            lemma_mm_bounds(t, maxc, cur, kids(t).len() as int);
        } else {
            lemma_mm_bounds(t, maxc, cur, n - 1);
            let kid = kids(t)[n - 1];
            lemma_shaped_weaken(kid, -1, 0);
            lemma_mm_bounds(kid, maxc, opponent_of(cur), kids(kid).len() as int);
        }
    }
}

proof fn lemma_placement_row_bounds(row: [Case; 8], i: int, color: Case, j: int)
    requires
        0 <= j <= 8,
    ensures
        -8 * j <= weight_row(row, i, color, j) <= 256 * j,
    decreases j,
{
    if j > 0 {
        lemma_placement_row_bounds(row, i, color, j - 1);
    }
}

proof fn lemma_placement_bounds(b: Cells, color: Case, i: int)
    requires
        0 <= i <= 8,
    ensures
        -64 * i <= weight_rows(b, color, i) <= 2048 * i,
    decreases i,
{
    if i > 0 {
        lemma_placement_bounds(b, color, i - 1);
        lemma_placement_row_bounds(b[i - 1], i - 1, color, 8);
    }
}

/// Over more children a maximizing node is worth at least as much, a
/// minimizing node at most as much.
proof fn lemma_mm_monotone(t: Tree, maxc: Case, cur: Case, n: int, m: int)
    requires
        !is_leaf(t),
        0 <= n <= m <= kids(t).len(),
    ensures
        cur == maxc ==> mm_upto(t, maxc, cur, n) <= mm_upto(t, maxc, cur, m),
        cur != maxc ==> mm_upto(t, maxc, cur, n) >= mm_upto(t, maxc, cur, m),
    decreases m - n,
{
    if n < m {
        lemma_mm_monotone(t, maxc, cur, n, m - 1);
    }
}

/// Alpha-beta search over the tree: records in each visited node the value
/// it found and returns the value of the root within the window (alpha, beta).
pub fn minimax_rec(tree: &mut Tree, max_color: Case, current_color: Case, alpha: i32, beta: i32) -> (f: i32)
    requires
        alpha < beta,
        shaped(*old(tree), 0, false),
    ensures
        window(f as int, alpha as int, beta as int, mm(*old(tree), max_color, current_color)),
        final(tree).value == Some(f),
        same_shape(*old(tree), *final(tree)),
        !is_leaf(*old(tree)) ==> exists|j: int| 0 <= j < kids(*final(tree)).len() && (#[trigger] kids(*final(tree))[j]).value == Some(f),
    decreases *old(tree),
{
    if tree.moves == 0 || tree.subtree.is_none() {
        proof {
            lemma_discs_bound(tree.cases);
        }
        let val = evaluate(tree, max_color);
        tree.value = Some(val);
        proof {
            lemma_same_shape_refl(*tree);
        }
        return val;
    }
    let ghost t0 = *tree;
    let ghost old_kids = kids(t0);
    let mut children = match tree.subtree.take() {
        Some(v) => v,
        None => Vec::new(),
    };
    let maximizing = max_color == current_color;
    let mut alpha = alpha;
    let mut beta = beta;
    let ghost alpha0 = alpha as int;
    let ghost beta0 = beta as int;
    let mut best: i32 = if maximizing {
        i32::MIN
    } else {
        i32::MAX
    };
    let next_color = current_color.opponent();
    let mut i: usize = 0;
    let ghost mut broke = false;
    let ghost mut wit: int = 0;
    proof {
        lemma_shaped_nonempty(t0);
    }
    while i < children.len()
        invariant_except_break
            !broke,
            maximizing ==> best < beta0,
            !maximizing ==> best > alpha0,
            maximizing ==> mm_upto(t0, max_color, current_color, i as int) <= best,
            maximizing ==> (best > alpha0 ==> mm_upto(t0, max_color, current_color, i as int) == best),
            !maximizing ==> mm_upto(t0, max_color, current_color, i as int) >= best,
            !maximizing ==> (best < beta0 ==> mm_upto(t0, max_color, current_color, i as int) == best),
        invariant
            t0 == *old(tree),
            !is_leaf(t0),
            alpha0 < beta0,
            shaped(t0, 0, false),
            old_kids == kids(t0),
            children@.len() == old_kids.len(),
            i <= children@.len(),
            maximizing == (max_color == current_color),
            next_color == opponent_of(current_color),
            forall|k: int| 0 <= k < i ==> same_shape(old_kids[k], #[trigger] children@[k]),
            forall|k: int| i <= k < children@.len() ==> old_kids[k] == #[trigger] children@[k],
            maximizing ==> alpha == (if best > alpha0 { best as int } else { alpha0 }) && beta == beta0,
            !maximizing ==> beta == (if best < beta0 { best as int } else { beta0 }) && alpha == alpha0,
            maximizing && broke ==> best >= beta0 && mm(t0, max_color, current_color) >= best,
            !maximizing && broke ==> best <= alpha0 && mm(t0, max_color, current_color) <= best,
            old_kids.len() > 0,
            i > 0 ==> 0 <= wit < i && children@[wit].value == Some(best),
            i == 0 ==> best == (if maximizing { i32::MIN } else { i32::MAX }),
        ensures
            !broke ==> i == children@.len(),
            !broke && maximizing ==> best < beta0 && mm_upto(t0, max_color, current_color, i as int) <= best
                && (best > alpha0 ==> mm_upto(t0, max_color, current_color, i as int) == best),
            !broke && !maximizing ==> best > alpha0 && mm_upto(t0, max_color, current_color, i as int) >= best
                && (best < beta0 ==> mm_upto(t0, max_color, current_color, i as int) == best),
        decreases children@.len() - i,
    {
        let ghost kid = old_kids[i as int];
        proof {
            assert(shaped(kid, -1, false));
            lemma_shaped_weaken(kid, -1, 0);
            assert(t0.subtree->0@[i as int] == kid);
            assert(decreases_to!(t0 => kid));
            assert(children@[i as int] == kid);
        }
        let ghost best_before = best;
        let val = minimax_rec(&mut children[i], max_color, next_color, alpha, beta);
        proof {
            if i == 0 || (maximizing && val > best_before) || (!maximizing && val < best_before) {
                wit = i as int;
            }
            assert(mm_upto(t0, max_color, current_color, i + 1) == {
                let prev = mm_upto(t0, max_color, current_color, i as int);
                let v = mm(kid, max_color, next_color);
                if maximizing {
                    if v > prev { v } else { prev }
                } else {
                    if v < prev { v } else { prev }
                }
            });
        }
        if maximizing {
            if val > best {
                best = val;
            }
            if val > alpha {
                alpha = val;
            }
            if best >= beta {
                proof {
                    lemma_mm_monotone(t0, max_color, current_color, i + 1, old_kids.len() as int);
                    broke = true;
                }
                i = i + 1;
                break;
            }
        } else {
            if val < best {
                best = val;
            }
            if val < beta {
                beta = val;
            }
            if best <= alpha {
                proof {
                    lemma_mm_monotone(t0, max_color, current_color, i + 1, old_kids.len() as int);
                    broke = true;
                }
                i = i + 1;
                break;
            }
        }
        i = i + 1;
    }
    proof {
        assert forall|k: int| 0 <= k < children@.len() implies same_shape(old_kids[k], #[trigger] children@[k]) by {
            if k >= i {
                lemma_same_shape_refl(old_kids[k]);
            }
        }
    }
    proof {
        if !broke {
            assert(i == old_kids.len());
        }
        assert(window(best as int, alpha0, beta0, mm(t0, max_color, current_color)));
    }
    tree.subtree = Some(children);
    tree.value = Some(best);
    proof {
        assert(kids(*tree) == children@);
        assert(kids(t0) == old_kids);
        assert(kids(*tree)[wit].value == Some(best));
    }
    best
}

/// A tree expanded to some depth is expanded to any smaller one.
pub proof fn lemma_shaped_weaken(t: Tree, d1: int, d2: int)
    requires
        shaped(t, d1, false),
        d2 <= d1 || d2 <= 0,
    ensures
        shaped(t, d2, false),
    decreases t,
{
    assert forall|i: int| 0 <= i < kids(t).len() implies shaped(#[trigger] kids(t)[i], d2 - 1, false) by {
        lemma_shaped_weaken(kids(t)[i], d1 - 1, d2 - 1);
    }
}

/// An exactly built tree is also built to at least its depth.
pub proof fn lemma_shaped_loose(t: Tree, depth: int)
    requires
        shaped(t, depth, true),
    ensures
        shaped(t, depth, false),
    decreases t,
{
    assert forall|i: int| 0 <= i < kids(t).len() implies shaped(#[trigger] kids(t)[i], depth - 1, false) by {
        lemma_shaped_loose(kids(t)[i], depth - 1);
    }
}

/// Equal minimax values of the children make the same first best child.
pub proof fn lemma_minimax_deterministic(t1: Tree, t2: Tree, color: Case, j1: int, j2: int)
    requires
        same_shape(t1, t2),
        first_best(t1, color, j1),
        first_best(t2, color, j2),
    ensures
        j1 == j2,
        kids(t1)[j1].mov == kids(t2)[j2].mov,
{
    lemma_same_shape_mm(t1, t2, color, color, kids(t1).len() as int);
    assert forall|l: int| 0 <= l < kids(t1).len() implies mm(#[trigger] kids(t1)[l], color, opponent_of(color)) == mm(kids(t2)[l], color, opponent_of(color)) by {
        assert(same_shape(kids(t1)[l], kids(t2)[l]));
        lemma_same_shape_mm(kids(t1)[l], kids(t2)[l], color, opponent_of(color), kids(kids(t1)[l]).len() as int);
    }
    if j1 < j2 {
        assert(mm(kids(t2)[j1], color, opponent_of(color)) != mm(t2, color, color));
    }
    if j2 < j1 {
        assert(mm(kids(t1)[j2], color, opponent_of(color)) != mm(t1, color, color));
    }
    assert(same_shape(kids(t1)[j1], kids(t2)[j1]));
}

/// Alpha-beta search from the root for `color`, who moves there: returns the
/// root's value and the first child that reaches it.
fn search_root(tree: &mut Tree, color: Case) -> (res: (i32, usize))
    requires
        shaped(*old(tree), 0, false),
        !is_leaf(*old(tree)),
    ensures
        res.0 == mm(*old(tree), color, color),
        first_best(*old(tree), color, res.1 as int),
        same_shape(*old(tree), *final(tree)),
        final(tree).value == Some(res.0),
        kids(*final(tree))[res.1 as int].value == Some(res.0),
{
    let ghost t0 = *tree;
    let ghost old_kids = kids(t0);
    let mut children = match tree.subtree.take() {
        Some(v) => v,
        None => Vec::new(),
    };
    let opp = color.opponent();
    let mut best: i32 = i32::MIN;
    let mut chosen: usize = 0;
    let mut i: usize = 0;
    let ghost mut broke = false;
    while i < children.len()
        invariant_except_break
            !broke,
            best < i32::MAX,
        invariant
            t0 == *old(tree),
            !is_leaf(t0),
            shaped(t0, 0, false),
            old_kids == kids(t0),
            children@.len() == old_kids.len(),
            i <= children@.len(),
            opp == opponent_of(color),
            forall|k: int| 0 <= k < i ==> same_shape(old_kids[k], #[trigger] children@[k]),
            forall|k: int| i <= k < children@.len() ==> old_kids[k] == #[trigger] children@[k],
            mm_upto(t0, color, color, i as int) == best,
            i > 0 ==> chosen < i && mm(old_kids[chosen as int], color, opp) == best,
            i > 0 ==> children@[chosen as int].value == Some(best),
            forall|l: int| 0 <= l < chosen ==> mm(#[trigger] old_kids[l], color, opp) < best,
            forall|l: int| 0 <= l < i ==> mm(#[trigger] old_kids[l], color, opp) <= best,
            broke ==> best == i32::MAX && i > 0,
        ensures
            !broke ==> i == children@.len(),
        decreases children@.len() - i,
    {
        let ghost kid = old_kids[i as int];
        proof {
            assert(shaped(kid, -1, false));
            lemma_shaped_weaken(kid, -1, 0);
            lemma_mm_bounds(kid, color, opp, kids(kid).len() as int);
            assert(mm_upto(t0, color, color, i + 1) == {
                let prev = mm_upto(t0, color, color, i as int);
                let v = mm(kid, color, opp);
                if v > prev { v } else { prev }
            });
        }
        let val = minimax_rec(&mut children[i], color, opp, best, i32::MAX);
        if val > best {
            best = val;
            chosen = i;
        }
        i = i + 1;
        if best == i32::MAX {
            proof {
                broke = true;
            }
            break;
        }
    }
    proof {
        if broke {
            lemma_mm_monotone(t0, color, color, i as int, old_kids.len() as int);
            lemma_mm_bounds(t0, color, color, old_kids.len() as int);
        }
        assert forall|k: int| 0 <= k < children@.len() implies same_shape(old_kids[k], #[trigger] children@[k]) by {
            if k >= i {
                lemma_same_shape_refl(old_kids[k]);
            }
        }
    }
    tree.subtree = Some(children);
    tree.value = Some(best);
    proof {
        assert(kids(*tree) == children@);
    }
    (best, chosen)
}

/// Runs alpha-beta search for `color`, who moves at the root, and returns a
/// copy of the first child whose minimax value is the root's (a copy of the
/// root itself when it is a leaf). The values found are recorded in the tree.
pub fn minimax(tree: &mut Tree, color: Case) -> (r: Tree)
    requires
        shaped(*old(tree), 0, false),
    ensures
        same_shape(*old(tree), *final(tree)),
        is_leaf(*old(tree)) ==> r.mov == old(tree).mov && r.value == Some(eval(*old(tree), color) as i32),
        !is_leaf(*old(tree)) ==> exists|j: int| first_best(*old(tree), color, j) && #[trigger] kids(*old(tree))[j].mov == r.mov,
        !is_leaf(*old(tree)) ==> r.value == Some(mm(*old(tree), color, color) as i32),
        is_leaf(*old(tree)) ==> final(tree).value == Some(eval(*old(tree), color) as i32),
        !is_leaf(*old(tree)) ==> final(tree).value == Some(mm(*old(tree), color, color) as i32),
{
    if tree.moves == 0 || tree.subtree.is_none() {
        proof {
            lemma_discs_bound(tree.cases);
        }
        let val = evaluate(tree, color);
        tree.value = Some(val);
        proof {
            lemma_same_shape_refl(*tree);
        }
        return tree.duplicate();
    }
    let ghost t0 = *tree;
    let (best, chosen) = search_root(tree, color);
    let ghost t1 = *tree;
    let r = match &tree.subtree {
        Some(children) => {
            proof {
                assert(same_shape(kids(t0)[chosen as int], kids(t1)[chosen as int]));
            }
            children[chosen].duplicate()
        },
        None => tree.duplicate(),
    };
    proof {
        lemma_mm_bounds(t0, color, color, kids(t0).len() as int);
    }
    r
}

impl Tree {
    /// A copy of the tree, recorded values included.
    pub fn duplicate(&self) -> (r: Tree)
        ensures
            same_shape(*self, r),
            r.value == self.value,
        decreases self,
    {
        let subtree = match &self.subtree {
            Some(v) => {
                let mut w: Vec<Tree> = Vec::new();
                let mut i: usize = 0;
                while i < v.len()
                    invariant
                        self.subtree == Some(*v),
                        i <= v@.len(),
                        w@.len() == i,
                        forall|k: int| 0 <= k < i ==> same_shape(v@[k], #[trigger] w@[k]),
                    decreases v@.len() - i,
                {
                    proof {
                        assert(self.subtree->0@[i as int] == v@[i as int]);
                        assert(decreases_to!(*self => self.subtree->0@[i as int]));
                    }
                    let c = v[i].duplicate();
                    w.push(c);
                    i = i + 1;
                }
                Some(w)
            },
            None => None,
        };
        let r = Tree {
            subtree,
            moves: self.moves,
            mov: self.mov,
            score: self.score,
            cases: self.cases,
            value: self.value,
        };
        proof {
            assert(forall|k: int| 0 <= k < kids(*self).len() ==> same_shape(#[trigger] kids(*self)[k], kids(r)[k]));
        }
        r
    }
}

impl Tree {
    /// Grows the tree so that every node less than `depth` plies below the
    /// root that has a legal move is expanded; moves are tried on `board`,
    /// which stands for the root, and undone.
    pub fn expand_tree(&mut self, board: &mut Board, depth: u8)
        requires
            consistent(*old(board)),
            old(board).cases == old(self).cases,
            shaped(*old(self), 0, false),
        ensures
            shaped(*final(self), depth as int, false),
            grown_from(*old(self), *final(self), depth as int),
            final(self).cases == old(self).cases,
            final(self).mov == old(self).mov,
            consistent(*final(board)),
            final(board).cases == old(board).cases,
            final(board).history.moves@ == old(board).history.moves@,
            final(board).history.history@ == old(board).history.history@,
        decreases depth,
    {
        if depth == 0 {
            return;
        }
        let ghost b0 = *board;
        let ghost color = turn_of(b0.cases);
        let ghost t0 = *self;
        let ghost ms = legal_moves(b0.cases, color);
        proof {
            lemma_legal_moves_entries(b0.cases, color);
        }
        if self.subtree.is_none() {
            let moves = board.available_moves(None);
            let mut subtree: Vec<Tree> = Vec::new();
            let mut i: usize = 0;
            while i < moves.len()
                invariant
                    depth > 0,
                    i <= moves@.len(),
                    consistent(*board),
                    board.cases == b0.cases,
                    board.history.moves@ == b0.history.moves@,
                    board.history.history@ == b0.history.history@,
                    color == turn_of(b0.cases),
                    moves@ == ms,
                    ms == legal_moves(b0.cases, color),
                    forall|k: int| 0 <= k < ms.len() ==> crate::rules::legal(b0.cases, #[trigger] ms[k].0 as int, ms[k].1 as int, color),
                    subtree@.len() == i,
                    forall|k: int| 0 <= k < i ==> {
                        &&& (#[trigger] subtree@[k]).mov == Some(ms[k])
                        &&& successor(b0.cases, ms[k], subtree@[k].cases)
                        &&& shaped(subtree@[k], depth - 1, false)
                        &&& shaped(subtree@[k], depth - 1, true)
                        &&& fresh(subtree@[k])
                    },
                    self.subtree is None,
                    *self == t0,
                decreases moves@.len() - i,
            {
                let m = moves[i];
                let ghost before = *board;
                let _ = board.play_move(&m);
                let ghost moved = *board;
                proof {
                    lemma_played_consistent(before, m, moved);
                }
                let child = Tree::from_board(board, Some(m), depth - 1);
                board.reset(1);
                proof {
                    lemma_play_then_reset(before, m, moved, *board);
                    lemma_same_cells_eq(board.cases, before.cases);
                    lemma_shaped_loose(child, depth - 1);
                }
                subtree.push(child);
                i = i + 1;
            }
            self.subtree = Some(subtree);
            proof {
                assert(kids(*self) == subtree@);
            }
        } else {
            let mut children = match self.subtree.take() {
                Some(v) => v,
                None => Vec::new(),
            };
            let mut i: usize = 0;
            while i < children.len()
                invariant
                    depth > 0,
                    t0.subtree is Some,
                    shaped(t0, 0, false),
                    t0.cases == b0.cases,
                    self.cases == t0.cases && self.mov == t0.mov && self.score == t0.score && self.moves == t0.moves,
                    self.subtree is None,
                    children@.len() == kids(t0).len(),
                    i <= children@.len(),
                    consistent(*board),
                    board.cases == b0.cases,
                    board.history.moves@ == b0.history.moves@,
                    board.history.history@ == b0.history.history@,
                    color == turn_of(b0.cases),
                    ms == legal_moves(b0.cases, color),
                    forall|k: int| 0 <= k < ms.len() ==> crate::rules::legal(b0.cases, #[trigger] ms[k].0 as int, ms[k].1 as int, color),
                    forall|k: int| 0 <= k < i ==> {
                        &&& (#[trigger] children@[k]).mov == Some(ms[k])
                        &&& successor(b0.cases, ms[k], children@[k].cases)
                        &&& shaped(children@[k], depth - 1, false)
                        &&& grown_from(kids(t0)[k], children@[k], depth - 1)
                    },
                    self.value == t0.value,
                    forall|k: int| i <= k < children@.len() ==> #[trigger] children@[k] == kids(t0)[k],
                decreases children@.len() - i,
            {
                let ghost kid = kids(t0)[i as int];
                let ghost m0 = ms[i as int];
                proof {
                    assert(kid.mov == Some(m0));
                    assert(shaped(kid, -1, false));
                    lemma_shaped_weaken(kid, -1, 0);
                }
                let m = match children[i].mov {
                    Some(m) => m,
                    None => (0, 0),
                };
                let ghost before = *board;
                let _ = board.play_move(&m);
                let ghost moved = *board;
                proof {
                    lemma_played_consistent(before, m, moved);
                    assert(same_cells(moved.cases, kid.cases));
                    lemma_same_cells_eq(moved.cases, kid.cases);
                }
                children[i].expand_tree(board, depth - 1);
                board.reset(1);
                proof {
                    lemma_play_then_reset(before, m, moved, *board);
                    lemma_same_cells_eq(board.cases, before.cases);
                }
                i = i + 1;
            }
            self.subtree = Some(children);
            proof {
                assert(kids(*self) == children@);
            }
        }
    }

    /// Expands the tree to `depth` plies on a copy of `board` (see
    /// `grown_from`), picks by alpha-beta search the first best move for
    /// `color`, who moves at the root, and keeps only the subtree of that move. Fails when the expanded
    /// root has no child.
    pub fn best_move(&mut self, color: Case, board: &Board, depth: u8) -> (res: Result<(usize, usize), GameError>)
        requires
            consistent(*board),
            board.cases == old(self).cases,
            shaped(*old(self), 0, false),
        ensures
            depth > 0 ==> (res.is_err() <==> legal_moves(board.cases, turn_of(board.cases)).len() == 0),
            res.is_err() ==> res == Err::<(usize, usize), GameError>(GameError::NoMovesAvailable),
            res.is_ok() ==> {
                let m = res->Ok_0;
                &&& crate::rules::legal(board.cases, m.0 as int, m.1 as int, turn_of(board.cases))
                &&& final(self).mov == Some(m)
                &&& successor(board.cases, m, final(self).cases)
                &&& shaped(*final(self), depth - 1, false)
                &&& exists|e: Tree, j: int| #![trigger first_best(e, color, j)]
                    grown_from(*old(self), e, depth as int) && first_best(e, color, j) && kids(e)[j].mov == Some(m)
                        && same_shape(kids(e)[j], *final(self))
            },
    {
        let mut b = board.duplicate();
        self.expand_tree(&mut b, depth);
        let ghost e = *self;
        proof {
            lemma_shaped_weaken(e, depth as int, 0);
            lemma_legal_moves_entries(board.cases, turn_of(board.cases));
        }
        if self.moves == 0 || self.subtree.is_none() {
            return Err(GameError::NoMovesAvailable);
        }
        let (_best, chosen) = search_root(self, color);
        let ghost t1 = *self;
        let mut children = match self.subtree.take() {
            Some(v) => v,
            None => Vec::new(),
        };
        let child = children.remove(chosen);
        let m = match child.mov {
            Some(m) => m,
            None => (0, 0),
        };
        proof {
            let ms = legal_moves(e.cases, turn_of(e.cases));
            assert(same_shape(kids(e)[chosen as int], kids(t1)[chosen as int]));
            assert(kids(e)[chosen as int].mov == Some(ms[chosen as int]));
            assert(shaped(kids(e)[chosen as int], depth - 1, false));
            lemma_same_shape_shaped(kids(e)[chosen as int], child, depth - 1, false);
            assert(first_best(e, color, chosen as int));
        }
        *self = child;
        Ok(m)
    }
}

/// An expanded node of a well-formed tree has a child per legal move.
proof fn lemma_shaped_nonempty(t: Tree)
    requires
        shaped(t, 0, false),
        !is_leaf(t),
    ensures
        kids(t).len() == t.moves,
        kids(t).len() > 0,
{
}

impl Tree {
    /// Whether the last search recorded `v` as this node's value.
    pub fn has_value(&self, v: i32) -> (r: bool)
        ensures
            r == (self.value == Some(v)),
    {
        match self.value {
            Some(x) => x == v,
            None => false,
        }
    }
}

/// Relies on rayon's `IndexedParallelIterator::position_any` over
/// `par_iter`: the index of some child for which `has_value(value)` holds, or
/// none when no child has that value; which one is found when several do is
/// left open.
#[verifier::external_body]
fn position_of_value(children: &Vec<Tree>, value: i32) -> (r: Option<usize>)
    ensures
        r.is_some() ==> r->0 < children@.len() && children@[r->0 as int].value == Some(value),
        r.is_none() ==> forall|i: int| 0 <= i < children@.len() ==> (#[trigger] children@[i]).value != Some(value),
{
    children.par_iter().position_any(|t| t.has_value(value))
}

/// Alpha-beta search like `minimax`, with the final scan over the children
/// done in parallel: returns a copy of some child whose recorded value is the
/// root's value, not necessarily the first.
pub fn minimax_parallel(tree: &mut Tree, color: Case) -> (r: Tree)
    requires
        shaped(*old(tree), 0, false),
    ensures
        same_shape(*old(tree), *final(tree)),
        is_leaf(*old(tree)) ==> r.mov == old(tree).mov && r.value == Some(eval(*old(tree), color) as i32),
        !is_leaf(*old(tree)) ==> exists|j: int| 0 <= j < kids(*old(tree)).len() && #[trigger] kids(*old(tree))[j].mov == r.mov,
        !is_leaf(*old(tree)) ==> r.value == Some(mm(*old(tree), color, color) as i32),
{
    let ghost t0 = *tree;
    let best = minimax_rec(tree, color, color, i32::MIN, i32::MAX);
    proof {
        lemma_mm_bounds(t0, color, color, kids(t0).len() as int);
    }
    if tree.moves == 0 || tree.subtree.is_none() {
        return tree.duplicate();
    }
    let ghost t1 = *tree;
    let r = match &tree.subtree {
        Some(children) => match position_of_value(children, best) {
            Some(i) => {
                proof {
                    assert(same_shape(kids(t0)[i as int], kids(t1)[i as int]));
                }
                children[i].duplicate()
            },
            None => {
                proof {
                    assert(false);
                }
                tree.duplicate()
            },
        },
        None => tree.duplicate(),
    };
    r
}

} // verus!
