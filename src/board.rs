//! The board model: cells, discs, turn derivation and the move history.
use vstd::prelude::*;
use crate::rules::{
    Cells, in_bounds, legal, gain, is_legal_move, is_legal_move_with_gain, cell_after, captured,
    captured_upto, captured_along, at, dir_of, ray_step, run_len, flanks, agree_on_ray,
    direction, check_direction, lemma_run_cell, lemma_run_same, lemma_not_captured_upto,
    lemma_captured_is_opponent,
};

verus! {

/// The content of one cell of the board, or a color of player.
#[derive(Clone, Copy, Debug, PartialEq, Eq, Structural)]
pub enum Case {
    Empty,
    White,
    Black,
}

/// How a finished game ended: the winner, or `Empty` for a draw.
#[derive(Debug, Clone, Copy, PartialEq, Eq, Structural)]
pub enum EndState {
    Winner(Case),
}

/// What a move left behind: a game that goes on, or one that has ended.
#[derive(Debug, Clone, Copy, PartialEq, Eq, Structural)]
pub enum BoardState {
    Ongoing,
    Ended(EndState),
}

/// Why a request on the board could not be served.
#[derive(Debug, Clone, Copy, PartialEq, Eq, Structural)]
pub enum GameError {
    /// The cell (row, column) is not a legal move for the side to move.
    IllegalMove(usize, usize),
    /// The side to move has no legal move.
    NoMovesAvailable,
}

/// The other player; `Empty` has no opponent and maps to itself.
pub open spec fn opponent_of(c: Case) -> Case {
    match c {
        Case::Empty => Case::Empty,
        Case::White => Case::Black,
        Case::Black => Case::White,
    }
}

impl Case {
    /// The other player (`Empty` stays `Empty`).
    pub fn opponent(&self) -> (r: Case)
        ensures
            r == opponent_of(*self),
    {
        match self {
            Case::Empty => Case::Empty,
            Case::White => Case::Black,
            Case::Black => Case::White,
        }
    }
}

/// The moves played so far, and the cells after each of them.
#[derive(Debug, Clone)]
pub struct History {
    pub moves: Vec<(usize, usize)>,
    pub history: Vec<[[Case; 8]; 8]>,
}

/// An 8×8 board with the history of the moves that led to it.
#[derive(Clone, Debug)]
pub struct Board {
    pub cases: [[Case; 8]; 8],
    pub history: History,
}

/// The number of cells equal to `color` among the first `j` of a row.
pub open spec fn count_row(row: [Case; 8], color: Case, j: int) -> int
    decreases j,
{
    if j <= 0 {
        0
    } else {
        count_row(row, color, j - 1) + if row[j - 1] == color {
            1int
        } else {
            0int
        }
    }
}

/// The number of cells equal to `color` among the first `i` rows.
pub open spec fn count_rows(b: Cells, color: Case, i: int) -> int
    decreases i,
{
    if i <= 0 {
        0
    } else {
        count_rows(b, color, i - 1) + count_row(b[i - 1], color, 8)
    }
}

/// The number of cells of the grid equal to `color`.
pub open spec fn count(b: Cells, color: Case) -> int {
    count_rows(b, color, 8)
}

/// The number of discs on the grid.
pub open spec fn discs(b: Cells) -> int {
    count(b, Case::Black) + count(b, Case::White)
}

/// Black moves when the number of discs is even, White when it is odd.
pub open spec fn turn_of(b: Cells) -> Case {
    if discs(b) % 2 == 0 {
        Case::Black
    } else {
        Case::White
    }
}

/// The color with more discs, or `Empty` when both have as many.
pub open spec fn leader(b: Cells) -> Case {
    if count(b, Case::Black) == count(b, Case::White) {
        Case::Empty
    } else if count(b, Case::Black) > count(b, Case::White) {
        Case::Black
    } else {
        Case::White
    }
}

/// The cells of the opening position.
pub open spec fn opening_cell(x: int, y: int) -> Case {
    if (x == 3 && y == 3) || (x == 4 && y == 4) {
        Case::White
    } else if (x == 3 && y == 4) || (x == 4 && y == 3) {
        Case::Black
    } else {
        Case::Empty
    }
}

/// The grid is the opening position.
pub open spec fn is_opening(b: Cells) -> bool {
    forall|x: int, y: int| in_bounds(x, y) ==> #[trigger] b[x][y] == opening_cell(x, y)
}

/// Two grids hold the same content in every cell.
pub open spec fn same_cells(a: Cells, b: Cells) -> bool {
    forall|x: int, y: int| in_bounds(x, y) ==> #[trigger] a[x][y] == b[x][y]
}

/// The legal cells of row `i` among its first `j` columns, left to right.
pub open spec fn row_moves(b: Cells, color: Case, i: int, j: int) -> Seq<(usize, usize)>
    decreases j,
{
    if j <= 0 {
        seq![]
    } else if legal(b, i, j - 1, color) {
        row_moves(b, color, i, j - 1).push((i as usize, (j - 1) as usize))
    } else {
        row_moves(b, color, i, j - 1)
    }
}

/// The legal cells of the first `i` rows, in row-major order.
pub open spec fn rows_moves(b: Cells, color: Case, i: int) -> Seq<(usize, usize)>
    decreases i,
{
    if i <= 0 {
        seq![]
    } else {
        rows_moves(b, color, i - 1) + row_moves(b, color, i - 1, 8)
    }
}

/// Every legal cell for `color`, in row-major order.
pub open spec fn legal_moves(b: Cells, color: Case) -> Seq<(usize, usize)> {
    rows_moves(b, color, 8)
}

/// A row holds at most as many discs of a color as cells counted.
pub proof fn lemma_count_row_bounds(row: [Case; 8], color: Case, j: int)
    requires
        0 <= j <= 8,
    ensures
        0 <= count_row(row, color, j) <= j,
    decreases j,
{
    if j > 0 {
        lemma_count_row_bounds(row, color, j - 1);
    }
}

/// Rows hold at most 8 discs of a color each.
pub proof fn lemma_count_rows_bounds(b: Cells, color: Case, i: int)
    requires
        0 <= i <= 8,
    ensures
        0 <= count_rows(b, color, i) <= 8 * i,
    decreases i,
{
    if i > 0 {
        lemma_count_rows_bounds(b, color, i - 1);
        lemma_count_row_bounds(b[i - 1], color, 8);
    }
}

proof fn lemma_row_moves_contains(b: Cells, color: Case, i: int, j: int, m: (usize, usize))
    requires
        0 <= i < 8,
        0 <= j <= 8,
    ensures
        row_moves(b, color, i, j).contains(m) <==> (m.0 == i && m.1 < j && legal(b, m.0 as int, m.1 as int, color)),
    decreases j,
{
    if j > 0 {
        lemma_row_moves_contains(b, color, i, j - 1, m);
        let s = row_moves(b, color, i, j - 1);
        if legal(b, i, j - 1, color) {
            let t = s.push((i as usize, (j - 1) as usize));
            if t.contains(m) {
                let k = choose|k: int| 0 <= k < t.len() && t[k] == m;
                if k < s.len() {
                    assert(s[k] == m);
                }
            }
            if s.contains(m) {
                let k = choose|k: int| 0 <= k < s.len() && s[k] == m;
                assert(t[k] == m);
            }
            if m.0 == i && m.1 == j - 1 {
                assert(t[s.len() as int] == m);
            }
        }
    }
}

proof fn lemma_rows_moves_contains(b: Cells, color: Case, i: int, m: (usize, usize))
    requires
        0 <= i <= 8,
    ensures
        rows_moves(b, color, i).contains(m) <==> (m.0 < i && m.1 < 8 && legal(b, m.0 as int, m.1 as int, color)),
    decreases i,
{
    if i > 0 {
        lemma_rows_moves_contains(b, color, i - 1, m);
        lemma_row_moves_contains(b, color, i - 1, 8, m);
        let s = rows_moves(b, color, i - 1);
        let t = row_moves(b, color, i - 1, 8);
        let u = s + t;
        if u.contains(m) {
            let k = choose|k: int| 0 <= k < u.len() && u[k] == m;
            if k < s.len() {
                assert(s[k] == m);
            } else {
                assert(t[k - s.len()] == m);
            }
        }
        if s.contains(m) {
            let k = choose|k: int| 0 <= k < s.len() && s[k] == m;
            assert(u[k] == m);
        }
        if t.contains(m) {
            let k = choose|k: int| 0 <= k < t.len() && t[k] == m;
            assert(u[s.len() + k] == m);
        }
    }
}

/// A cell is listed by `legal_moves` exactly when it is a legal move.
pub proof fn lemma_legal_moves_contains(b: Cells, color: Case, m: (usize, usize))
    ensures
        legal_moves(b, color).contains(m) <==> legal(b, m.0 as int, m.1 as int, color),
{
    lemma_rows_moves_contains(b, color, 8, m);
}

/// The moves listed for the side to move are exactly those `play_move`
/// accepts: a cell is listed if and only if it is a legal move.
pub proof fn lemma_available_iff_playable(b: Board, m: (usize, usize))
    ensures
        legal_moves(b.cases, turn_of(b.cases)).contains(m) <==> legal(b.cases, m.0 as int, m.1 as int, turn_of(b.cases)),
{
    lemma_legal_moves_contains(b.cases, turn_of(b.cases), m);
}

/// Every entry of `legal_moves` is a legal move.
pub proof fn lemma_legal_moves_entries(b: Cells, color: Case)
    ensures
        forall|k: int| 0 <= k < legal_moves(b, color).len() ==> legal(b, #[trigger] legal_moves(b, color)[k].0 as int, legal_moves(b, color)[k].1 as int, color),
{
    assert forall|k: int| 0 <= k < legal_moves(b, color).len() implies legal(b, #[trigger] legal_moves(b, color)[k].0 as int, legal_moves(b, color)[k].1 as int, color) by {
        lemma_legal_moves_contains(b, color, legal_moves(b, color)[k]);
    }
}

/// The number of discs among the first `j` cells of a row.
pub open spec fn filled_row(row: [Case; 8], j: int) -> int
    decreases j,
{
    if j <= 0 {
        0
    } else {
        filled_row(row, j - 1) + if row[j - 1] != Case::Empty {
            1int
        } else {
            0int
        }
    }
}

/// The number of discs among the first `i` rows.
pub open spec fn filled_rows(b: Cells, i: int) -> int
    decreases i,
{
    if i <= 0 {
        0
    } else {
        filled_rows(b, i - 1) + filled_row(b[i - 1], 8)
    }
}

proof fn lemma_filled_row_split(row: [Case; 8], j: int)
    requires
        0 <= j <= 8,
    ensures
        count_row(row, Case::Black, j) + count_row(row, Case::White, j) == filled_row(row, j),
    decreases j,
{
    if j > 0 {
        lemma_filled_row_split(row, j - 1);
    }
}

proof fn lemma_filled_rows_split(b: Cells, i: int)
    requires
        0 <= i <= 8,
    ensures
        count_rows(b, Case::Black, i) + count_rows(b, Case::White, i) == filled_rows(b, i),
    decreases i,
{
    if i > 0 {
        lemma_filled_rows_split(b, i - 1);
        lemma_filled_row_split(b[i - 1], 8);
    }
}

proof fn lemma_filled_row_grow(a: [Case; 8], n: [Case; 8], c: int, j: int)
    requires
        0 <= j <= 8,
        0 <= c < 8,
        forall|y: int| 0 <= y < 8 && y != c ==> (#[trigger] a[y] != Case::Empty) == (n[y] != Case::Empty),
        a[c] == Case::Empty,
        n[c] != Case::Empty,
    ensures
        filled_row(n, j) == filled_row(a, j) + if c < j {
            1int
        } else {
            0int
        },
    decreases j,
{
    if j > 0 {
        lemma_filled_row_grow(a, n, c, j - 1);
    }
}

proof fn lemma_filled_row_same(a: [Case; 8], n: [Case; 8], j: int)
    requires
        0 <= j <= 8,
        forall|y: int| 0 <= y < 8 ==> (#[trigger] a[y] != Case::Empty) == (n[y] != Case::Empty),
    ensures
        filled_row(n, j) == filled_row(a, j),
    decreases j,
{
    if j > 0 {
        lemma_filled_row_same(a, n, j - 1);
    }
}

proof fn lemma_filled_rows_grow(a: Cells, n: Cells, r: int, c: int, i: int)
    requires
        0 <= i <= 8,
        in_bounds(r, c),
        forall|x: int, y: int| in_bounds(x, y) && !(x == r && y == c) ==> (#[trigger] a[x][y] != Case::Empty) == (n[x][y] != Case::Empty),
        a[r][c] == Case::Empty,
        n[r][c] != Case::Empty,
    ensures
        filled_rows(n, i) == filled_rows(a, i) + if r < i {
            1int
        } else {
            0int
        },
    decreases i,
{
    if i > 0 {
        lemma_filled_rows_grow(a, n, r, c, i - 1);
        let x = i - 1;
        if x == r {
            assert forall|y: int| 0 <= y < 8 && y != c implies (#[trigger] a[x][y] != Case::Empty) == (n[x][y] != Case::Empty) by {
                assert(in_bounds(x, y));
            }
            lemma_filled_row_grow(a[x], n[x], c, 8);
        } else {
            assert forall|y: int| 0 <= y < 8 implies (#[trigger] a[x][y] != Case::Empty) == (n[x][y] != Case::Empty) by {
                assert(in_bounds(x, y));
            }
            lemma_filled_row_same(a[x], n[x], 8);
        }
    }
}

proof fn lemma_filled_row_bound(row: [Case; 8], j: int)
    requires
        0 <= j <= 8,
    ensures
        0 <= filled_row(row, j) <= j,
    decreases j,
{
    if j > 0 {
        lemma_filled_row_bound(row, j - 1);
    }
}

proof fn lemma_filled_rows_bound(b: Cells, i: int)
    requires
        0 <= i <= 8,
    ensures
        0 <= filled_rows(b, i) <= 8 * i,
    decreases i,
{
    if i > 0 {
        lemma_filled_rows_bound(b, i - 1);
        lemma_filled_row_bound(b[i - 1], 8);
    }
}

/// A grid holds at most 64 discs.
pub proof fn lemma_discs_bound(b: Cells)
    ensures
        0 <= count(b, Case::Black) <= 64,
        0 <= count(b, Case::White) <= 64,
        0 <= discs(b) <= 64,
{
    lemma_filled_rows_split(b, 8);
    lemma_filled_rows_bound(b, 8);
    lemma_count_rows_bounds(b, Case::Black, 8);
    lemma_count_rows_bounds(b, Case::White, 8);
}

/// Grids that agree in every cell are equal.
pub proof fn lemma_same_cells_eq(a: Cells, b: Cells)
    requires
        same_cells(a, b),
    ensures
        a == b,
{
    assert forall|x: int| 0 <= x < 8 implies a[x] == b[x] by {
        assert forall|y: int| 0 <= y < 8 implies a[x][y] == b[x][y] by {
            assert(in_bounds(x, y));
        }
        assert(a[x] =~= b[x]);
    }
    assert(a =~= b);
}

/// A board stays consistent through a move.
pub proof fn lemma_played_consistent(before: Board, m: (usize, usize), after: Board)
    requires
        consistent(before),
        played(before, m, after),
    ensures
        consistent(after),
{
}

/// A move adds exactly one disc: the placed one; flips change colors only.
pub proof fn lemma_move_adds_one_disc(a: Cells, n: Cells, r: int, c: int, color: Case)
    requires
        legal(a, r, c, color),
        forall|x: int, y: int| in_bounds(x, y) ==> #[trigger] n[x][y] == cell_after(a, r, c, color, x, y),
    ensures
        discs(n) == discs(a) + 1,
        count(n, Case::Black) + count(n, Case::White) == count(a, Case::Black) + count(a, Case::White) + 1,
{
    let (dr, dc) = choose|dr: int, dc: int| crate::rules::is_dir(dr, dc) && #[trigger] flanks(a, r, c, dr, dc, color);
    assert(color != Case::Empty);
    assert forall|x: int, y: int| in_bounds(x, y) && !(x == r && y == c) implies (#[trigger] a[x][y] != Case::Empty) == (n[x][y] != Case::Empty) by {
        assert(n[x][y] == cell_after(a, r, c, color, x, y));
        if captured(a, r, c, color, x, y) {
            lemma_captured_is_opponent(a, r, c, color, x, y, 8);
        }
    }
    assert(n[r][c] == cell_after(a, r, c, color, r, c));
    lemma_filled_rows_grow(a, n, r, c, 8);
    lemma_filled_rows_split(a, 8);
    lemma_filled_rows_split(n, 8);
}

/// The history agrees with the board: one snapshot per move, the last
/// snapshot is the current grid, and with no move played the grid is the opening.
pub open spec fn consistent(b: Board) -> bool {
    &&& b.history.moves@.len() == b.history.history@.len()
    &&& b.history.history@.len() == 0 ==> is_opening(b.cases)
    &&& b.history.history@.len() > 0 ==> b.history.history@.last() == b.cases
}

/// What a successful `play_move` of `m` does to a board.
pub open spec fn played(old: Board, m: (usize, usize), new: Board) -> bool {
    let color = turn_of(old.cases);
    &&& legal(old.cases, m.0 as int, m.1 as int, color)
    &&& forall|x: int, y: int| in_bounds(x, y) ==> #[trigger] new.cases[x][y] == cell_after(old.cases, m.0 as int, m.1 as int, color, x, y)
    &&& new.history.moves@ == old.history.moves@.push(m)
    &&& new.history.history@ == old.history.history@.push(new.cases)
}

/// What `reset(num)` does to a board whose history is well formed.
pub open spec fn rewound(old: Board, num: int, new: Board) -> bool {
    let len = old.history.history@.len();
    if num == 0 {
        new == old
    } else if num >= len {
        &&& is_opening(new.cases)
        &&& new.history.moves@.len() == 0
        &&& new.history.history@.len() == 0
    } else {
        &&& new.cases == old.history.history@[len - num - 1]
        &&& new.history.history@ == old.history.history@.subrange(0, len - num)
        &&& new.history.moves@ == old.history.moves@.subrange(0, len - num)
    }
}

/// Playing a move then undoing one ply gives back the grid and the history.
pub proof fn lemma_play_then_reset(before: Board, m: (usize, usize), moved: Board, after: Board)
    requires
        consistent(before),
        played(before, m, moved),
        rewound(moved, 1, after),
    ensures
        same_cells(after.cases, before.cases),
        after.history.moves@ == before.history.moves@,
        after.history.history@ == before.history.history@,
        consistent(after),
{
    let len = moved.history.history@.len();
    if len == 1 {
        assert(before.history.history@.len() == 0);
        assert(before.history.moves@ =~= seq![]);
        assert(before.history.history@ =~= seq![]);
        assert(after.history.moves@ =~= seq![]);
        assert(after.history.history@ =~= seq![]);
    } else {
        assert(moved.history.history@[len - 2] == before.history.history@.last());
        assert(after.history.history@ =~= before.history.history@);
        assert(after.history.moves@ =~= before.history.moves@);
    }
}

impl Board {
    /// The opening position: White on d4 and e5, Black on e4 and d5; no history.
    pub fn new() -> (board: Self)
        ensures
            is_opening(board.cases),
            board.history.moves@.len() == 0,
            board.history.history@.len() == 0,
    {
        let mut cases = [[Case::Empty; 8]; 8];
        cases[3][3] = Case::White;
        cases[4][4] = Case::White;
        cases[3][4] = Case::Black;
        cases[4][3] = Case::Black;
        Board {
            cases,
            history: History { moves: Vec::new(), history: Vec::new() },
        }
    }

    /// Returns the score of the board (black, white)
    pub fn score(&self) -> (res: (usize, usize))
        ensures
            res.0 == count(self.cases, Case::Black),
            res.1 == count(self.cases, Case::White),
    {
        let mut white: usize = 0;
        let mut black: usize = 0;
        let mut i: usize = 0;
        while i < 8
            invariant
                i <= 8,
                black == count_rows(self.cases, Case::Black, i as int),
                white == count_rows(self.cases, Case::White, i as int),
                black <= 8 * i && white <= 8 * i,
            decreases 8 - i,
        {
            let line = self.cases[i];
            let mut j: usize = 0;
            while j < 8
                invariant
                    i < 8,
                    j <= 8,
                    line == self.cases[i as int],
                    black == count_rows(self.cases, Case::Black, i as int) + count_row(line, Case::Black, j as int),
                    white == count_rows(self.cases, Case::White, i as int) + count_row(line, Case::White, j as int),
                    black <= 8 * i + j && white <= 8 * i + j,
                decreases 8 - j,
            {
                match line[j] {
                    Case::White => white = white + 1,
                    Case::Black => black = black + 1,
                    Case::Empty => (),
                }
                j = j + 1;
            }
            i = i + 1;
        }
        (black, white)
    }

    /// Get the current turn: Black when the number of discs is even.
    pub fn get_turn(&self) -> (res: Case)
        ensures
            res == turn_of(self.cases),
    {
        let (black, white) = self.score();
        proof {
            lemma_count_rows_bounds(self.cases, Case::Black, 8);
            lemma_count_rows_bounds(self.cases, Case::White, 8);
        }
        let sum = black + white;
        if sum % 2 == 0 {
            Case::Black
        } else {
            Case::White
        }
    }

    /// All legal moves of `color` (by default the side to move), in row-major order.
    pub fn available_moves(&self, color: Option<Case>) -> (moves: Vec<(usize, usize)>)
        ensures
            moves@ == legal_moves(self.cases, match color { Some(c) => c, None => turn_of(self.cases) }),
    {
        let color = match color {
            Some(c) => c,
            None => self.get_turn(),
        };
        let mut moves: Vec<(usize, usize)> = Vec::new();
        let mut i: usize = 0;
        while i < 8
            invariant
                i <= 8,
                moves@ == rows_moves(self.cases, color, i as int),
            decreases 8 - i,
        {
            let mut j: usize = 0;
            while j < 8
                invariant
                    i < 8,
                    j <= 8,
                    moves@ == rows_moves(self.cases, color, i as int) + row_moves(self.cases, color, i as int, j as int),
                decreases 8 - j,
            {
                if is_legal_move(&self.cases, (i, j), &color) {
                    moves.push((i, j));
                }
                j = j + 1;
            }
            i = i + 1;
        }
        moves
    }

    /// The legal moves of the side to move, each with the number of discs it flips.
    pub fn available_moves_with_gain(&self) -> (moves: Vec<((usize, usize), usize)>)
        ensures
            moves@.len() == legal_moves(self.cases, turn_of(self.cases)).len(),
            forall|k: int| 0 <= k < moves@.len() ==> (#[trigger] moves@[k]).0 == legal_moves(self.cases, turn_of(self.cases))[k]
                && moves@[k].1 == gain(self.cases, moves@[k].0.0 as int, moves@[k].0.1 as int, turn_of(self.cases)),
    {
        let color = self.get_turn();
        let ghost all = legal_moves(self.cases, color);
        let mut moves: Vec<((usize, usize), usize)> = Vec::new();
        let mut i: usize = 0;
        while i < 8
            invariant
                i <= 8,
                color == turn_of(self.cases),
                moves@.len() == rows_moves(self.cases, color, i as int).len(),
                forall|k: int| 0 <= k < moves@.len() ==> (#[trigger] moves@[k]).0 == rows_moves(self.cases, color, i as int)[k]
                    && moves@[k].1 == gain(self.cases, moves@[k].0.0 as int, moves@[k].0.1 as int, color),
            decreases 8 - i,
        {
            let mut j: usize = 0;
            while j < 8
                invariant
                    i < 8,
                    j <= 8,
                    color == turn_of(self.cases),
                    moves@.len() == (rows_moves(self.cases, color, i as int) + row_moves(self.cases, color, i as int, j as int)).len(),
                    forall|k: int| 0 <= k < moves@.len() ==> (#[trigger] moves@[k]).0 == (rows_moves(self.cases, color, i as int) + row_moves(self.cases, color, i as int, j as int))[k]
                        && moves@[k].1 == gain(self.cases, moves@[k].0.0 as int, moves@[k].0.1 as int, color),
                decreases 8 - j,
            {
                let (is_legal, g) = is_legal_move_with_gain(&self.cases, (i, j), &color);
                if is_legal {
                    moves.push(((i, j), g));
                }
                j = j + 1;
            }
            i = i + 1;
        }
        moves
    }

    /// The legal move that flips the most discs; the first such in row-major order.
    pub fn move_with_highest_gain(&self) -> (res: Result<(usize, usize), GameError>)
        ensures
            legal_moves(self.cases, turn_of(self.cases)).len() == 0 <==> res == Err::<(usize, usize), GameError>(GameError::NoMovesAvailable),
            legal_moves(self.cases, turn_of(self.cases)).len() > 0 <==> res.is_ok(),
            res.is_ok() ==> {
                let m = res->Ok_0;
                let color = turn_of(self.cases);
                let all = legal_moves(self.cases, color);
                &&& exists|b: int| 0 <= b < all.len() && all[b] == m && forall|q: int| 0 <= q < b ==>
                    gain(self.cases, #[trigger] all[q].0 as int, all[q].1 as int, color) < gain(self.cases, m.0 as int, m.1 as int, color)
                &&& legal(self.cases, m.0 as int, m.1 as int, color)
                &&& forall|k: int| 0 <= k < legal_moves(self.cases, color).len() ==>
                    gain(self.cases, #[trigger] legal_moves(self.cases, color)[k].0 as int, legal_moves(self.cases, color)[k].1 as int, color)
                        <= gain(self.cases, m.0 as int, m.1 as int, color)
            },
    {
        let moves = self.available_moves_with_gain();
        let ghost color = turn_of(self.cases);
        let ghost all = legal_moves(self.cases, color);
        if moves.len() == 0 {
            return Err(GameError::NoMovesAvailable);
        }
        let mut highest_gain: usize = 0;
        let mut highest_move: (usize, usize) = moves[0].0;
        let mut k: usize = 0;
        let ghost mut best: int = 0;
        while k < moves.len()
            invariant
                0 <= k <= moves@.len(),
                moves@.len() == all.len(),
                moves@.len() > 0,
                forall|q: int| 0 <= q < moves@.len() ==> (#[trigger] moves@[q]).0 == all[q]
                    && moves@[q].1 == gain(self.cases, moves@[q].0.0 as int, moves@[q].0.1 as int, color),
                0 <= best < moves@.len(),
                moves@[best].0 == highest_move,
                k == 0 || moves@[best].1 == highest_gain,
                k == 0 ==> moves@[0].0 == highest_move && highest_gain == 0,
                forall|q: int| 0 <= q < k ==> (#[trigger] moves@[q]).1 <= highest_gain,
                forall|q: int| 0 <= q < best ==> (#[trigger] moves@[q]).1 < highest_gain,
                best <= k,
            decreases moves@.len() - k,
        {
            let (m, g) = moves[k];
            if g > highest_gain {
                highest_gain = g;
                highest_move = m;
                proof {
                    best = k as int;
                }
            }
            k = k + 1;
        }
        proof {
            lemma_legal_moves_entries(self.cases, color);
            assert(all[best] == highest_move);
            assert forall|q: int| 0 <= q < best implies
                gain(self.cases, #[trigger] all[q].0 as int, all[q].1 as int, color) < gain(self.cases, highest_move.0 as int, highest_move.1 as int, color) by {
                assert(moves@[q].0 == all[q]);
            }
            assert forall|p: int| 0 <= p < all.len() implies
                gain(self.cases, #[trigger] all[p].0 as int, all[p].1 as int, color) <= gain(self.cases, highest_move.0 as int, highest_move.1 as int, color) by {
                assert(moves@[p].0 == all[p]);
            }
        }
        let res = Ok(highest_move);
        assert(res->Ok_0 == highest_move);
        res
    }

    /// The game has ended when the side to move has no legal move.
    pub fn is_ended(&self) -> (res: bool)
        ensures
            res == (legal_moves(self.cases, turn_of(self.cases)).len() == 0),
    {
        self.available_moves(None).len() == 0
    }

    /// The color with more discs, or `Empty` on equality.
    pub fn current_winner(&self) -> (res: Case)
        ensures
            res == leader(self.cases),
    {
        let (b, w) = self.score();
        if b == w {
            Case::Empty
        } else if b > w {
            Case::Black
        } else {
            Case::White
        }
    }
}


/// (x, y) lies on the ray from (r, c) along (dr, dc), between steps 1 and k - 1.
pub open spec fn on_ray_before(r: int, c: int, dr: int, dc: int, x: int, y: int, k: int) -> bool {
    let s = ray_step(r, c, dr, dc, x, y);
    1 <= s < k && x == at(r, dr, s) && y == at(c, dc, s)
}

impl Board {
    /// Flips the run that a disc of `color` at (r, c) flanks along direction `d`.
    fn flip_run(&mut self, r: usize, c: usize, d: usize, color: Case, Ghost(b0): Ghost<Cells>)
        requires
            r < 8 && c < 8 && d < 8,
            flanks(b0, r as int, c as int, dir_of(d as int).0, dir_of(d as int).1, color),
            agree_on_ray(old(self).cases, b0, r as int, c as int, dir_of(d as int).0, dir_of(d as int).1),
        ensures
            forall|x: int, y: int| in_bounds(x, y) ==> #[trigger] final(self).cases[x][y] == if captured_along(b0, r as int, c as int, dir_of(d as int).0, dir_of(d as int).1, color, x, y) {
                color
            } else {
                old(self).cases[x][y]
            },
            final(self).history == old(self).history,
    {
        let ghost dr = dir_of(d as int).0;
        let ghost dc = dir_of(d as int).1;
        let ghost n = run_len(b0, r as int, c as int, dr, dc, color);
        let ghost start = self.cases;
        let dir = direction(d);
        let opp = color.opponent();
        let mut x: i8 = r as i8 + dir.0;
        let mut y: i8 = c as i8 + dir.1;
        let ghost mut k: int = 1;
        proof {
            lemma_run_cell(b0, r as int, c as int, dr, dc, color, 1, 1);
        }
        while self.cases[x as usize][y as usize] == opp
            invariant
                r < 8 && c < 8 && d < 8,
                dir.0 == dr && dir.1 == dc,
                crate::rules::is_dir(dr, dc),
                n == run_len(b0, r as int, c as int, dr, dc, color),
                flanks(b0, r as int, c as int, dr, dc, color),
                agree_on_ray(start, b0, r as int, c as int, dr, dc),
                opp == opponent_of(color),
                1 <= k <= n + 1,
                x == at(r as int, dr, k),
                y == at(c as int, dc, k),
                in_bounds(x as int, y as int),
                self.history == old(self).history,
                start == old(self).cases,
                forall|p: int, q: int| in_bounds(p, q) ==> #[trigger] self.cases[p][q] == if on_ray_before(r as int, c as int, dr, dc, p, q, k) {
                    color
                } else {
                    start[p][q]
                },
            decreases n + 1 - k,
        {
            proof {
                if k == n + 1 {
                    assert(self.cases[x as int][y as int] == start[x as int][y as int]);
                    assert(start[at(r as int, dr, k)][at(c as int, dc, k)] == b0[at(r as int, dr, k)][at(c as int, dc, k)]);
                }
            }
            self.cases[x as usize][y as usize] = color;
            x = x + dir.0;
            y = y + dir.1;
            proof {
                k = k + 1;
                if k <= n {
                    lemma_run_cell(b0, r as int, c as int, dr, dc, color, 1, k);
                }
            }
        }
        proof {
            if k <= n {
                lemma_run_cell(b0, r as int, c as int, dr, dc, color, 1, k);
                assert(self.cases[x as int][y as int] == start[x as int][y as int]);
                assert(start[at(r as int, dr, k)][at(c as int, dc, k)] == b0[at(r as int, dr, k)][at(c as int, dc, k)]);
            }
            assert(k == n + 1);
        }
    }

    /// Play a move for the side to move. An illegal move is refused and
    /// leaves the board as it was. A legal one places the disc, flips every
    /// flanked run, records the move and the new grid, and tells whether the
    /// next side to move still has a move.
    pub fn play_move(&mut self, bmove: &(usize, usize)) -> (res: Result<BoardState, GameError>)
        ensures
            res.is_ok() <==> legal(old(self).cases, bmove.0 as int, bmove.1 as int, turn_of(old(self).cases)),
            res.is_err() ==> *final(self) == *old(self) && res == Err::<BoardState, GameError>(GameError::IllegalMove(bmove.0, bmove.1)),
            res.is_ok() ==> played(*old(self), *bmove, *final(self)),
            res.is_ok() ==> discs(final(self).cases) == discs(old(self).cases) + 1,
            res.is_ok() ==> res->Ok_0 == if legal_moves(final(self).cases, turn_of(final(self).cases)).len() == 0 {
                BoardState::Ended(EndState::Winner(leader(final(self).cases)))
            } else {
                BoardState::Ongoing
            },
    {
        let color = self.get_turn();
        if !is_legal_move(&self.cases, *bmove, &color) {
            return Err(GameError::IllegalMove(bmove.0, bmove.1));
        }
        let ghost b0 = self.cases;
        let r = bmove.0;
        let c = bmove.1;
        self.cases[r][c] = color;
        let mut d: usize = 0;
        while d < 8
            invariant
                r < 8 && c < 8,
                d <= 8,
                legal(b0, r as int, c as int, color),
                self.history == old(self).history,
                b0 == old(self).cases,
                color == turn_of(b0),
                forall|x: int, y: int| in_bounds(x, y) ==> #[trigger] self.cases[x][y] == if x == r && y == c {
                    color
                } else if captured_upto(b0, r as int, c as int, color, x, y, d as int) {
                    color
                } else {
                    b0[x][y]
                },
            decreases 8 - d,
        {
            let ghost dr = dir_of(d as int).0;
            let ghost dc = dir_of(d as int).1;
            let ghost cur = self.cases;
            proof {
                assert forall|k: int| 1 <= k <= 8 && in_bounds(at(r as int, dr, k), at(c as int, dc, k)) implies #[trigger] cur[at(r as int, dr, k)][at(c as int, dc, k)] == b0[at(r as int, dr, k)][at(c as int, dc, k)] by {
                    lemma_not_captured_upto(b0, r as int, c as int, color, d as int, k, d as int);
                }
                lemma_run_same(cur, b0, r as int, c as int, dr, dc, color, 1);
            }
            if check_direction(&self.cases, (r as i8, c as i8), direction(d), &color) {
                self.flip_run(r, c, d, color, Ghost(b0));
            }
            proof {
                assert forall|x: int, y: int| in_bounds(x, y) implies #[trigger] self.cases[x][y] == if x == r && y == c {
                    color
                } else if captured_upto(b0, r as int, c as int, color, x, y, d + 1) {
                    color
                } else {
                    b0[x][y]
                } by {
                    if captured_along(b0, r as int, c as int, dr, dc, color, x, y) {
                        let s = ray_step(r as int, c as int, dr, dc, x, y);
                        lemma_not_captured_upto(b0, r as int, c as int, color, d as int, s, d as int);
                    }
                }
            }
            d = d + 1;
        }
        proof {
            lemma_move_adds_one_disc(b0, self.cases, r as int, c as int, color);
        }
        self.history.moves.push(*bmove);
        self.history.history.push(self.cases);
        let next = self.available_moves(None);
        if next.len() == 0 {
            let winner = self.current_winner();
            Ok(BoardState::Ended(EndState::Winner(winner)))
        } else {
            Ok(BoardState::Ongoing)
        }
    }

    /// Undo the last `num` plies: none when `num` is 0, back to the opening
    /// when `num` reaches the number of plies played (also with no history), and otherwise back to the
    /// grid recorded `num` plies ago.
    pub fn reset(&mut self, num: usize)
        requires
            old(self).history.moves@.len() == old(self).history.history@.len(),
        ensures
            rewound(*old(self), num as int, *final(self)),
            final(self).history.moves@.len() == final(self).history.history@.len(),
    {
        if num == 0 {
            return;
        }
        if num >= self.history.history.len() {
            self.cases = Board::new().cases;
            self.history.history.clear();
            self.history.moves.clear();
            return;
        }
        let keep = self.history.history.len() - num;
        self.cases = self.history.history[keep - 1];
        self.history.history.truncate(keep);
        self.history.moves.truncate(keep);
    }
}

impl Board {
    /// A copy of the board: the same grid and the same history.
    pub fn duplicate(&self) -> (r: Board)
        ensures
            r.cases == self.cases,
            r.history.moves@ == self.history.moves@,
            r.history.history@ == self.history.history@,
    {
        let mut moves: Vec<(usize, usize)> = Vec::new();
        let mut i: usize = 0;
        while i < self.history.moves.len()
            invariant
                i <= self.history.moves@.len(),
                moves@ == self.history.moves@.subrange(0, i as int),
            decreases self.history.moves@.len() - i,
        {
            moves.push(self.history.moves[i]);
            i = i + 1;
            proof {
                assert(moves@ =~= self.history.moves@.subrange(0, i as int));
            }
        }
        let mut snapshots: Vec<[[Case; 8]; 8]> = Vec::new();
        let mut j: usize = 0;
        while j < self.history.history.len()
            invariant
                j <= self.history.history@.len(),
                snapshots@ == self.history.history@.subrange(0, j as int),
            decreases self.history.history@.len() - j,
        {
            snapshots.push(self.history.history[j]);
            j = j + 1;
            proof {
                assert(snapshots@ =~= self.history.history@.subrange(0, j as int));
            }
        }
        proof {
            assert(moves@ =~= self.history.moves@);
            assert(snapshots@ =~= self.history.history@);
        }
        Board { cases: self.cases, history: History { moves, history: snapshots } }
    }
}

/// A move, written column number first then row letter, as in "4c".
#[derive(Debug)]
pub struct Move {
    pub move_: (usize, usize),
}

/// The letter of row `r` (0 to 7) from `base` ('a' or 'A').
pub open spec fn row_letter(base: char, r: int) -> char {
    ((base as int) + r) as char
}

/// The digit of column `c` (0 to 7), counted from 1.
pub open spec fn column_digit(c: int) -> char {
    (('1' as int) + c) as char
}

/// Relies on `format!` writing two `char`s one after the other.
#[verifier::external_body]
fn two_chars(a: char, b: char) -> (s: String)
    ensures
        s@ == seq![a, b],
{
    format!("{}{}", a, b)
}

/// The row letter of `r` counted from `base`.
fn letter(base: u8, r: usize) -> (ch: char)
    requires
        r < 8,
        base == 65 || base == 97,
    ensures
        ch == row_letter(base as char, r as int),
{
    let code: u8 = base + r as u8;
    code as char
}

/// The digit of column `c`, counted from 1.
fn digit(c: usize) -> (ch: char)
    requires
        c < 8,
    ensures
        ch == column_digit(c as int),
{
    let code: u8 = 49 + c as u8;
    code as char
}

impl Move {
    /// The move as text: column number then lower-case row letter.
    pub fn to_string(&self) -> (s: String)
        requires
            self.move_.0 < 8 && self.move_.1 < 8,
        ensures
            s@ == seq![column_digit(self.move_.1 as int), row_letter('a', self.move_.0 as int)],
    {
        two_chars(digit(self.move_.1), letter(97, self.move_.0))
    }
}

/// A cell as text: upper-case row letter then column number, as in "C4".
pub fn print_coords(c: &(usize, usize)) -> (s: String)
    requires
        c.0 < 8 && c.1 < 8,
    ensures
        s@ == seq![row_letter('A', c.0 as int), column_digit(c.1 as int)],
{
    two_chars(letter(65, c.0), digit(c.1))
}

/// Reads a cell written as a row letter (either case) and a column digit,
/// as in "C4" or "c4".
pub fn parse_coords(row: char, column: char) -> (r: Option<(usize, usize)>)
    ensures
        r.is_some() <==> (('A' <= row <= 'H' || 'a' <= row <= 'h') && '1' <= column <= '8'),
        r.is_some() ==> (r->0).0 < 8 && (r->0).1 < 8
            && (row == row_letter('A', (r->0).0 as int) || row == row_letter('a', (r->0).0 as int))
            && column == column_digit((r->0).1 as int),
{
    let x: u32 = row as u32;
    let y: u32 = column as u32;
    let r: usize = if 65 <= x && x <= 72 {
        (x - 65) as usize
    } else if 97 <= x && x <= 104 {
        (x - 97) as usize
    } else {
        return None;
    };
    if y < 49 || y > 56 {
        return None;
    }
    Some((r, (y - 49) as usize))
}

/// The first cell, in row-major order, that is empty on `before` and holds a
/// disc on `after`: the move that was played between the two grids.
pub fn last_move_between(before: &[[Case; 8]; 8], after: &[[Case; 8]; 8]) -> (r: Option<(usize, usize)>)
    ensures
        r.is_some() ==> {
            let (x, y) = r->0;
            &&& x < 8 && y < 8
            &&& before[x as int][y as int] == Case::Empty && after[x as int][y as int] != Case::Empty
            &&& forall|i: int, j: int| in_bounds(i, j) && (i < x || (i == x && j < y)) ==>
                !(#[trigger] before[i][j] == Case::Empty && after[i][j] != Case::Empty)
        },
        r.is_none() ==> forall|i: int, j: int| in_bounds(i, j) ==> !(#[trigger] before[i][j] == Case::Empty && after[i][j] != Case::Empty),
{
    let mut i: usize = 0;
    while i < 8
        invariant
            i <= 8,
            forall|p: int, q: int| in_bounds(p, q) && p < i ==> !(#[trigger] before[p][q] == Case::Empty && after[p][q] != Case::Empty),
        decreases 8 - i,
    {
        let mut j: usize = 0;
        while j < 8
            invariant
                i < 8,
                j <= 8,
                forall|p: int, q: int| in_bounds(p, q) && (p < i || (p == i && q < j)) ==> !(#[trigger] before[p][q] == Case::Empty && after[p][q] != Case::Empty),
            decreases 8 - j,
        {
            if before[i][j] == Case::Empty && after[i][j] != Case::Empty {
                return Some((i, j));
            }
            j = j + 1;
        }
        i = i + 1;
    }
    None
}

} // verus!
