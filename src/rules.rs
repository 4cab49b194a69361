//! The capture rule: which cells are legal moves and which discs they flip.
use vstd::prelude::*;
use crate::board::{Case, opponent_of};

verus! {

/// A grid of 8×8 cells, indexed by row then column.
pub type Cells = [[Case; 8]; 8];

/// (x, y) is a cell of the board.
pub open spec fn in_bounds(x: int, y: int) -> bool {
    0 <= x < 8 && 0 <= y < 8
}

/// One of the eight compass directions, as a row step and a column step.
pub open spec fn is_dir(dr: int, dc: int) -> bool {
    -1 <= dr <= 1 && -1 <= dc <= 1 && !(dr == 0 && dc == 0)
}

/// The coordinate reached from `r` after `k` steps of `dr` (which is -1, 0 or 1).
pub open spec fn at(r: int, dr: int, k: int) -> int {
    if dr > 0 {
        r + k
    } else if dr < 0 {
        r - k
    } else {
        r
    }
}

/// The eight directions, in the order in which the rules visit them.
pub open spec fn dir_of(d: int) -> (int, int) {
    if d == 0 {
        (1, 0)
    } else if d == 1 {
        (1, 1)
    } else if d == 2 {
        (0, 1)
    } else if d == 3 {
        (-1, 1)
    } else if d == 4 {
        (-1, 0)
    } else if d == 5 {
        (-1, -1)
    } else if d == 6 {
        (0, -1)
    } else {
        (1, -1)
    }
}

/// The number of consecutive discs of `opponent_of(color)` met from (r, c)
/// along (dr, dc), counting from the `k`-th step on.
pub open spec fn run_from(b: Cells, r: int, c: int, dr: int, dc: int, color: Case, k: int) -> int
    decreases 9 - k,
{
    if k <= 8 && in_bounds(at(r, dr, k), at(c, dc, k)) && b[at(r, dr, k)][at(c, dc, k)]
        == opponent_of(color) {
        1 + run_from(b, r, c, dr, dc, color, k + 1)
    } else {
        0
    }
}

/// The length of the opponent run that starts next to (r, c) along (dr, dc).
pub open spec fn run_len(b: Cells, r: int, c: int, dr: int, dc: int, color: Case) -> int {
    run_from(b, r, c, dr, dc, color, 1)
}

/// A disc of `color` placed at (r, c) would close a non-empty run of opponent
/// discs along (dr, dc): the run is followed, on the board, by a disc of `color`.
pub open spec fn flanks(b: Cells, r: int, c: int, dr: int, dc: int, color: Case) -> bool {
    let n = run_len(b, r, c, dr, dc, color);
    &&& color != Case::Empty
    &&& n >= 1
    &&& in_bounds(at(r, dr, n + 1), at(c, dc, n + 1))
    &&& b[at(r, dr, n + 1)][at(c, dc, n + 1)] == color
}

/// A legal placement: an empty cell from which at least one direction flanks.
pub open spec fn legal(b: Cells, r: int, c: int, color: Case) -> bool {
    &&& in_bounds(r, c)
    &&& b[r][c] == Case::Empty
    &&& exists|dr: int, dc: int| is_dir(dr, dc) && #[trigger] flanks(b, r, c, dr, dc, color)
}

/// The step at which (x, y) would stand on the ray from (r, c) along (dr, dc).
pub open spec fn ray_step(r: int, c: int, dr: int, dc: int, x: int, y: int) -> int {
    if dr > 0 {
        x - r
    } else if dr < 0 {
        r - x
    } else if dc > 0 {
        y - c
    } else {
        c - y
    }
}

/// (x, y) is one of the discs flipped along (dr, dc) when `color` plays at (r, c).
pub open spec fn captured_along(
    b: Cells,
    r: int,
    c: int,
    dr: int,
    dc: int,
    color: Case,
    x: int,
    y: int,
) -> bool {
    let k = ray_step(r, c, dr, dc, x, y);
    &&& flanks(b, r, c, dr, dc, color)
    &&& 1 <= k <= run_len(b, r, c, dr, dc, color)
    &&& x == at(r, dr, k)
    &&& y == at(c, dc, k)
}

/// (x, y) is flipped along one of the first `n` directions of `dir_of`.
pub open spec fn captured_upto(b: Cells, r: int, c: int, color: Case, x: int, y: int, n: int) -> bool
    decreases n,
{
    if n <= 0 {
        false
    } else {
        captured_upto(b, r, c, color, x, y, n - 1) || captured_along(
            b,
            r,
            c,
            dir_of(n - 1).0,
            dir_of(n - 1).1,
            color,
            x,
            y,
        )
    }
}

/// (x, y) is flipped when `color` plays at (r, c).
pub open spec fn captured(b: Cells, r: int, c: int, color: Case, x: int, y: int) -> bool {
    captured_upto(b, r, c, color, x, y, 8)
}

/// The content of (x, y) once `color` has played at (r, c).
pub open spec fn cell_after(b: Cells, r: int, c: int, color: Case, x: int, y: int) -> Case {
    if x == r && y == c {
        color
    } else if captured(b, r, c, color, x, y) {
        color
    } else {
        b[x][y]
    }
}

/// The total number of discs flipped along the first `n` directions of `dir_of`.
pub open spec fn gain_upto(b: Cells, r: int, c: int, color: Case, n: int) -> int
    decreases n,
{
    if n <= 0 {
        0
    } else {
        let (dr, dc) = dir_of(n - 1);
        gain_upto(b, r, c, color, n - 1) + if flanks(b, r, c, dr, dc, color) {
            run_len(b, r, c, dr, dc, color)
        } else {
            0
        }
    }
}

/// The number of discs that `color` flips by playing at (r, c).
pub open spec fn gain(b: Cells, r: int, c: int, color: Case) -> int {
    gain_upto(b, r, c, color, 8)
}

/// The direction table index of a direction.
pub open spec fn dir_index(dr: int, dc: int) -> int {
    if dr == 1 && dc == 0 {
        0
    } else if dr == 1 && dc == 1 {
        1
    } else if dr == 0 && dc == 1 {
        2
    } else if dr == -1 && dc == 1 {
        3
    } else if dr == -1 && dc == 0 {
        4
    } else if dr == -1 && dc == -1 {
        5
    } else if dr == 0 && dc == -1 {
        6
    } else {
        7
    }
}

/// The table of `dir_of` lists the eight directions, each once.
pub proof fn lemma_dir_table(dr: int, dc: int)
    requires
        is_dir(dr, dc),
    ensures
        0 <= dir_index(dr, dc) < 8,
        dir_of(dir_index(dr, dc)) == (dr, dc),
{
}

/// A gain is positive exactly when some direction flanks.
pub proof fn lemma_gain_positive(b: Cells, r: int, c: int, color: Case, n: int)
    requires
        0 <= n <= 8,
    ensures
        gain_upto(b, r, c, color, n) >= 0,
        gain_upto(b, r, c, color, n) > 0 <==> exists|d: int|
            0 <= d < n && #[trigger] flanks(b, r, c, dir_of(d).0, dir_of(d).1, color),
    decreases n,
{
    if n > 0 {
        lemma_gain_positive(b, r, c, color, n - 1);
        let (dr, dc) = dir_of(n - 1);
        if gain_upto(b, r, c, color, n) > 0 {
            if gain_upto(b, r, c, color, n - 1) == 0 {
                assert(flanks(b, r, c, dir_of(n - 1).0, dir_of(n - 1).1, color));
            }
        }
    }
}

/// A legal move is one whose cell is empty and some table direction flanks.
pub proof fn lemma_legal_by_table(b: Cells, r: int, c: int, color: Case)
    requires
        in_bounds(r, c),
    ensures
        legal(b, r, c, color) <==> (b[r][c] == Case::Empty && exists|d: int|
            0 <= d < 8 && #[trigger] flanks(b, r, c, dir_of(d).0, dir_of(d).1, color)),
{
    if legal(b, r, c, color) {
        let (dr, dc) = choose|dr: int, dc: int| is_dir(dr, dc) && #[trigger] flanks(b, r, c, dr, dc, color);
        lemma_dir_table(dr, dc);
        let d = dir_index(dr, dc);
        assert(flanks(b, r, c, dir_of(d).0, dir_of(d).1, color));
    }
    if b[r][c] == Case::Empty && exists|d: int|
        0 <= d < 8 && #[trigger] flanks(b, r, c, dir_of(d).0, dir_of(d).1, color) {
        let d = choose|d: int| 0 <= d < 8 && #[trigger] flanks(b, r, c, dir_of(d).0, dir_of(d).1, color);
        assert(is_dir(dir_of(d).0, dir_of(d).1));
    }
}

/// Two different directions from one cell never reach a common cell.
pub proof fn lemma_rays_disjoint(r: int, c: int, d1: int, d2: int, k1: int, k2: int)
    requires
        0 <= d1 < 8,
        0 <= d2 < 8,
        d1 != d2,
        k1 >= 1,
        k2 >= 1,
    ensures
        !(at(r, dir_of(d1).0, k1) == at(r, dir_of(d2).0, k2) && at(c, dir_of(d1).1, k1) == at(
            c,
            dir_of(d2).1,
            k2,
        )),
{
}

/// The cells of a run are on the board and hold the opponent's discs.
pub proof fn lemma_run_cell(b: Cells, r: int, c: int, dr: int, dc: int, color: Case, k: int, j: int)
    requires
        1 <= k <= j < k + run_from(b, r, c, dr, dc, color, k),
    ensures
        in_bounds(at(r, dr, j), at(c, dc, j)),
        b[at(r, dr, j)][at(c, dc, j)] == opponent_of(color),
    decreases j - k,
{
    if j > k {
        lemma_run_cell(b, r, c, dr, dc, color, k + 1, j);
    }
}

/// Two grids that agree along a ray from (r, c).
pub open spec fn agree_on_ray(b1: Cells, b2: Cells, r: int, c: int, dr: int, dc: int) -> bool {
    forall|k: int|
        1 <= k <= 8 && in_bounds(at(r, dr, k), at(c, dc, k)) ==> #[trigger] b1[at(r, dr, k)][at(
            c,
            dc,
            k,
        )] == b2[at(r, dr, k)][at(c, dc, k)]
}

/// Runs and flanks along a ray depend on the cells of that ray alone.
pub proof fn lemma_run_same(b1: Cells, b2: Cells, r: int, c: int, dr: int, dc: int, color: Case, k: int)
    requires
        1 <= k,
        agree_on_ray(b1, b2, r, c, dr, dc),
    ensures
        run_from(b1, r, c, dr, dc, color, k) == run_from(b2, r, c, dr, dc, color, k),
        k == 1 ==> flanks(b1, r, c, dr, dc, color) == flanks(b2, r, c, dr, dc, color),
    decreases 9 - k,
{
    if k <= 8 {
        lemma_run_same(b1, b2, r, c, dr, dc, color, k + 1);
        if in_bounds(at(r, dr, k), at(c, dc, k)) {
            assert(b1[at(r, dr, k)][at(c, dc, k)] == b2[at(r, dr, k)][at(c, dc, k)]);
        }
    }
    if k == 1 {
        let n = run_len(b1, r, c, dr, dc, color);
        if 1 <= n + 1 <= 8 && in_bounds(at(r, dr, n + 1), at(c, dc, n + 1)) {
            assert(b1[at(r, dr, n + 1)][at(c, dc, n + 1)] == b2[at(r, dr, n + 1)][at(c, dc, n + 1)]);
        }
    }
}

/// A cell at step `k` of direction `d` is captured along no other direction before `d`.
pub proof fn lemma_not_captured_upto(b: Cells, r: int, c: int, color: Case, d: int, k: int, n: int)
    requires
        0 <= n <= d < 8,
        k >= 1,
    ensures
        !captured_upto(b, r, c, color, at(r, dir_of(d).0, k), at(c, dir_of(d).1, k), n),
    decreases n,
{
    if n > 0 {
        lemma_not_captured_upto(b, r, c, color, d, k, n - 1);
        let x = at(r, dir_of(d).0, k);
        let y = at(c, dir_of(d).1, k);
        let s = ray_step(r, c, dir_of(n - 1).0, dir_of(n - 1).1, x, y);
        if s >= 1 {
            lemma_rays_disjoint(r, c, n - 1, d, s, k);
        }
    }
}

/// Captured cells hold the opponent's discs.
pub proof fn lemma_captured_is_opponent(b: Cells, r: int, c: int, color: Case, x: int, y: int, n: int)
    requires
        0 <= n <= 8,
        captured_upto(b, r, c, color, x, y, n),
    ensures
        in_bounds(x, y),
        b[x][y] == opponent_of(color),
        color != Case::Empty,
    decreases n,
{
    if captured_upto(b, r, c, color, x, y, n - 1) {
        lemma_captured_is_opponent(b, r, c, color, x, y, n - 1);
    } else {
        let (dr, dc) = dir_of(n - 1);
        let s = ray_step(r, c, dr, dc, x, y);
        lemma_run_cell(b, r, c, dr, dc, color, 1, s);
    }
}

/// The direction of index `d` in the table `dir_of`.
pub fn direction(d: usize) -> (res: (i8, i8))
    requires
        d < 8,
    ensures
        res.0 == dir_of(d as int).0,
        res.1 == dir_of(d as int).1,
        is_dir(res.0 as int, res.1 as int),
{
    match d {
        0 => (1, 0),
        1 => (1, 1),
        2 => (0, 1),
        3 => (-1, 1),
        4 => (-1, 0),
        5 => (-1, -1),
        6 => (0, -1),
        _ => (1, -1),
    }
}

/// The opponent of `color` (`Empty` stays `Empty`).
pub fn enemy(color: &Case) -> (r: Case)
    ensures
        r == opponent_of(*color),
{
    match color {
        Case::White => Case::Black,
        Case::Black => Case::White,
        Case::Empty => Case::Empty,
    }
}

/// Walks from `start` along `direction` over opponent discs; returns whether
/// the run is closed by a disc of `color`, and the run's length.
pub fn check_direction_with_gain(
    board: &[[Case; 8]; 8],
    start: (i8, i8),
    direction: (i8, i8),
    color: &Case,
) -> (res: (bool, usize))
    requires
        in_bounds(start.0 as int, start.1 as int),
        is_dir(direction.0 as int, direction.1 as int),
    ensures
        res.0 == flanks(*board, start.0 as int, start.1 as int, direction.0 as int, direction.1 as int, *color),
        res.1 == run_len(*board, start.0 as int, start.1 as int, direction.0 as int, direction.1 as int, *color),
        res.1 <= 7,
{
    let ghost b = *board;
    let ghost r = start.0 as int;
    let ghost c = start.1 as int;
    let ghost dr = direction.0 as int;
    let ghost dc = direction.1 as int;
    let en = enemy(color);
    let mut x: i8 = start.0 + direction.0;
    let mut y: i8 = start.1 + direction.1;
    let mut gain: usize = 0;
    while 0 <= x && x < 8 && 0 <= y && y < 8 && board[x as usize][y as usize] == en
        invariant
            in_bounds(r, c),
            is_dir(dr, dc),
            b == *board,
            r == start.0 && c == start.1 && dr == direction.0 && dc == direction.1,
            en == opponent_of(*color),
            0 <= gain <= 7,
            x == at(r, dr, gain + 1),
            y == at(c, dc, gain + 1),
            run_len(b, r, c, dr, dc, *color) == gain + run_from(b, r, c, dr, dc, *color, gain + 1),
        decreases 8 - gain,
    {
        x = x + direction.0;
        y = y + direction.1;
        gain = gain + 1;
    }
    let closed = 0 <= x && x < 8 && 0 <= y && y < 8 && board[x as usize][y as usize] == *color
        && gain >= 1;
    (closed, gain)
}

/// Whether a disc of `color` placed at `start` flanks a run along `direction`.
pub fn check_direction(
    board: &[[Case; 8]; 8],
    start: (i8, i8),
    direction: (i8, i8),
    color: &Case,
) -> (res: bool)
    requires
        in_bounds(start.0 as int, start.1 as int),
        is_dir(direction.0 as int, direction.1 as int),
    ensures
        res == flanks(*board, start.0 as int, start.1 as int, direction.0 as int, direction.1 as int, *color),
{
    check_direction_with_gain(board, start, direction, color).0
}

/// Whether `color` may play at `bmove`: the cell is on the board, empty, and
/// flanks an opponent run in at least one direction.
pub fn is_legal_move(board: &[[Case; 8]; 8], bmove: (usize, usize), color: &Case) -> (res: bool)
    ensures
        res == legal(*board, bmove.0 as int, bmove.1 as int, *color),
{
    if bmove.0 >= 8 || bmove.1 >= 8 {
        return false;
    }
    proof {
        lemma_legal_by_table(*board, bmove.0 as int, bmove.1 as int, *color);
    }
    if board[bmove.0][bmove.1] != Case::Empty {
        return false;
    }
    let mut d: usize = 0;
    while d < 8
        invariant
            d <= 8,
            bmove.0 < 8 && bmove.1 < 8,
            board[bmove.0 as int][bmove.1 as int] == Case::Empty,
            forall|e: int| 0 <= e < d ==> !#[trigger] flanks(*board, bmove.0 as int, bmove.1 as int, dir_of(e).0, dir_of(e).1, *color),
        decreases 8 - d,
    {
        if check_direction(board, (bmove.0 as i8, bmove.1 as i8), direction(d), color) {
            proof {
                lemma_legal_by_table(*board, bmove.0 as int, bmove.1 as int, *color);
                assert(flanks(*board, bmove.0 as int, bmove.1 as int, dir_of(d as int).0, dir_of(d as int).1, *color));
            }
            return true;
        }
        d = d + 1;
    }
    false
}

/// Like `is_legal_move`, and also the number of discs the move would flip.
pub fn is_legal_move_with_gain(board: &[[Case; 8]; 8], bmove: (usize, usize), color: &Case) -> (res: (
    bool,
    usize,
))
    ensures
        res.0 == legal(*board, bmove.0 as int, bmove.1 as int, *color),
        res.1 == if in_bounds(bmove.0 as int, bmove.1 as int) && board[bmove.0 as int][bmove.1 as int]
            == Case::Empty {
            gain(*board, bmove.0 as int, bmove.1 as int, *color)
        } else {
            0
        },
{
    if bmove.0 >= 8 || bmove.1 >= 8 {
        return (false, 0);
    }
    proof {
        lemma_legal_by_table(*board, bmove.0 as int, bmove.1 as int, *color);
        lemma_gain_positive(*board, bmove.0 as int, bmove.1 as int, *color, 8);
    }
    if board[bmove.0][bmove.1] != Case::Empty {
        return (false, 0);
    }
    let ghost b = *board;
    let ghost r = bmove.0 as int;
    let ghost c = bmove.1 as int;
    let mut total: usize = 0;
    let mut d: usize = 0;
    while d < 8
        invariant
            d <= 8,
            bmove.0 < 8 && bmove.1 < 8,
            b == *board && r == bmove.0 && c == bmove.1,
            total == gain_upto(b, r, c, *color, d as int),
            total <= 8 * d,
        decreases 8 - d,
    {
        let (flanked, run) = check_direction_with_gain(board, (bmove.0 as i8, bmove.1 as i8), direction(d), color);
        if flanked {
            total = total + run;
        }
        d = d + 1;
    }
    (total > 0, total)
}

} // verus!
