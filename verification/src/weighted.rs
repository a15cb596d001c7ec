//! A hand-weighted board evaluator: parameters for scoring candidate moves,
//! and the line tests it builds on. The parameters hold fixed-point values
//! (a weight of 1.0 is stored as the integer 1), scaled by a constant when
//! they enter a score, so that scores stay exact integers.

use vstd::prelude::*;

use crate::defs::Cell;
use crate::defs::Coord;
use crate::defs::Grid;
use crate::defs::coord_in_bounds;
use crate::defs::line;

verus! {

/// The weights of the evaluator, one per scored pattern. Each is a
/// fixed-point fraction of full weight.
#[derive(Clone, Copy, Debug, Hash, PartialEq, Eq)]
pub struct WeightedParameters {
    pub take_cell: i32,
    pub take_double_cell: i32,
    pub take_double_grid: i32,
    pub stop_cell: i32,
    pub stop_win: i32,
    pub stop_double_cell: i32,
    pub stop_double_grid: i32,
    pub giving_cell: i32,
    pub giving_double_cell: i32,
    pub giving_double_grid: i32,
    pub play_corner: i32,
    pub play_sides: i32,
    pub play_center: i32,
    pub best_enemy_move: i32,
}

/// A strategy driven by the weighted evaluator. The move-selection rule on
/// top of the evaluator is not implemented yet; the type carries the
/// configuration.
#[derive(Clone, Copy, Debug, Hash, PartialEq, Eq)]
pub struct WeightedPlayer {
    pub weighted_params: WeightedParameters,
    pub apply_softsign: bool,
    pub ignore_giving: bool,
    pub symbol: Cell,
}

impl WeightedPlayer {
    /// Create a player from its weights and the symbol it plays.
    pub fn new(params: WeightedParameters, symbol: Cell) -> (r: Self)
        ensures
            r.weighted_params == params,
            r.symbol == symbol,
            !r.apply_softsign,
            !r.ignore_giving,
    {
        Self { weighted_params: params, symbol, apply_softsign: false, ignore_giving: false }
    }
}

/// Line `l` of `cells` holds `player` three times.
pub open spec fn line_filled_by(cells: Seq<Cell>, l: int, player: Cell) -> bool {
    &&& cells[line(l).0] == player
    &&& cells[line(l).1] == player
    &&& cells[line(l).2] == player
}

/// Line `l` of `cells` holds `player` exactly twice and `Empty` once, so
/// `player` could complete it.
pub open spec fn line_completable_by(cells: Seq<Cell>, l: int, player: Cell) -> bool {
    let a = cells[line(l).0];
    let b = cells[line(l).1];
    let c = cells[line(l).2];
    &&& (if a == player {
        1int
    } else {
        0int
    }) + (if b == player {
        1int
    } else {
        0int
    }) + (if c == player {
        1int
    } else {
        0int
    }) == 2
    &&& (if a == Cell::Empty {
        1int
    } else {
        0int
    }) + (if b == Cell::Empty {
        1int
    } else {
        0int
    }) + (if c == Cell::Empty {
        1int
    } else {
        0int
    }) == 1
}

/// The three cell indices of line `l`, as executable values.
fn line_cells(l: usize) -> (r: (usize, usize, usize))
    requires
        l < 8,
    ensures
        r.0 as int == line(l as int).0,
        r.1 as int == line(l as int).1,
        r.2 as int == line(l as int).2,
        r.0 < 9 && r.1 < 9 && r.2 < 9,
{
    if l == 0 {
        (0, 1, 2)
    } else if l == 1 {
        (3, 4, 5)
    } else if l == 2 {
        (6, 7, 8)
    } else if l == 3 {
        (0, 3, 6)
    } else if l == 4 {
        (1, 4, 7)
    } else if l == 5 {
        (2, 5, 8)
    } else if l == 6 {
        (0, 4, 8)
    } else {
        (2, 4, 6)
    }
}

/// Whether `player` holds a full line of `cells`.
pub fn is_win_in_cells(cells: &[Cell; 9], player: Cell) -> (r: bool)
    ensures
        r == exists|l: int| 0 <= l < 8 && line_filled_by(cells@, l, player),
{
    let mut l: usize = 0;
    while l < 8
        invariant
            l <= 8,
            forall|k: int| 0 <= k < l ==> !line_filled_by(cells@, k, player),
        decreases 8 - l,
    {
        let (a, b, c) = line_cells(l);
        if cells[a] == player && cells[b] == player && cells[c] == player {
            assert(line_filled_by(cells@, l as int, player));
            return true;
        }
        l = l + 1;
    }
    false
}

/// Whether some line of `cells` holds exactly two `player` cells and one
/// empty cell.
pub fn has_completable_two_in_row(cells: &[Cell; 9], player: Cell) -> (r: bool)
    ensures
        r == exists|l: int| 0 <= l < 8 && line_completable_by(cells@, l, player),
{
    let mut l: usize = 0;
    while l < 8
        invariant
            l <= 8,
            forall|k: int| 0 <= k < l ==> !line_completable_by(cells@, k, player),
        decreases 8 - l,
    {
        let (ia, ib, ic) = line_cells(l);
        let a = cells[ia];
        let b = cells[ib];
        let c = cells[ic];
        let mut count_player: u32 = 0;
        if a == player {
            count_player = count_player + 1;
        }
        if b == player {
            count_player = count_player + 1;
        }
        if c == player {
            count_player = count_player + 1;
        }
        let mut count_empty: u32 = 0;
        if a == Cell::Empty {
            count_empty = count_empty + 1;
        }
        if b == Cell::Empty {
            count_empty = count_empty + 1;
        }
        if c == Cell::Empty {
            count_empty = count_empty + 1;
        }
        if count_player == 2 && count_empty == 1 {
            assert(line_completable_by(cells@, l as int, player));
            return true;
        }
        assert(!line_completable_by(cells@, l as int, player));
        l = l + 1;
    }
    false
}

/// The scale that turns a stored fixed-point weight into score units.
pub open spec fn weight_scale() -> int {
    1_000_000_000
}

/// A stored weight, scaled into score units.
fn convert(v: i32) -> (r: i64)
    ensures
        r == v * weight_scale(),
{
    (v as i64) * 1_000_000_000
}

/// The move addresses the central cell of the central minigrid.
pub open spec fn is_center_move(c: Coord) -> bool {
    c.meta_x == 1 && c.meta_y == 1 && c.x == 1 && c.y == 1
}

/// The move addresses a corner cell of its minigrid.
pub open spec fn is_corner_move(c: Coord) -> bool {
    (c.x == 0 || c.x == 2) && (c.y == 0 || c.y == 2)
}

/// The score `eval_board` assigns: the taking weight when the move
/// completes a line for the player in the examined cells, plus exactly one
/// of the placement weights, by where the move lands.
pub open spec fn eval_board_spec(
    params: WeightedParameters,
    grid: Grid,
    eval_move: Coord,
    player_symbol: Cell,
) -> int {
    let hypothetical = grid.matrix[eval_move.meta_x as int].matrix@.update(
        eval_move.x as int,
        player_symbol,
    );
    (if exists|l: int| 0 <= l < 8 && line_filled_by(hypothetical, l, player_symbol) {
        params.take_cell * weight_scale()
    } else {
        0int
    }) + (if is_center_move(eval_move) {
        params.play_center * weight_scale()
    } else if is_corner_move(eval_move) {
        params.play_corner * weight_scale()
    } else {
        params.play_sides * weight_scale()
    })
}

/// Score one candidate move for `player_symbol` with the given weights.
pub fn eval_board(
    params: WeightedParameters,
    grid: Grid,
    eval_move: Coord,
    player_symbol: Cell,
) -> (score: i64)
    requires
        coord_in_bounds(eval_move),
    ensures
        score == eval_board_spec(params, grid, eval_move, player_symbol),
{
    let mut score: i64 = 0;
    let meta_x = eval_move.meta_x as usize;
    let x = eval_move.x as usize;

    let mut hypothetical_cells = grid.matrix[meta_x].matrix;
    hypothetical_cells[x] = player_symbol;
    assert(hypothetical_cells@ =~= grid.matrix[eval_move.meta_x as int].matrix@.update(
        eval_move.x as int,
        player_symbol,
    ));

    if is_win_in_cells(&hypothetical_cells, player_symbol) {
        score = score + convert(params.take_cell);
    }

    if eval_move.meta_x == 1 && eval_move.meta_y == 1 && eval_move.x == 1 && eval_move.y == 1 {
        score = score + convert(params.play_center);
    } else if (eval_move.x == 0 || eval_move.x == 2) && (eval_move.y == 0 || eval_move.y == 2) {
        score = score + convert(params.play_corner);
    } else {
        score = score + convert(params.play_sides);
    }

    score
}

} // verus!
