//! Board model and rules engine: cells, minigrids, the full board, move
//! coordinates, win detection and the forced-target legal-move rule.

use vstd::prelude::*;

verus! {

/// One cell of a minigrid: empty, or claimed by one of the two symbols.
#[derive(Clone, Copy, Debug, PartialEq, Eq, Hash, Structural)]
pub enum Cell {
    Empty,
    Cross,
    Circle,
}

/// A 3x3 grid of cells, indexed by `x + 3*y` with `x, y` in `[0, 3)`.
#[derive(Clone, Copy, Debug, PartialEq, Eq, Hash)]
pub struct Minigrid {
    pub matrix: [Cell; 9],
}

/// The full board: 9 minigrids indexed by `meta_x + 3*meta_y`, plus one
/// outcome slot per minigrid recording the symbol that has won it
/// (`Empty` = still open, or full without a winner).
#[derive(Clone, Copy, Debug, PartialEq, Eq, Hash)]
pub struct Grid {
    pub matrix: [Minigrid; 9],
    pub completed_minigrid: [Cell; 9],
}

/// A move address: `(meta_x, meta_y)` picks the minigrid, `(x, y)` the cell
/// inside it, each in `[0, 3)`.
#[derive(Clone, Copy, Debug, PartialEq, Eq, Hash, Structural)]
pub struct Coord {
    pub meta_x: u8,
    pub meta_y: u8,
    pub x: u8,
    pub y: u8,
}

/// Index of the minigrid a move addresses.
pub open spec fn mg_index(c: Coord) -> int {
    c.meta_x + 3 * c.meta_y
}

/// Index, inside its minigrid, of the cell a move addresses.
pub open spec fn cell_index(c: Coord) -> int {
    c.x + 3 * c.y
}

/// All four components of a move lie in `[0, 3)`.
pub open spec fn coord_in_bounds(c: Coord) -> bool {
    c.meta_x < 3 && c.meta_y < 3 && c.x < 3 && c.y < 3
}

/// The cell of `g` addressed by minigrid index `m` and cell index `i`.
pub open spec fn cell_at(g: Grid, m: int, i: int) -> Cell
    recommends
        0 <= m < 9,
        0 <= i < 9,
{
    g.matrix[m].matrix[i]
}

/// The three cell indices of line `l` of a 3x3 grid: three rows, three
/// columns, two diagonals, in that order.
pub open spec fn line(l: int) -> (int, int, int) {
    if l == 0 {
        (0, 1, 2)
    } else if l == 1 {
        (3, 4, 5)
    } else if l == 2 {
        (6, 7, 8)
    } else if l == 3 {
        (0, 3, 6)
    } else if l == 4 {
        (1, 4, 7)
    } else if l == 5 {
        (2, 5, 8)
    } else if l == 6 {
        (0, 4, 8)
    } else {
        (2, 4, 6)
    }
}

/// Line `l` of `cells` holds the same non-empty symbol three times.
pub open spec fn line_won(cells: Seq<Cell>, l: int) -> bool
    recommends
        cells.len() == 9,
        0 <= l < 8,
{
    &&& cells[line(l).0] != Cell::Empty
    &&& cells[line(l).0] == cells[line(l).1]
    &&& cells[line(l).1] == cells[line(l).2]
}

/// The winning symbol of a 3x3 arrangement of cells, scanning the 8 lines in
/// a fixed order and taking the first that is won; `None` when no line is won.
pub open spec fn grid_winner(cells: Seq<Cell>) -> Option<Cell>
    recommends
        cells.len() == 9,
{
    if line_won(cells, 0) {
        Some(cells[0])
    } else if line_won(cells, 1) {
        Some(cells[3])
    } else if line_won(cells, 2) {
        Some(cells[6])
    } else if line_won(cells, 3) {
        Some(cells[0])
    } else if line_won(cells, 4) {
        Some(cells[1])
    } else if line_won(cells, 5) {
        Some(cells[2])
    } else if line_won(cells, 6) {
        Some(cells[0])
    } else if line_won(cells, 7) {
        Some(cells[2])
    } else {
        None
    }
}

/// The winning symbol as a cell value: `Empty` when no line is won.
pub open spec fn winner_or_empty(cells: Seq<Cell>) -> Cell {
    match grid_winner(cells) {
        Some(s) => s,
        None => Cell::Empty,
    }
}

/// `grid_winner` names a symbol only when one of the 8 lines holds that same
/// non-empty symbol three times; empty slots never make a line.
pub proof fn lemma_winner_has_line(cells: Seq<Cell>, s: Cell)
    requires
        cells.len() == 9,
        grid_winner(cells) == Some(s),
    ensures
        s != Cell::Empty,
        exists|l: int|
            0 <= l < 8 && #[trigger] line_won(cells, l) && cells[line(l).0] == s && cells[line(
                l,
            ).1] == s && cells[line(l).2] == s,
{
    if line_won(cells, 0) {
        assert(line_won(cells, 0) && cells[line(0).0] == s && cells[line(0).1] == s && cells[line(
            0,
        ).2] == s);
    } else if line_won(cells, 1) {
        assert(line_won(cells, 1) && cells[line(1).0] == s && cells[line(1).1] == s && cells[line(
            1,
        ).2] == s);
    } else if line_won(cells, 2) {
        assert(line_won(cells, 2) && cells[line(2).0] == s && cells[line(2).1] == s && cells[line(
            2,
        ).2] == s);
    } else if line_won(cells, 3) {
        assert(line_won(cells, 3) && cells[line(3).0] == s && cells[line(3).1] == s && cells[line(
            3,
        ).2] == s);
    } else if line_won(cells, 4) {
        assert(line_won(cells, 4) && cells[line(4).0] == s && cells[line(4).1] == s && cells[line(
            4,
        ).2] == s);
    } else if line_won(cells, 5) {
        assert(line_won(cells, 5) && cells[line(5).0] == s && cells[line(5).1] == s && cells[line(
            5,
        ).2] == s);
    } else if line_won(cells, 6) {
        assert(line_won(cells, 6) && cells[line(6).0] == s && cells[line(6).1] == s && cells[line(
            6,
        ).2] == s);
    } else {
        assert(line_won(cells, 7) && cells[line(7).0] == s && cells[line(7).1] == s && cells[line(
            7,
        ).2] == s);
    }
}

/// The minigrid the next move is forced into: the one the last move's local
/// cell points at, as long as that minigrid's outcome slot is still open.
/// `None` on the first move, or when the pointed-at minigrid is decided.
pub open spec fn forced_target(g: Grid, last_move: Option<Coord>) -> Option<int> {
    match last_move {
        Some(lm) => {
            if g.completed_minigrid[cell_index(lm)] == Cell::Empty {
                Some(cell_index(lm))
            } else {
                None
            }
        },
        None => None,
    }
}

/// Minigrid `m` may receive the next move: its outcome slot is open, and it
/// is the forced target when there is one.
pub open spec fn mini_allowed(g: Grid, last_move: Option<Coord>, m: int) -> bool {
    &&& g.completed_minigrid[m] == Cell::Empty
    &&& match forced_target(g, last_move) {
        Some(t) => m == t,
        None => true,
    }
}

/// `c` is a legal move on `g` after `last_move`: it addresses an empty cell
/// of an allowed minigrid.
pub open spec fn move_legal(g: Grid, last_move: Option<Coord>, c: Coord) -> bool {
    &&& coord_in_bounds(c)
    &&& mini_allowed(g, last_move, mg_index(c))
    &&& cell_at(g, mg_index(c), cell_index(c)) == Cell::Empty
}

/// Scan position of a move: minigrids first, cells inside a minigrid second.
pub open spec fn scan_key(c: Coord) -> int {
    9 * mg_index(c) + cell_index(c)
}

/// `s` holds exactly the legal moves of `g` after `last_move`, each once, in
/// strictly increasing scan order.
pub open spec fn is_legal_move_seq(g: Grid, last_move: Option<Coord>, s: Seq<Coord>) -> bool {
    &&& forall|i: int| 0 <= i < s.len() ==> move_legal(g, last_move, #[trigger] s[i])
    &&& forall|c: Coord| #[trigger] move_legal(g, last_move, c) ==> s.contains(c)
    &&& forall|i: int, j: int| 0 <= i < j < s.len() ==> scan_key(s[i]) < scan_key(s[j])
}

/// Every entry of a legal-move sequence addresses an empty cell of a
/// minigrid whose outcome slot is open, and lies inside the forced target
/// minigrid when one exists.
pub proof fn lemma_legal_moves_sound(g: Grid, last_move: Option<Coord>, s: Seq<Coord>, i: int)
    requires
        is_legal_move_seq(g, last_move, s),
        0 <= i < s.len(),
    ensures
        coord_in_bounds(s[i]),
        g.completed_minigrid[mg_index(s[i])] == Cell::Empty,
        cell_at(g, mg_index(s[i]), cell_index(s[i])) == Cell::Empty,
        forced_target(g, last_move) matches Some(t) ==> mg_index(s[i]) == t,
{
    assert(move_legal(g, last_move, s[i]));
}

/// `post` is `pre` with `s` written into the empty cell addressed by `c`,
/// outcome slots untouched: the relation `Grid::set` establishes.
pub open spec fn set_step(pre: Grid, post: Grid, c: Coord, s: Cell) -> bool {
    &&& coord_in_bounds(c)
    &&& cell_at(pre, mg_index(c), cell_index(c)) == Cell::Empty
    &&& forall|m: int, i: int|
        0 <= m < 9 && 0 <= i < 9 ==> cell_at(post, m, i) == (
            if m == mg_index(c) && i == cell_index(c) {
                s
            } else {
                cell_at(pre, m, i)
            }
        )
    &&& post.completed_minigrid@ == pre.completed_minigrid@
}

/// `post` is `pre` with its outcome slots recomputed, cells untouched: the
/// relation `Grid::update_grid` establishes. An open slot whose minigrid has
/// a won line receives that line's symbol; a decided slot keeps its value.
pub open spec fn refresh_step(pre: Grid, post: Grid) -> bool {
    &&& forall|m: int, i: int|
        0 <= m < 9 && 0 <= i < 9 ==> cell_at(post, m, i) == cell_at(pre, m, i)
    &&& forall|m: int|
        0 <= m < 9 ==> post.completed_minigrid[m] == (
            if pre.completed_minigrid[m] != Cell::Empty {
                pre.completed_minigrid[m]
            } else {
                winner_or_empty(pre.matrix[m].matrix@)
            }
        )
}

/// One rules-engine operation: a cell written, or the outcomes recomputed.
pub open spec fn rules_step(pre: Grid, post: Grid) -> bool {
    (exists|c: Coord, s: Cell| set_step(pre, post, c, s)) || refresh_step(pre, post)
}

/// The boards `h[0], h[1], ...` follow from one another by rules-engine
/// operations.
pub open spec fn rules_trace(h: Seq<Grid>) -> bool {
    forall|k: int| 0 <= k < h.len() - 1 ==> rules_step(#[trigger] h[k], h[k + 1])
}

/// Every cell of `g` is empty and every outcome slot open.
pub open spec fn is_empty_grid(g: Grid) -> bool {
    &&& forall|m: int, i: int| 0 <= m < 9 && 0 <= i < 9 ==> cell_at(g, m, i) == Cell::Empty
    &&& forall|m: int| 0 <= m < 9 ==> g.completed_minigrid[m] == Cell::Empty
}

/// No move at all is legal on `g` after `last_move`.
pub open spec fn no_moves_left(g: Grid, last_move: Option<Coord>) -> bool {
    &&& (last_move matches Some(c) ==> coord_in_bounds(c))
    &&& forall|c: Coord| !#[trigger] move_legal(g, last_move, c)
}

/// A rules trace stays one when a board is appended that follows from its
/// last board by one operation.
pub proof fn lemma_trace_push(h: Seq<Grid>, g: Grid)
    requires
        rules_trace(h),
        h.len() >= 1,
        rules_step(h[h.len() - 1], g),
    ensures
        rules_trace(h.push(g)),
{
    let h2 = h.push(g);
    assert forall|k: int| 0 <= k < h2.len() - 1 implies rules_step(#[trigger] h2[k], h2[k + 1]) by {
        if k < h.len() - 1 {
            assert(h2[k] == h[k]);
            assert(h2[k + 1] == h[k + 1]);
            assert(rules_step(h[k], h[k + 1]));
        } else {
            assert(h2[k] == h[h.len() - 1]);
            assert(h2[k + 1] == g);
        }
    }
}

/// A single rules-engine operation never rewrites a decided outcome slot.
pub proof fn lemma_step_keeps_outcome(pre: Grid, post: Grid, m: int)
    requires
        rules_step(pre, post),
        0 <= m < 9,
        pre.completed_minigrid[m] != Cell::Empty,
    ensures
        post.completed_minigrid[m] == pre.completed_minigrid[m],
{
}

/// Outcome slots are append-only: along any chain of rules-engine
/// operations, a slot that is decided at the start holds the same symbol in
/// every later board of the chain.
pub proof fn lemma_outcome_append_only(h: Seq<Grid>, m: int, k: int)
    requires
        rules_trace(h),
        0 <= m < 9,
        0 <= k < h.len(),
        h[0].completed_minigrid[m] != Cell::Empty,
    ensures
        h[k].completed_minigrid[m] == h[0].completed_minigrid[m],
    decreases k,
{
    if k > 0 {
        lemma_outcome_append_only(h, m, k - 1);
        lemma_step_keeps_outcome(h[k - 1], h[k], m);
    }
}

/// Number of empty cells among the first `n` entries of `cells`.
pub open spec fn empties_upto(cells: Seq<Cell>, n: int) -> int
    decreases n,
{
    if n <= 0 {
        0
    } else {
        empties_upto(cells, n - 1) + if cells[n - 1] == Cell::Empty {
            1int
        } else {
            0int
        }
    }
}

/// Number of empty cells in the first `m` minigrids of `g`.
pub open spec fn grid_empties_upto(g: Grid, m: int) -> int
    decreases m,
{
    if m <= 0 {
        0
    } else {
        grid_empties_upto(g, m - 1) + empties_upto(g.matrix[m - 1].matrix@, 9)
    }
}

/// Number of empty cells on the whole board.
pub open spec fn grid_empties(g: Grid) -> int {
    grid_empties_upto(g, 9)
}

proof fn lemma_empties_bounds(cells: Seq<Cell>, n: int)
    requires
        0 <= n,
    ensures
        0 <= empties_upto(cells, n) <= n,
    decreases n,
{
    if n > 0 {
        lemma_empties_bounds(cells, n - 1);
    }
}

proof fn lemma_empties_update(cells: Seq<Cell>, j: int, v: Cell, n: int)
    requires
        0 <= j < cells.len(),
        n <= cells.len(),
    ensures
        empties_upto(cells.update(j, v), n) == empties_upto(cells, n) + if j < n {
            (if v == Cell::Empty {
                1int
            } else {
                0int
            }) - (if cells[j] == Cell::Empty {
                1int
            } else {
                0int
            })
        } else {
            0int
        },
    decreases n,
{
    if n > 0 {
        lemma_empties_update(cells, j, v, n - 1);
    }
}


proof fn lemma_empties_all_empty(cells: Seq<Cell>, n: int)
    requires
        0 <= n,
        forall|i: int| 0 <= i < n ==> cells[i] == Cell::Empty,
    ensures
        empties_upto(cells, n) == n,
    decreases n,
{
    if n > 0 {
        lemma_empties_all_empty(cells, n - 1);
    }
}

proof fn lemma_same_minigrid_cells(pre: Grid, post: Grid, t: int)
    requires
        0 <= t < 9,
        forall|i: int| 0 <= i < 9 ==> cell_at(post, t, i) == cell_at(pre, t, i),
    ensures
        post.matrix[t].matrix@ == pre.matrix[t].matrix@,
{
    assert forall|i: int| 0 <= i < 9 implies post.matrix[t].matrix@[i]
        == pre.matrix[t].matrix@[i] by {
        assert(cell_at(post, t, i) == cell_at(pre, t, i));
    }
    assert(post.matrix[t].matrix@ =~= pre.matrix[t].matrix@);
}

proof fn lemma_grid_empties_set_upto(pre: Grid, post: Grid, c: Coord, s: Cell, m: int)
    requires
        set_step(pre, post, c, s),
        s != Cell::Empty,
        0 <= m <= 9,
    ensures
        grid_empties_upto(post, m) == grid_empties_upto(pre, m) - if mg_index(c) < m {
            1int
        } else {
            0int
        },
    decreases m,
{
    if m > 0 {
        lemma_grid_empties_set_upto(pre, post, c, s, m - 1);
        let t = mg_index(c);
        if m - 1 == t {
            assert(post.matrix[t].matrix@ =~= pre.matrix[t].matrix@.update(cell_index(c), s)) by {
                assert forall|i: int| 0 <= i < 9 implies post.matrix[t].matrix@[i]
                    == pre.matrix[t].matrix@.update(cell_index(c), s)[i] by {
                    assert(cell_at(post, t, i) == if i == cell_index(c) {
                        s
                    } else {
                        cell_at(pre, t, i)
                    });
                }
            }
            lemma_empties_update(pre.matrix[t].matrix@, cell_index(c), s, 9);
        } else {
            lemma_same_minigrid_cells(pre, post, m - 1);
        }
    }
}

/// Writing a symbol into an empty cell lowers the board's empty-cell count
/// by exactly one.
pub proof fn lemma_grid_empties_set(pre: Grid, post: Grid, c: Coord, s: Cell)
    requires
        set_step(pre, post, c, s),
        s != Cell::Empty,
    ensures
        grid_empties(post) == grid_empties(pre) - 1,
{
    lemma_grid_empties_set_upto(pre, post, c, s, 9);
}

/// Recomputing the outcome slots leaves the empty-cell count unchanged.
pub proof fn lemma_grid_empties_refresh(pre: Grid, post: Grid)
    requires
        refresh_step(pre, post),
    ensures
        grid_empties(post) == grid_empties(pre),
{
    lemma_grid_empties_refresh_upto(pre, post, 9);
}

proof fn lemma_grid_empties_refresh_upto(pre: Grid, post: Grid, m: int)
    requires
        refresh_step(pre, post),
        0 <= m <= 9,
    ensures
        grid_empties_upto(post, m) == grid_empties_upto(pre, m),
    decreases m,
{
    if m > 0 {
        lemma_grid_empties_refresh_upto(pre, post, m - 1);
        lemma_same_minigrid_cells(pre, post, m - 1);
    }
}

/// The empty-cell count of a board prefix lies between 0 and 9 cells per
/// minigrid.
pub proof fn lemma_grid_empties_bounds(g: Grid, m: int)
    requires
        0 <= m <= 9,
    ensures
        0 <= grid_empties_upto(g, m) <= 9 * m,
    decreases m,
{
    if m > 0 {
        lemma_grid_empties_bounds(g, m - 1);
        lemma_empties_bounds(g.matrix[m - 1].matrix@, 9);
    }
}



/// An all-empty board has 81 empty cells.
pub proof fn lemma_grid_empties_all_empty(g: Grid)
    requires
        forall|m: int, i: int| 0 <= m < 9 && 0 <= i < 9 ==> cell_at(g, m, i) == Cell::Empty,
    ensures
        grid_empties(g) == 81,
{
    lemma_grid_empties_all_empty_upto(g, 9);
}

proof fn lemma_grid_empties_all_empty_upto(g: Grid, m: int)
    requires
        0 <= m <= 9,
        forall|mm: int, i: int| 0 <= mm < 9 && 0 <= i < 9 ==> cell_at(g, mm, i) == Cell::Empty,
    ensures
        grid_empties_upto(g, m) == 9 * m,
    decreases m,
{
    if m > 0 {
        lemma_grid_empties_all_empty_upto(g, m - 1);
        let t = m - 1;
        assert forall|i: int| 0 <= i < 9 implies g.matrix[t].matrix@[i] == Cell::Empty by {
            assert(cell_at(g, t, i) == Cell::Empty);
        }
        lemma_empties_all_empty(g.matrix[t].matrix@, 9);
    }
}

impl Default for Minigrid {
    /// An all-empty minigrid.
    fn default() -> (r: Minigrid)
        ensures
            forall|i: int| 0 <= i < 9 ==> r.matrix[i] == Cell::Empty,
    {
        Minigrid { matrix: [Cell::Empty; 9] }
    }
}

impl Default for Grid {
    /// An all-empty board with every outcome slot still open.
    fn default() -> (r: Grid)
        ensures
            is_empty_grid(r),
    {
        Grid { matrix: [Minigrid { matrix: [Cell::Empty; 9] }; 9], completed_minigrid: [Cell::Empty; 9] }
    }
}

impl Minigrid {
    /// The symbol held three times on the line through cells `v1`, `v2`,
    /// `v3`, if those cells agree and are not empty.
    fn check(self, v1: usize, v2: usize, v3: usize) -> (r: Option<Cell>)
        requires
            v1 < 9,
            v2 < 9,
            v3 < 9,
        ensures
            r == (if self.matrix[v1 as int] != Cell::Empty && self.matrix[v1 as int]
                == self.matrix[v2 as int] && self.matrix[v2 as int] == self.matrix[v3 as int] {
                Some(self.matrix[v1 as int])
            } else {
                None::<Cell>
            }),
    {
        if self.matrix[v1] != Cell::Empty && self.matrix[v1] == self.matrix[v2]
            && self.matrix[v2] == self.matrix[v3] {
            return Some(self.matrix[v1]);
        }
        None
    }

    /// The winning symbol of this minigrid, if one of its 8 lines is won.
    fn winner(self) -> (r: Option<Cell>)
        ensures
            r == grid_winner(self.matrix@),
    {
        let r0 = self.check(0, 1, 2);
        if r0.is_some() {
            return r0;
        }
        let r1 = self.check(3, 4, 5);
        if r1.is_some() {
            return r1;
        }
        let r2 = self.check(6, 7, 8);
        if r2.is_some() {
            return r2;
        }
        let r3 = self.check(0, 3, 6);
        if r3.is_some() {
            return r3;
        }
        let r4 = self.check(1, 4, 7);
        if r4.is_some() {
            return r4;
        }
        let r5 = self.check(2, 5, 8);
        if r5.is_some() {
            return r5;
        }
        let r6 = self.check(0, 4, 8);
        if r6.is_some() {
            return r6;
        }
        self.check(2, 4, 6)
    }
}

impl Grid {
    /// Write `symbol` into the cell addressed by `coord`. Callers ensure the
    /// cell is currently empty; the outcome slots are untouched.
    pub fn set(&mut self, coord: Coord, symbol: Cell)
        requires
            coord_in_bounds(coord),
            cell_at(*old(self), mg_index(coord), cell_index(coord)) == Cell::Empty,
        ensures
            forall|m: int, i: int|
                0 <= m < 9 && 0 <= i < 9 ==> cell_at(*final(self), m, i) == (
                    if m == mg_index(coord) && i == cell_index(coord) {
                        symbol
                    } else {
                        cell_at(*old(self), m, i)
                    }
                ),
            final(self).completed_minigrid@ == old(self).completed_minigrid@,
            set_step(*old(self), *final(self), coord, symbol),
    {
        let minigrid_pos = (coord.meta_x + 3 * coord.meta_y) as usize;
        let grid_pos = (coord.x + 3 * coord.y) as usize;
        let mut mg = self.matrix[minigrid_pos];
        mg.matrix[grid_pos] = symbol;
        self.matrix[minigrid_pos] = mg;
    }

    /// Recompute the outcome slots: a minigrid with a won line whose slot is
    /// still open gets that line's symbol recorded. A slot once set is never
    /// rewritten, and a minigrid that fills with no won line stays `Empty`.
    pub fn update_grid(&mut self)
        ensures
            forall|m: int, i: int|
                0 <= m < 9 && 0 <= i < 9 ==> cell_at(*final(self), m, i) == cell_at(
                    *old(self),
                    m,
                    i,
                ),
            forall|m: int|
                0 <= m < 9 ==> final(self).completed_minigrid[m] == (
                    if old(self).completed_minigrid[m] != Cell::Empty {
                        old(self).completed_minigrid[m]
                    } else {
                        winner_or_empty(old(self).matrix[m].matrix@)
                    }
                ),
            refresh_step(*old(self), *final(self)),
    {
        let mut index: usize = 0;
        while index < 9
            invariant
                index <= 9,
                forall|m: int, i: int|
                    0 <= m < 9 && 0 <= i < 9 ==> cell_at(*self, m, i) == cell_at(*old(self), m, i),
                forall|m: int|
                    0 <= m < index ==> self.completed_minigrid[m] == (
                        if old(self).completed_minigrid[m] != Cell::Empty {
                            old(self).completed_minigrid[m]
                        } else {
                            winner_or_empty(old(self).matrix[m].matrix@)
                        }
                    ),
                forall|m: int|
                    index <= m < 9 ==> self.completed_minigrid[m] == old(
                        self,
                    ).completed_minigrid[m],
                self.matrix@ == old(self).matrix@,
            decreases 9 - index,
        {
            if self.completed_minigrid[index] == Cell::Empty {
                let minigrid = self.matrix[index];
                if let Some(winner_cell) = minigrid.winner() {
                    self.completed_minigrid[index] = winner_cell;
                }
            }
            index = index + 1;
        }
    }

    /// The symbol held three times on the line of outcome slots `v1`, `v2`,
    /// `v3`, if those slots agree and are not empty.
    fn check_completed(self, v1: usize, v2: usize, v3: usize) -> (r: Option<Cell>)
        requires
            v1 < 9,
            v2 < 9,
            v3 < 9,
        ensures
            r == (if self.completed_minigrid[v1 as int] != Cell::Empty
                && self.completed_minigrid[v1 as int] == self.completed_minigrid[v2 as int]
                && self.completed_minigrid[v2 as int] == self.completed_minigrid[v3 as int] {
                Some(self.completed_minigrid[v1 as int])
            } else {
                None::<Cell>
            }),
    {
        if self.completed_minigrid[v1] != Cell::Empty && self.completed_minigrid[v1]
            == self.completed_minigrid[v2] && self.completed_minigrid[v2]
            == self.completed_minigrid[v3] {
            return Some(self.completed_minigrid[v1]);
        }
        None
    }

    /// All legal moves under the forced-target rule, in minigrid-then-cell
    /// scan order. With no last move, every empty cell of every open minigrid
    /// is playable; with a last move whose pointed-at minigrid is open, only
    /// that minigrid's empty cells are; when it is already decided, play
    /// widens again to every open minigrid. May be empty: a full-but-
    /// undecided forced target yields no moves.
    pub fn get_legal_moves(&self, last_move: Option<Coord>) -> (moves: Vec<Coord>)
        requires
            last_move matches Some(lm) ==> coord_in_bounds(lm),
        ensures
            is_legal_move_seq(*self, last_move, moves@),
    {
        let mut moves: Vec<Coord> = Vec::new();
        let mut m: usize = 0;
        while m < 9
            invariant
                m <= 9,
                last_move matches Some(lm) ==> coord_in_bounds(lm),
                forall|i: int|
                    0 <= i < moves@.len() ==> move_legal(*self, last_move, #[trigger] moves@[i]),
                forall|c: Coord|
                    #[trigger] move_legal(*self, last_move, c) && mg_index(c) < m
                        ==> moves@.contains(c),
                forall|i: int| 0 <= i < moves@.len() ==> scan_key(#[trigger] moves@[i]) < 9 * m,
                forall|i: int, j: int|
                    0 <= i < j < moves@.len() ==> scan_key(moves@[i]) < scan_key(moves@[j]),
            decreases 9 - m,
        {
            let allowed = self.completed_minigrid[m] == Cell::Empty && (match last_move {
                Some(lm) => {
                    let target = (lm.x + 3 * lm.y) as usize;
                    self.completed_minigrid[target] != Cell::Empty || target == m
                },
                None => true,
            });
            assert(allowed == mini_allowed(*self, last_move, m as int));
            if allowed {
                let minigrid = self.matrix[m];
                let mut i: usize = 0;
                while i < 9
                    invariant
                        i <= 9,
                        m < 9,
                        last_move matches Some(lm) ==> coord_in_bounds(lm),
                        mini_allowed(*self, last_move, m as int),
                        minigrid == self.matrix[m as int],
                        forall|j: int|
                            0 <= j < moves@.len() ==> move_legal(
                                *self,
                                last_move,
                                #[trigger] moves@[j],
                            ),
                        forall|c: Coord|
                            #[trigger] move_legal(*self, last_move, c) && mg_index(c) < m
                                ==> moves@.contains(c),
                        forall|c: Coord|
                            #[trigger] move_legal(*self, last_move, c) && mg_index(c) == m
                                && cell_index(c) < i ==> moves@.contains(c),
                        forall|j: int|
                            0 <= j < moves@.len() ==> scan_key(#[trigger] moves@[j]) < 9 * m + i,
                        forall|j: int, k: int|
                            0 <= j < k < moves@.len() ==> scan_key(moves@[j]) < scan_key(moves@[k]),
                    decreases 9 - i,
                {
                    if minigrid.matrix[i] == Cell::Empty {
                        let c = Coord {
                            meta_x: (m % 3) as u8,
                            meta_y: (m / 3) as u8,
                            x: (i % 3) as u8,
                            y: (i / 3) as u8,
                        };
                        assert(mg_index(c) == m && cell_index(c) == i);
                        assert(move_legal(*self, last_move, c));
                        let ghost old_moves = moves@;
                        moves.push(c);
                        proof {
                            assert forall|cc: Coord|
                                #[trigger] move_legal(*self, last_move, cc) && mg_index(cc) == m
                                    && cell_index(cc) < i + 1 implies moves@.contains(cc) by {
                                if cell_index(cc) < i {
                                    let k = choose|k: int|
                                        0 <= k < old_moves.len() && old_moves[k] == cc;
                                    assert(moves@[k] == cc);
                                } else {
                                    assert(cc.meta_x == mg_index(cc) % 3 && cc.meta_y == mg_index(
                                        cc,
                                    ) / 3);
                                    assert(cc.x == cell_index(cc) % 3 && cc.y == cell_index(cc)
                                        / 3);
                                    assert(cc == c);
                                    assert(moves@[moves@.len() - 1] == cc);
                                }
                            }
                            assert forall|cc: Coord|
                                #[trigger] move_legal(*self, last_move, cc) && mg_index(cc)
                                    < m implies moves@.contains(cc) by {
                                let k = choose|k: int|
                                    0 <= k < old_moves.len() && old_moves[k] == cc;
                                assert(moves@[k] == cc);
                            }
                        }
                    }
                    i = i + 1;
                }
                assert forall|c: Coord|
                    #[trigger] move_legal(*self, last_move, c) && mg_index(c) < m
                        + 1 implies moves@.contains(c) by {
                    assert(mg_index(c) < m || (mg_index(c) == m && cell_index(c) < 9));
                }
            } else {
                assert forall|c: Coord|
                    #[trigger] move_legal(*self, last_move, c) && mg_index(c) < m
                        + 1 implies moves@.contains(c) by {
                    assert(!mini_allowed(*self, last_move, m as int));
                    assert(mg_index(c) < m);
                }
            }
            m = m + 1;
        }
        assert forall|c: Coord| #[trigger] move_legal(*self, last_move, c) implies moves@.contains(
            c,
        ) by {
            assert(mg_index(c) < 9);
        }
        moves
    }

    /// The symbol that has won the match, testing the outcome slots as a 3x3
    /// board with the same 8-line rule; `None` while no line of slots is won.
    pub fn is_completed(self) -> (r: Option<Cell>)
        ensures
            r == grid_winner(self.completed_minigrid@),
    {
        let r0 = self.check_completed(0, 1, 2);
        if r0.is_some() {
            return r0;
        }
        let r1 = self.check_completed(3, 4, 5);
        if r1.is_some() {
            return r1;
        }
        let r2 = self.check_completed(6, 7, 8);
        if r2.is_some() {
            return r2;
        }
        let r3 = self.check_completed(0, 3, 6);
        if r3.is_some() {
            return r3;
        }
        let r4 = self.check_completed(1, 4, 7);
        if r4.is_some() {
            return r4;
        }
        let r5 = self.check_completed(2, 5, 8);
        if r5.is_some() {
            return r5;
        }
        let r6 = self.check_completed(0, 4, 8);
        if r6.is_some() {
            return r6;
        }
        self.check_completed(2, 4, 6)
    }
}

/// Outcome of one match: the winning symbol if any, how many turns were
/// played, and the final board.
#[derive(Clone, Copy, Debug)]
pub struct MatchStats {
    pub winner: Option<Cell>,
    pub number_turns: u8,
    pub final_grid: Grid,
}

/// A move-selecting strategy. `select_move` receives the current board, the
/// precomputed legal moves for it (non-empty, in scan order) and the move
/// that produced the board, and must pick one of those legal moves.
/// Implementations compiled outside this crate are trusted to meet the
/// contract; the match driver checks the list is non-empty before calling.
pub trait Player {
    /// Called once before a match begins.
    fn reset(&self);

    /// Pick one of the given legal moves.
    fn select_move(&self, grid: Grid, legal_moves: Vec<Coord>, last_move: Option<Coord>) -> (r:
        Coord)
        requires
            is_legal_move_seq(grid, last_move, legal_moves@),
            legal_moves@.len() > 0,
            last_move matches Some(lm) ==> coord_in_bounds(lm),
        ensures
            legal_moves@.contains(r),
    ;
}

/// Run one match between `a` (playing Cross, moving first) and `b` (playing
/// Circle): alternate their moves, refresh the outcomes after each, and stop
/// on a won board or when no legal move is left (a draw). The reported
/// winner is exactly the winner the final board shows, and a match lasts at
/// most 81 turns.
pub fn play_match<A: Player + Copy, B: Player + Copy>(a: A, b: B) -> (stats: MatchStats)
    ensures
        stats.winner == grid_winner(stats.final_grid.completed_minigrid@),
        stats.number_turns <= 81,
        exists|h: Seq<Grid>|
            #![auto]
            h.len() >= 1 && is_empty_grid(h[0]) && h[h.len() - 1] == stats.final_grid
                && rules_trace(h),
        stats.winner is None ==> exists|lm: Option<Coord>| no_moves_left(stats.final_grid, lm),
{
    a.reset();
    b.reset();

    let mut grid: Grid = Default::default();
    proof {
        lemma_grid_empties_all_empty(grid);
    }
    let ghost mut history: Seq<Grid> = Seq::empty().push(grid);
    let mut last_move: Option<Coord> = None;
    let mut current_player = Cell::Cross;
    let mut number_turns: u8 = 0;

    loop
        invariant
            current_player == Cell::Cross || current_player == Cell::Circle,
            grid_winner(grid.completed_minigrid@) is None,
            number_turns + grid_empties(grid) == 81,
            last_move matches Some(lm) ==> coord_in_bounds(lm),
            history.len() >= 1,
            is_empty_grid(history[0]),
            history[history.len() - 1] == grid,
            rules_trace(history),
        decreases grid_empties(grid),
    {
        proof {
            lemma_grid_empties_bounds(grid, 9);
        }
        let legal_moves = grid.get_legal_moves(last_move);
        if legal_moves.len() == 0 {
            proof {
                assert forall|c: Coord| !#[trigger] move_legal(grid, last_move, c) by {
                    if move_legal(grid, last_move, c) {
                        assert(legal_moves@.contains(c));
                    }
                }
                assert(no_moves_left(grid, last_move));
            }
            return MatchStats { winner: None, number_turns, final_grid: grid };
        }

        let coord = match current_player {
            Cell::Cross => a.select_move(grid, legal_moves, last_move),
            _ => b.select_move(grid, legal_moves, last_move),
        };
        proof {
            let k = choose|k: int| 0 <= k < legal_moves@.len() && legal_moves@[k] == coord;
            assert(move_legal(grid, last_move, legal_moves@[k]));
        }

        let ghost pre = grid;
        grid.set(coord, current_player);
        proof {
            lemma_grid_empties_set(pre, grid, coord, current_player);
            assert(rules_step(pre, grid));
            lemma_trace_push(history, grid);
            history = history.push(grid);
        }
        let ghost mid = grid;
        grid.update_grid();
        proof {
            lemma_grid_empties_refresh(mid, grid);
            lemma_grid_empties_bounds(grid, 9);
            assert(rules_step(mid, grid));
            lemma_trace_push(history, grid);
            history = history.push(grid);
        }
        last_move = Some(coord);

        if let Some(winner_symbol) = grid.is_completed() {
            return MatchStats { winner: Some(winner_symbol), number_turns, final_grid: grid };
        }

        current_player = if current_player == Cell::Cross {
            Cell::Circle
        } else {
            Cell::Cross
        };
        number_turns = number_turns + 1;
    }
}

/// The character a cell is drawn with: `.` empty, `X` Cross, `O` Circle.
pub fn cell_char(c: Cell) -> (r: char)
    ensures
        r == (match c {
            Cell::Empty => '.',
            Cell::Cross => 'X',
            Cell::Circle => 'O',
        }),
{
    match c {
        Cell::Empty => '.',
        Cell::Cross => 'X',
        Cell::Circle => 'O',
    }
}

/// Whether `coord` occurs in `moves`, comparing all four components.
pub fn contains_coord(moves: &Vec<Coord>, coord: Coord) -> (r: bool)
    ensures
        r == moves@.contains(coord),
{
    let mut k: usize = 0;
    while k < moves.len()
        invariant
            k <= moves@.len(),
            forall|j: int| 0 <= j < k ==> moves@[j] != coord,
        decreases moves@.len() - k,
    {
        if moves[k] == coord {
            assert(moves@[k as int] == coord);
            return true;
        }
        k = k + 1;
    }
    proof {
        if moves@.contains(coord) {
            let j = choose|j: int| 0 <= j < moves@.len() && moves@[j] == coord;
            assert(moves@[j] != coord);
        }
    }
    false
}

} // verus!
