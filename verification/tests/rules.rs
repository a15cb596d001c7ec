use ultimate_ttt::defs::{cell_char, contains_coord, Cell, Coord, Grid};

fn coord(meta_x: u8, meta_y: u8, x: u8, y: u8) -> Coord {
    Coord { meta_x, meta_y, x, y }
}

/// Scenario: an empty board with no last move offers all 81 cells.
#[test]
fn empty_board_offers_all_81_cells() {
    let grid = Grid::default();
    let moves = grid.get_legal_moves(None);
    assert_eq!(moves.len(), 81);
    // Scan order: minigrids first, cells inside a minigrid second.
    assert_eq!(moves[0], coord(0, 0, 0, 0));
    assert_eq!(moves[1], coord(0, 0, 1, 0));
    assert_eq!(moves[2], coord(0, 0, 2, 0));
    assert_eq!(moves[3], coord(0, 0, 0, 1));
    assert_eq!(moves[9], coord(1, 0, 0, 0));
    assert_eq!(moves[80], coord(2, 2, 2, 2));
    // Every entry addresses an empty cell of an open minigrid.
    for m in &moves {
        let mg = (m.meta_x + 3 * m.meta_y) as usize;
        let cell = (m.x + 3 * m.y) as usize;
        assert_eq!(grid.matrix[mg].matrix[cell], Cell::Empty);
        assert_eq!(grid.completed_minigrid[mg], Cell::Empty);
    }
}

/// Scenario: completing a minigrid's first row records its winner.
#[test]
fn completing_a_row_marks_the_minigrid() {
    let mut grid = Grid::default();
    grid.set(coord(0, 0, 0, 0), Cell::Cross);
    grid.set(coord(0, 0, 1, 0), Cell::Cross);
    grid.update_grid();
    assert_eq!(grid.completed_minigrid[0], Cell::Empty);

    grid.set(coord(0, 0, 2, 0), Cell::Cross);
    grid.update_grid();
    assert_eq!(grid.completed_minigrid[0], Cell::Cross);
}

/// Scenario: a last move pointing at an already-won minigrid frees the
/// player to play in any open minigrid.
#[test]
fn completed_target_widens_legal_moves() {
    let mut grid = Grid::default();
    // Cross wins minigrid 0 on its first row.
    grid.set(coord(0, 0, 0, 0), Cell::Cross);
    grid.set(coord(0, 0, 1, 0), Cell::Cross);
    grid.set(coord(0, 0, 2, 0), Cell::Cross);
    grid.update_grid();
    assert_eq!(grid.completed_minigrid[0], Cell::Cross);

    // The last move's local cell (0, 0) points at minigrid 0.
    let moves = grid.get_legal_moves(Some(coord(2, 2, 0, 0)));
    // 81 cells, minus the 3 filled and 6 empty cells of the closed minigrid.
    assert_eq!(moves.len(), 72);
    for m in &moves {
        assert!(!(m.meta_x == 0 && m.meta_y == 0));
        let mg = (m.meta_x + 3 * m.meta_y) as usize;
        let cell = (m.x + 3 * m.y) as usize;
        assert_eq!(grid.matrix[mg].matrix[cell], Cell::Empty);
        assert_eq!(grid.completed_minigrid[mg], Cell::Empty);
    }
}

/// Scenario: a full minigrid with no winner stays undecided, and as a
/// forced target it yields no legal move at all.
#[test]
fn full_undecided_target_yields_no_moves() {
    let mut grid = Grid::default();
    // Fill minigrid 0 without any three-in-a-row:
    //   X O X
    //   O O X
    //   X X O
    let pattern = [
        Cell::Cross,
        Cell::Circle,
        Cell::Cross,
        Cell::Circle,
        Cell::Circle,
        Cell::Cross,
        Cell::Cross,
        Cell::Cross,
        Cell::Circle,
    ];
    for (i, &symbol) in pattern.iter().enumerate() {
        let x = (i % 3) as u8;
        let y = (i / 3) as u8;
        grid.set(coord(0, 0, x, y), symbol);
    }
    grid.update_grid();
    assert_eq!(grid.completed_minigrid[0], Cell::Empty);

    // The last move's local cell (0, 0) forces play into minigrid 0.
    let moves = grid.get_legal_moves(Some(coord(1, 1, 0, 0)));
    assert!(moves.is_empty());
}

/// An open forced target restricts play to that one minigrid.
#[test]
fn open_target_restricts_moves_to_it() {
    let grid = Grid::default();
    // Local cell (1, 1) points at minigrid 1 + 3 = 4.
    let moves = grid.get_legal_moves(Some(coord(0, 0, 1, 1)));
    assert_eq!(moves.len(), 9);
    for m in &moves {
        assert_eq!(m.meta_x, 1);
        assert_eq!(m.meta_y, 1);
    }
}

/// Outcome slots are append-only: once recorded, later writes into the
/// minigrid and later refreshes never change them.
#[test]
fn outcome_slots_are_append_only() {
    let mut grid = Grid::default();
    grid.set(coord(1, 0, 0, 0), Cell::Circle);
    grid.set(coord(1, 0, 1, 1), Cell::Circle);
    grid.set(coord(1, 0, 2, 2), Cell::Circle);
    grid.update_grid();
    assert_eq!(grid.completed_minigrid[1], Cell::Circle);

    // Fill the first row of the same minigrid with the other symbol; the
    // recorded outcome must not move, however often it is refreshed.
    grid.set(coord(1, 0, 0, 1), Cell::Cross);
    grid.set(coord(1, 0, 1, 0), Cell::Cross);
    grid.set(coord(1, 0, 0, 2), Cell::Cross);
    grid.update_grid();
    grid.update_grid();
    assert_eq!(grid.completed_minigrid[1], Cell::Circle);
}

/// `update_grid` applied twice changes nothing the second time.
#[test]
fn update_grid_is_idempotent() {
    let mut grid = Grid::default();
    grid.set(coord(0, 0, 0, 0), Cell::Cross);
    grid.set(coord(0, 0, 0, 1), Cell::Cross);
    grid.set(coord(0, 0, 0, 2), Cell::Cross);
    grid.update_grid();
    let once = grid;
    grid.update_grid();
    assert_eq!(grid, once);
}

/// `is_completed` sees a winner exactly when a line of outcome slots holds
/// one symbol three times; empty slots never make a line.
#[test]
fn winner_needs_a_full_line_of_outcomes() {
    fn win_minigrid(grid: &mut Grid, meta_x: u8, meta_y: u8, symbol: Cell) {
        grid.set(coord(meta_x, meta_y, 0, 0), symbol);
        grid.set(coord(meta_x, meta_y, 1, 0), symbol);
        grid.set(coord(meta_x, meta_y, 2, 0), symbol);
        grid.update_grid();
    }

    let mut grid = Grid::default();
    assert_eq!(grid.is_completed(), None);

    // Two in a meta-column is not enough.
    win_minigrid(&mut grid, 0, 0, Cell::Circle);
    win_minigrid(&mut grid, 0, 1, Cell::Circle);
    assert_eq!(grid.is_completed(), None);

    // A mixed line is not a win either.
    win_minigrid(&mut grid, 0, 2, Cell::Cross);
    assert_eq!(grid.is_completed(), None);

    // Completing the middle meta-column for Circle wins the match.
    win_minigrid(&mut grid, 1, 0, Cell::Circle);
    win_minigrid(&mut grid, 1, 1, Cell::Circle);
    win_minigrid(&mut grid, 1, 2, Cell::Circle);
    assert_eq!(grid.is_completed(), Some(Cell::Circle));
}

/// A diagonal of outcome slots wins like any other line.
#[test]
fn winner_on_the_diagonal() {
    let mut grid = Grid::default();
    for (mx, my) in [(0u8, 0u8), (1, 1), (2, 2)] {
        grid.set(coord(mx, my, 0, 1), Cell::Cross);
        grid.set(coord(mx, my, 1, 1), Cell::Cross);
        grid.set(coord(mx, my, 2, 1), Cell::Cross);
        grid.update_grid();
    }
    assert_eq!(grid.is_completed(), Some(Cell::Cross));
}

#[test]
fn cell_char_draws_each_symbol() {
    assert_eq!(cell_char(Cell::Empty), '.');
    assert_eq!(cell_char(Cell::Cross), 'X');
    assert_eq!(cell_char(Cell::Circle), 'O');
}

#[test]
fn contains_coord_compares_all_components() {
    let moves = vec![coord(0, 0, 1, 2), coord(2, 1, 0, 0)];
    assert!(contains_coord(&moves, coord(0, 0, 1, 2)));
    assert!(contains_coord(&moves, coord(2, 1, 0, 0)));
    assert!(!contains_coord(&moves, coord(0, 0, 2, 1)));
    assert!(!contains_coord(&moves, coord(1, 0, 1, 2)));
    assert!(!contains_coord(&Vec::new(), coord(0, 0, 0, 0)));
}

/// Boards compare structurally: equal cells and outcome slots, equal
/// boards.
#[test]
fn board_equality_is_structural() {
    let mut a = Grid::default();
    let mut b = Grid::default();
    assert_eq!(a, b);
    a.set(coord(1, 1, 1, 1), Cell::Cross);
    assert_ne!(a, b);
    b.set(coord(1, 1, 1, 1), Cell::Cross);
    assert_eq!(a, b);
}
