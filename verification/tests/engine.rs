use ultimate_ttt::defs::{play_match, Cell, Coord, Grid, Player};
use ultimate_ttt::human::HumanPlayer;
use ultimate_ttt::mcts::MCTSPlayer;
use ultimate_ttt::weighted::{
    eval_board, has_completable_two_in_row, is_win_in_cells, WeightedParameters, WeightedPlayer,
};

fn coord(meta_x: u8, meta_y: u8, x: u8, y: u8) -> Coord {
    Coord { meta_x, meta_y, x, y }
}

/// Scenario: with an immediate winning move on the board and a reasonable
/// iteration budget, the engine takes the win.
#[test]
fn engine_takes_the_immediate_win() {
    let mut grid = Grid::default();

    // Circle has won minigrids 0 and 1 on their first rows.
    for mx in [0u8, 1] {
        grid.set(coord(mx, 0, 0, 0), Cell::Circle);
        grid.set(coord(mx, 0, 1, 0), Cell::Circle);
        grid.set(coord(mx, 0, 2, 0), Cell::Circle);
    }
    // Cross has won minigrids 3 and 4, threatening the middle meta-row.
    for mx in [0u8, 1] {
        grid.set(coord(mx, 1, 0, 1), Cell::Cross);
        grid.set(coord(mx, 1, 1, 1), Cell::Cross);
        grid.set(coord(mx, 1, 2, 1), Cell::Cross);
    }
    // Minigrid 2 is nearly full; Circle completes its first row - and with
    // it the first meta-row - by playing local cell (2, 0).
    //   O O .
    //   X X .
    //   X O X
    grid.set(coord(2, 0, 0, 0), Cell::Circle);
    grid.set(coord(2, 0, 1, 0), Cell::Circle);
    grid.set(coord(2, 0, 0, 1), Cell::Cross);
    grid.set(coord(2, 0, 1, 1), Cell::Cross);
    grid.set(coord(2, 0, 0, 2), Cell::Cross);
    grid.set(coord(2, 0, 1, 2), Cell::Circle);
    grid.set(coord(2, 0, 2, 2), Cell::Cross);
    grid.update_grid();
    assert_eq!(grid.completed_minigrid[0], Cell::Circle);
    assert_eq!(grid.completed_minigrid[1], Cell::Circle);
    assert_eq!(grid.completed_minigrid[3], Cell::Cross);
    assert_eq!(grid.completed_minigrid[4], Cell::Cross);
    assert_eq!(grid.is_completed(), None);

    // The last move's local cell (2, 0) forces Circle into minigrid 2.
    let last_move = Some(coord(0, 0, 2, 0));
    let legal_moves = grid.get_legal_moves(last_move);
    assert_eq!(legal_moves.len(), 2);

    let engine = MCTSPlayer::new(1500, 400, Cell::Circle);
    let chosen = engine.select_move(grid, legal_moves, last_move);
    assert_eq!(chosen, coord(2, 0, 2, 0));

    // Playing it ends the match in Circle's favour.
    grid.set(chosen, Cell::Circle);
    grid.update_grid();
    assert_eq!(grid.is_completed(), Some(Cell::Circle));
}

/// The engine's move is always drawn from the legal-move list.
#[test]
fn engine_move_is_legal() {
    let grid = Grid::default();
    let legal_moves = grid.get_legal_moves(None);
    let engine = MCTSPlayer::new(1500, 50, Cell::Cross);
    let chosen = engine.select_move(grid, legal_moves.clone(), None);
    assert!(legal_moves.contains(&chosen));
}

/// With an iteration budget of zero the engine still answers with a legal
/// move: the first of the precomputed list.
#[test]
fn zero_budget_falls_back_to_first_legal_move() {
    let grid = Grid::default();
    let legal_moves = grid.get_legal_moves(None);
    let engine = MCTSPlayer::new(1500, 0, Cell::Cross);
    let chosen = engine.select_move(grid, legal_moves.clone(), None);
    assert_eq!(chosen, legal_moves[0]);
}

/// A full match between two engines terminates within 81 turns and reports
/// the winner its own final board shows.
#[test]
fn engines_play_a_full_match() {
    let a = MCTSPlayer::new(1500, 40, Cell::Cross);
    let b = MCTSPlayer::new(1500, 40, Cell::Circle);
    let stats = play_match(a, b);
    assert!(stats.number_turns <= 81);
    assert_eq!(stats.final_grid.is_completed(), stats.winner);
}

#[test]
fn human_player_keeps_its_symbol() {
    let player = HumanPlayer::new(Cell::Circle);
    assert_eq!(player.symbol(), Cell::Circle);
}

fn zero_params() -> WeightedParameters {
    WeightedParameters {
        take_cell: 0,
        take_double_cell: 0,
        take_double_grid: 0,
        stop_cell: 0,
        stop_win: 0,
        stop_double_cell: 0,
        stop_double_grid: 0,
        giving_cell: 0,
        giving_double_cell: 0,
        giving_double_grid: 0,
        play_corner: 0,
        play_sides: 0,
        play_center: 0,
        best_enemy_move: 0,
    }
}

#[test]
fn weighted_player_starts_with_plain_flags() {
    let params = zero_params();
    let player = WeightedPlayer::new(params, Cell::Cross);
    assert_eq!(player.symbol, Cell::Cross);
    assert_eq!(player.weighted_params, params);
    assert!(!player.apply_softsign);
    assert!(!player.ignore_giving);
}

#[test]
fn win_in_cells_finds_each_kind_of_line() {
    let e = Cell::Empty;
    let x = Cell::Cross;
    let o = Cell::Circle;
    let row = [x, x, x, e, e, e, o, o, e];
    assert!(is_win_in_cells(&row, Cell::Cross));
    assert!(!is_win_in_cells(&row, Cell::Circle));
    let column = [o, x, e, o, x, e, o, e, e];
    assert!(is_win_in_cells(&column, Cell::Circle));
    let diagonal = [x, o, e, o, x, e, e, e, x];
    assert!(is_win_in_cells(&diagonal, Cell::Cross));
    let nothing = [x, o, x, o, o, x, x, x, o];
    assert!(!is_win_in_cells(&nothing, Cell::Cross));
    assert!(!is_win_in_cells(&nothing, Cell::Circle));
}

#[test]
fn completable_needs_two_and_a_gap() {
    let e = Cell::Empty;
    let x = Cell::Cross;
    let o = Cell::Circle;
    let open_row = [x, x, e, o, e, e, e, e, o];
    assert!(has_completable_two_in_row(&open_row, Cell::Cross));
    assert!(!has_completable_two_in_row(&open_row, Cell::Circle));
    // A blocked pair is not completable.
    let blocked = [x, x, o, e, e, e, e, e, e];
    assert!(!has_completable_two_in_row(&blocked, Cell::Cross));
    // A full line is already won, not completable.
    let full = [x, x, x, e, e, e, e, e, e];
    assert!(!has_completable_two_in_row(&full, Cell::Cross));
}

/// The evaluator adds the taking weight for a completing move and exactly
/// one placement weight, scaled into score units.
#[test]
fn eval_board_scores_take_and_placement() {
    let mut params = zero_params();
    params.take_cell = 2;
    params.play_corner = 5;
    params.play_sides = 7;
    params.play_center = 11;

    let mut grid = Grid::default();
    // In minigrid 0, Cross already holds the cells under the evaluator's
    // examined row, so completing it scores take_cell.
    grid.set(coord(0, 0, 0, 0), Cell::Cross);
    grid.set(coord(0, 0, 1, 0), Cell::Cross);

    // A corner move that completes the examined line.
    let score = eval_board(params, grid, coord(0, 0, 2, 0), Cell::Cross);
    assert_eq!(score, (2 + 5) * 1_000_000_000);

    // A side move on an empty board scores only its placement weight.
    let score = eval_board(params, Grid::default(), coord(0, 0, 1, 0), Cell::Cross);
    assert_eq!(score, 7 * 1_000_000_000);

    // The centre of the central minigrid scores the centre weight.
    let score = eval_board(params, Grid::default(), coord(1, 1, 1, 1), Cell::Cross);
    assert_eq!(score, 11 * 1_000_000_000);
}
