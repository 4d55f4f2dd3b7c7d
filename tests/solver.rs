use sudoku_solver::difficulty::Difficulty;
use sudoku_solver::grid::{digits_in_range, filled_before_gap, valid, Board};
use sudoku_solver::puzzle::board_from_digits;
use sudoku_solver::solver::solve_sudoku;

const PUZZLE: &str =
    "530070000600195000098000060800060003400803001700020006060000280000419005000080079";
const SOLUTION: &str =
    "534678912672195348198342567859761423426853791713924856961537284287419635345286179";

fn board(s: &str) -> Board {
    board_from_digits(s).expect("81 digits")
}

fn filled_count(g: &Board) -> usize {
    g.iter().flatten().filter(|c| c.is_some()).count()
}

fn assert_solved(g: &Board) {
    let all: Vec<u8> = (1..=9).collect();
    for r in 0..9 {
        let mut row: Vec<u8> = (0..9).map(|c| g[r][c].expect("filled")).collect();
        row.sort();
        assert_eq!(row, all);
    }
    for c in 0..9 {
        let mut col: Vec<u8> = (0..9).map(|r| g[r][c].expect("filled")).collect();
        col.sort();
        assert_eq!(col, all);
    }
    for b in 0..9 {
        let (br, bc) = (3 * (b / 3), 3 * (b % 3));
        let mut cells: Vec<u8> = (0..9).map(|z| g[br + z / 3][bc + z % 3].expect("filled")).collect();
        cells.sort();
        assert_eq!(cells, all);
    }
}

#[test]
fn empty_grid_solves_to_valid_board() {
    let mut g: Board = [[None; 9]; 9];
    let mut progress: u8 = 0;
    assert!(solve_sudoku(&mut g, &mut progress));
    assert_solved(&g);
    let first_row: Vec<Option<u8>> = (1..=9).map(Some).collect();
    assert_eq!(g[0].to_vec(), first_row);
    assert_eq!(progress, 81);
}

#[test]
fn two_fives_in_a_row_is_unsolvable() {
    // The known solution with a second 5 in its first row and the last row cleared.
    let mut g = board(SOLUTION);
    g[0][2] = Some(5);
    g[8] = [None; 9];
    let before = g;
    let mut progress: u8 = 0;
    assert!(!solve_sudoku(&mut g, &mut progress));
    assert_eq!(g, before);
    assert_eq!(progress, 74);
}

#[test]
fn unique_puzzle_matches_known_solution() {
    let mut g = board(PUZZLE);
    let mut progress: u8 = 0;
    assert!(solve_sudoku(&mut g, &mut progress));
    assert_eq!(g, board(SOLUTION));
    assert_solved(&g);
    assert_eq!(progress, 81);
}

#[test]
fn solved_board_is_left_unchanged() {
    let mut g = board(SOLUTION);
    let before = g;
    let mut progress: u8 = 0;
    assert!(solve_sudoku(&mut g, &mut progress));
    assert_eq!(g, before);
    assert_eq!(progress, 81);
}

#[test]
fn full_board_with_repeats_is_returned_as_is() {
    let mut g: Board = [[Some(1); 9]; 9];
    let before = g;
    let mut progress: u8 = 0;
    assert!(solve_sudoku(&mut g, &mut progress));
    assert_eq!(g, before);
}

#[test]
fn equal_boards_solve_alike() {
    let mut a = board(PUZZLE);
    let mut b = board(PUZZLE);
    let (mut pa, mut pb) = (0u8, 0u8);
    let ra = solve_sudoku(&mut a, &mut pa);
    let rb = solve_sudoku(&mut b, &mut pb);
    assert_eq!(ra, rb);
    assert_eq!(a, b);
    assert_eq!(pa, pb);
}

#[test]
fn progress_counts_filled_cells_before_first_gap() {
    let mut g = board(SOLUTION);
    g[8][8] = None;
    let mut progress: u8 = 0;
    assert!(solve_sudoku(&mut g, &mut progress));
    assert_eq!(g, board(SOLUTION));
    assert_eq!(progress as usize, filled_count(&g));
    assert!(progress <= 81);
}

#[test]
fn blocked_cell_restores_board() {
    // Cell (0, 8) sees every digit: 1 to 8 in its row, 9 in its column.
    let mut g: Board = [[None; 9]; 9];
    for c in 0..8 {
        g[0][c] = Some(c as u8 + 1);
    }
    g[5][8] = Some(9);
    let before = g;
    let mut progress: u8 = 0;
    assert!(!solve_sudoku(&mut g, &mut progress));
    assert_eq!(g, before);
    assert_eq!(progress, 8);
}

#[test]
fn valid_checks_row_column_and_box() {
    let mut g: Board = [[None; 9]; 9];
    assert!(valid(&g, 4, 4, 7));
    g[4][0] = Some(7);
    assert!(!valid(&g, 4, 4, 7));
    assert!(valid(&g, 4, 4, 6));
    let mut g: Board = [[None; 9]; 9];
    g[8][4] = Some(3);
    assert!(!valid(&g, 0, 4, 3));
    assert!(valid(&g, 0, 5, 3));
    let mut g: Board = [[None; 9]; 9];
    g[5][3] = Some(2);
    assert!(!valid(&g, 3, 5, 2));
    assert!(valid(&g, 2, 5, 2));
    assert!(valid(&g, 3, 6, 2));
}

#[test]
fn digits_parse_row_by_row() {
    let g = board(PUZZLE);
    assert_eq!(g[0][0], Some(5));
    assert_eq!(g[0][2], None);
    assert_eq!(g[8][8], Some(9));
    assert_eq!(filled_count(&g), 30);
}

#[test]
fn bad_puzzle_text_is_refused() {
    assert!(board_from_digits("").is_none());
    assert!(board_from_digits(&PUZZLE[..80]).is_none());
    assert!(board_from_digits(&format!("{}0", PUZZLE)).is_none());
    let mut bad = String::from(PUZZLE);
    bad.replace_range(40..41, "x");
    assert!(board_from_digits(&bad).is_none());
}

#[test]
fn digit_range_is_checked() {
    let mut g: Board = [[None; 9]; 9];
    assert!(digits_in_range(&g));
    g[3][3] = Some(9);
    assert!(digits_in_range(&g));
    g[3][4] = Some(0);
    assert!(!digits_in_range(&g));
    g[3][4] = Some(10);
    assert!(!digits_in_range(&g));
}

#[test]
fn difficulty_names() {
    assert_eq!(Difficulty::default(), Difficulty::Easy);
    assert_eq!(Difficulty::Easy.name(), "easy");
    assert_eq!(Difficulty::Medium.name(), "medium");
    assert_eq!(Difficulty::Hard.name(), "hard");
}

#[test]
fn filled_before_gap_stops_at_first_empty_cell() {
    assert_eq!(filled_before_gap(&[[None; 9]; 9]), 0);
    assert_eq!(filled_before_gap(&board(PUZZLE)), 2);
    assert_eq!(filled_before_gap(&board(SOLUTION)), 81);
    let mut g = board(SOLUTION);
    g[4][0] = None;
    assert_eq!(filled_before_gap(&g), 36);
    assert!(filled_count(&g) > 36);
}

#[test]
fn valid_ignores_the_tested_cell() {
    let mut g: Board = [[None; 9]; 9];
    g[0][0] = Some(5);
    assert!(valid(&g, 0, 0, 5));
    assert!(!valid(&g, 0, 1, 5));
    assert!(!valid(&g, 1, 0, 5));
    assert!(!valid(&g, 1, 1, 5));
}
