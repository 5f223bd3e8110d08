use sudoku::grid::{is_valid, locate};
use sudoku::solver::{check_board, solve, solve_board, GridError};

const S1_PUZZLE: &str =
    "530070000 600195000 098000060 800060003 400803001 700020006 060000280 000419005 000080079";
const S1_SOLUTION: &str =
    "534678912 672195348 198342567 859761423 426853791 713924856 961537284 287419635 345286179";
const SEVENTEEN_CLUES: &str =
    "000000012 003600000 000007000 410020000 000500300 700000600 280000040 000300500 000000000";

fn grid(rows: &str) -> Vec<usize> {
    rows.chars()
        .filter(|c| !c.is_whitespace())
        .map(|c| c.to_digit(10).unwrap() as usize)
        .collect()
}

fn each_region_holds_each_digit_once(g: &[usize]) -> bool {
    let mut regions: Vec<Vec<usize>> = Vec::new();
    for i in 0..9 {
        regions.push((0..9).map(|j| g[i * 9 + j]).collect());
        regions.push((0..9).map(|j| g[j * 9 + i]).collect());
        regions.push(
            (0..9)
                .map(|m| g[(3 * (i / 3) + m / 3) * 9 + 3 * (i % 3) + m % 3])
                .collect(),
        );
    }
    regions.iter().all(|r| {
        let mut seen = r.clone();
        seen.sort();
        seen == vec![1, 2, 3, 4, 5, 6, 7, 8, 9]
    })
}

fn keeps_givens(input: &[usize], output: &[usize]) -> bool {
    input.iter().zip(output).all(|(a, b)| *a == 0 || a == b)
}

#[test]
fn classic_easy_puzzle() {
    let mut board = grid(S1_PUZZLE);
    assert!(solve_board(&mut board));
    assert_eq!(board, grid(S1_SOLUTION));
}

#[test]
fn already_solved_grid_is_unchanged() {
    let mut board = grid(S1_SOLUTION);
    assert!(solve_board(&mut board));
    assert_eq!(board, grid(S1_SOLUTION));
}

#[test]
fn one_empty_cell_is_filled() {
    let mut board = grid(S1_SOLUTION);
    board[0] = 0;
    assert!(solve_board(&mut board));
    assert_eq!(board[0], 5);
    assert_eq!(board, grid(S1_SOLUTION));
}

#[test]
fn contradiction_is_unsolvable_and_restored() {
    let mut input = grid(S1_PUZZLE);
    input[1] = 5;
    let mut board = input.clone();
    assert!(!solve_board(&mut board));
    assert_eq!(board, input);
    let mut checked = input.clone();
    assert_eq!(solve(&mut checked), Err(GridError::Duplicate));
    assert_eq!(checked, input);
}

#[test]
fn unsolvable_consistent_grid_is_restored() {
    // Row 0 leaves only 9 for its last cell, but column 8 already holds 9.
    let mut input = grid(
        "123456780 000000009 000000000 000000000 000000000 000000000 000000000 000000000 000000000",
    );
    assert_eq!(check_board(&input), Ok(()));
    let before = input.clone();
    assert!(!solve_board(&mut input));
    assert_eq!(input, before);
}

#[test]
fn empty_grid_is_solved() {
    let mut board = vec![0usize; 81];
    assert!(solve_board(&mut board));
    assert!(each_region_holds_each_digit_once(&board));
    assert_eq!(&board[0..9], &[1, 2, 3, 4, 5, 6, 7, 8, 9]);
    assert_eq!(
        board,
        grid("123456789 456789123 789123456 214365897 365897214 897214365 531642978 642978531 978531642")
    );
}

#[test]
fn seventeen_clue_puzzle() {
    let input = grid(SEVENTEEN_CLUES);
    assert_eq!(input.iter().filter(|v| **v != 0).count(), 17);
    let mut board = input.clone();
    assert!(solve_board(&mut board));
    assert!(each_region_holds_each_digit_once(&board));
    assert!(keeps_givens(&input, &board));
}

#[test]
fn solution_extends_input_and_is_valid() {
    let input = grid(S1_PUZZLE);
    let mut board = input.clone();
    assert!(solve_board(&mut board));
    assert!(each_region_holds_each_digit_once(&board));
    assert!(keeps_givens(&input, &board));
}

#[test]
fn equal_inputs_give_equal_outcomes() {
    let mut a = grid(SEVENTEEN_CLUES);
    let mut b = grid(SEVENTEEN_CLUES);
    let ra = solve_board(&mut a);
    let rb = solve_board(&mut b);
    assert_eq!(ra, rb);
    assert_eq!(a, b);
}

#[test]
fn locate_finds_first_empty_in_row_major_order() {
    let mut board = grid(S1_SOLUTION);
    board[4 * 9 + 7] = 0;
    board[6 * 9 + 2] = 0;
    let (mut row, mut col) = (100usize, 100usize);
    assert!(locate(&mut board, &mut row, &mut col));
    assert_eq!((row, col), (4, 7));
}

#[test]
fn locate_on_full_grid_leaves_position() {
    let mut board = grid(S1_SOLUTION);
    let (mut row, mut col) = (3usize, 5usize);
    assert!(!locate(&mut board, &mut row, &mut col));
    assert_eq!((row, col), (3, 5));
}

#[test]
fn is_valid_checks_row_column_and_box() {
    let mut board = grid(S1_PUZZLE);
    let before = board.clone();
    // (0, 2) is empty; 5 and 3 are in row 0, 8 in column 2, 9 in the box.
    assert!(!is_valid(&mut board, 5, (0, 2)));
    assert!(!is_valid(&mut board, 8, (0, 2)));
    assert!(!is_valid(&mut board, 9, (0, 2)));
    assert!(is_valid(&mut board, 4, (0, 2)));
    assert!(is_valid(&mut board, 1, (0, 2)));
    assert!(!is_valid(&mut board, 6, (0, 2)));
    assert_eq!(board, before);
}

#[test]
fn is_valid_ignores_the_cell_itself() {
    let mut board = grid(S1_SOLUTION);
    assert!(is_valid(&mut board, 5, (0, 0)));
    assert!(!is_valid(&mut board, 3, (0, 0)));
}

#[test]
fn check_board_reports_each_error() {
    assert_eq!(check_board(&vec![0usize; 80]), Err(GridError::WrongLength));
    let mut big = vec![0usize; 81];
    big[40] = 10;
    assert_eq!(check_board(&big), Err(GridError::ValueOutOfRange));
    let mut dup = grid(S1_PUZZLE);
    dup[1] = 5;
    assert_eq!(check_board(&dup), Err(GridError::Duplicate));
    let mut dup_box = vec![0usize; 81];
    dup_box[0] = 4;
    dup_box[10] = 4;
    assert_eq!(check_board(&dup_box), Err(GridError::Duplicate));
    assert_eq!(check_board(&grid(S1_PUZZLE)), Ok(()));
}

#[test]
fn solve_rejects_malformed_grid_unchanged() {
    let mut board = vec![0usize; 81];
    board[3] = 12;
    let before = board.clone();
    assert_eq!(solve(&mut board), Err(GridError::ValueOutOfRange));
    assert_eq!(board, before);
}

#[test]
fn solve_solves_well_formed_grid() {
    let mut board = grid(S1_PUZZLE);
    assert_eq!(solve(&mut board), Ok(true));
    assert_eq!(board, grid(S1_SOLUTION));
}
