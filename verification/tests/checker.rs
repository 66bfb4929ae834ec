use board_games::checker::is_valid;
use board_games::grid::Grid;

const SOLVED: Grid = [
    [1, 2, 3, 4, 5, 6, 7, 8, 9],
    [4, 5, 6, 7, 8, 9, 1, 2, 3],
    [7, 8, 9, 1, 2, 3, 4, 5, 6],
    [2, 1, 4, 3, 6, 5, 8, 9, 7],
    [3, 6, 5, 8, 9, 7, 2, 1, 4],
    [8, 9, 7, 2, 1, 4, 3, 6, 5],
    [5, 3, 1, 6, 4, 2, 9, 7, 8],
    [6, 4, 2, 9, 7, 8, 5, 3, 1],
    [9, 7, 8, 5, 3, 1, 6, 4, 2],
];

#[test]
fn digit_twice_in_a_row_blocks_the_row() {
    let mut grid: Grid = [[0u8; 9]; 9];
    grid[0][0] = 5;
    grid[0][1] = 5;
    assert!(!is_valid(&grid, 0, 2, 5));
}

#[test]
fn any_digit_fits_a_blank_board() {
    let grid: Grid = [[0u8; 9]; 9];
    for row in 0..9 {
        for col in 0..9 {
            for digit in 1..=9u8 {
                assert!(is_valid(&grid, row, col, digit));
            }
        }
    }
}

#[test]
fn digit_in_the_same_row_is_a_conflict() {
    let mut grid: Grid = [[0u8; 9]; 9];
    grid[4][8] = 7;
    assert!(!is_valid(&grid, 4, 0, 7));
    assert!(is_valid(&grid, 4, 0, 6));
}

#[test]
fn digit_in_the_same_column_is_a_conflict() {
    let mut grid: Grid = [[0u8; 9]; 9];
    grid[8][3] = 2;
    assert!(!is_valid(&grid, 0, 3, 2));
    assert!(is_valid(&grid, 0, 4, 2));
}

#[test]
fn digit_in_the_same_box_is_a_conflict() {
    let mut grid: Grid = [[0u8; 9]; 9];
    grid[3][3] = 9;
    assert!(!is_valid(&grid, 5, 5, 9));
    assert!(!is_valid(&grid, 4, 4, 9));
    assert!(is_valid(&grid, 6, 6, 9));
    assert!(is_valid(&grid, 5, 6, 9));
}

#[test]
fn the_cell_itself_is_left_out() {
    let mut grid: Grid = [[0u8; 9]; 9];
    grid[2][2] = 4;
    assert!(is_valid(&grid, 2, 2, 4));
    grid[2][7] = 4;
    assert!(!is_valid(&grid, 2, 2, 4));
}

#[test]
fn every_digit_of_a_solved_board_passes_at_its_own_cell() {
    for row in 0..9 {
        for col in 0..9 {
            assert!(is_valid(&SOLVED, row, col, SOLVED[row][col]));
        }
    }
}

#[test]
fn no_other_digit_fits_a_cell_of_a_solved_board() {
    for row in 0..9 {
        for col in 0..9 {
            for digit in 1..=9u8 {
                assert_eq!(is_valid(&SOLVED, row, col, digit), digit == SOLVED[row][col]);
            }
        }
    }
}

#[test]
fn corner_cells_are_checked_against_their_own_box() {
    let mut grid: Grid = [[0u8; 9]; 9];
    grid[7][7] = 3;
    assert!(!is_valid(&grid, 8, 8, 3));
    assert!(!is_valid(&grid, 6, 6, 3));
    assert!(is_valid(&grid, 5, 5, 3));
    assert!(is_valid(&grid, 8, 5, 3));
}
