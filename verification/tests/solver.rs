use board_games::grid::Grid;
use board_games::solver::{
    find_empty, has_one_completion, has_unique_solution, same_grid, solve, solve_last,
};

const FIRST: Grid = [
    [1, 2, 3, 4, 5, 6, 7, 8, 9],
    [4, 5, 6, 7, 8, 9, 1, 2, 3],
    [7, 8, 9, 1, 2, 3, 4, 5, 6],
    [2, 1, 4, 3, 6, 5, 8, 9, 7],
    [3, 6, 5, 8, 9, 7, 2, 1, 4],
    [8, 9, 7, 2, 1, 4, 3, 6, 5],
    [5, 3, 1, 6, 4, 2, 9, 7, 8],
    [6, 4, 2, 9, 7, 8, 5, 3, 1],
    [9, 7, 8, 5, 3, 1, 6, 4, 2],
];

fn holds_each_digit_once(digits: [u8; 9]) -> bool {
    (1..=9u8).all(|digit| digits.iter().filter(|d| **d == digit).count() == 1)
}

#[test]
fn blank_board_is_solved_to_the_first_board() {
    let mut grid: Grid = [[0u8; 9]; 9];
    assert!(solve(&mut grid));
    assert_eq!(grid, FIRST);
}

#[test]
fn solved_blank_board_has_each_digit_once_in_each_unit() {
    let mut grid: Grid = [[0u8; 9]; 9];
    assert!(solve(&mut grid));
    for i in 0..9 {
        let row = grid[i];
        let mut column = [0u8; 9];
        let mut block = [0u8; 9];
        for k in 0..9 {
            column[k] = grid[k][i];
            block[k] = grid[i / 3 * 3 + k / 3][i % 3 * 3 + k % 3];
        }
        assert!(holds_each_digit_once(row));
        assert!(holds_each_digit_once(column));
        assert!(holds_each_digit_once(block));
    }
}

#[test]
fn full_board_is_left_as_it_is() {
    let mut grid = FIRST;
    assert!(solve(&mut grid));
    assert_eq!(grid, FIRST);
}

#[test]
fn full_board_is_accepted_without_a_look_at_its_digits() {
    let mut grid: Grid = [[7u8; 9]; 9];
    assert!(solve(&mut grid));
    assert_eq!(grid, [[7u8; 9]; 9]);
}

#[test]
fn a_clue_is_kept_and_the_rest_is_the_first_fit() {
    let mut grid: Grid = [[0u8; 9]; 9];
    grid[0][0] = 9;
    assert!(solve(&mut grid));
    let expected: Grid = [
        [9, 1, 2, 3, 4, 5, 6, 7, 8],
        [3, 4, 5, 6, 7, 8, 1, 2, 9],
        [6, 7, 8, 1, 2, 9, 3, 4, 5],
        [1, 2, 3, 4, 5, 6, 8, 9, 7],
        [4, 5, 6, 8, 9, 7, 2, 1, 3],
        [7, 8, 9, 2, 1, 3, 4, 5, 6],
        [2, 3, 7, 5, 6, 1, 9, 8, 4],
        [5, 6, 1, 9, 8, 4, 7, 3, 2],
        [8, 9, 4, 7, 3, 2, 5, 6, 1],
    ];
    assert_eq!(grid, expected);
}

#[test]
fn punctured_board_is_filled_again() {
    let mut grid = FIRST;
    grid[0][0] = 0;
    grid[4][4] = 0;
    grid[8][8] = 0;
    assert!(solve(&mut grid));
    assert_eq!(grid, FIRST);
}

#[test]
fn board_without_a_fit_is_refused_at_once() {
    let mut grid: Grid = [[0u8; 9]; 9];
    for col in 0..8 {
        grid[0][col] = col as u8 + 1;
    }
    grid[1][8] = 9;
    let before = grid;
    assert!(!solve(&mut grid));
    assert_eq!(grid, before);
}

#[test]
fn board_without_a_fit_is_restored_after_backtracking() {
    let mut grid: Grid = [[0u8; 9]; 9];
    for col in 0..7 {
        grid[0][col] = col as u8 + 1;
    }
    grid[1][8] = 8;
    grid[2][8] = 9;
    let before = grid;
    assert!(!solve(&mut grid));
    assert_eq!(grid, before);
}

#[test]
fn first_empty_cell_is_found_in_row_major_order() {
    let mut grid = FIRST;
    assert_eq!(find_empty(&grid), None);
    grid[8][8] = 0;
    assert_eq!(find_empty(&grid), Some(80));
    grid[3][5] = 0;
    assert_eq!(find_empty(&grid), Some(32));
    grid[3][4] = 0;
    assert_eq!(find_empty(&grid), Some(31));
    grid[0][0] = 0;
    assert_eq!(find_empty(&grid), Some(0));
}

#[test]
fn first_empty_cell_of_a_blank_board_is_the_first_cell() {
    let grid: Grid = [[0u8; 9]; 9];
    assert_eq!(find_empty(&grid), Some(0));
}

#[test]
fn full_board_passes_the_uniqueness_test() {
    assert!(has_unique_solution(&FIRST));
}

#[test]
fn blank_board_fails_the_uniqueness_test() {
    let grid: Grid = [[0u8; 9]; 9];
    assert!(!has_unique_solution(&grid));
}

#[test]
fn board_with_one_empty_cell_fails_the_uniqueness_test() {
    let mut grid = FIRST;
    grid[6][2] = 0;
    assert!(!has_unique_solution(&grid));
    assert_eq!(grid[6][2], 0);
}

#[test]
fn uniqueness_test_leaves_the_board_alone() {
    let mut grid: Grid = [[0u8; 9]; 9];
    grid[0][0] = 9;
    let before = grid;
    assert!(!has_unique_solution(&grid));
    assert_eq!(grid, before);
}

#[test]
fn boards_are_compared_cell_by_cell() {
    let mut other = FIRST;
    assert!(same_grid(&FIRST, &other));
    other[8][8] = 0;
    assert!(!same_grid(&FIRST, &other));
    other[8][8] = FIRST[8][8];
    other[0][0] = 2;
    assert!(!same_grid(&FIRST, &other));
}

const LAST: Grid = [
    [9, 8, 7, 6, 5, 4, 3, 2, 1],
    [6, 5, 4, 3, 2, 1, 9, 8, 7],
    [3, 2, 1, 9, 8, 7, 6, 5, 4],
    [8, 9, 6, 7, 4, 5, 2, 1, 3],
    [7, 4, 5, 2, 1, 3, 8, 9, 6],
    [2, 1, 3, 8, 9, 6, 7, 4, 5],
    [5, 7, 9, 4, 6, 8, 1, 3, 2],
    [4, 6, 8, 1, 3, 2, 5, 7, 9],
    [1, 3, 2, 5, 7, 9, 4, 6, 8],
];

#[test]
fn blank_board_is_solved_downward_to_the_last_board() {
    let mut grid: Grid = [[0u8; 9]; 9];
    assert!(solve_last(&mut grid));
    assert_eq!(grid, LAST);
}

#[test]
fn downward_solver_keeps_a_full_board_and_refuses_a_dead_one() {
    let mut grid = FIRST;
    assert!(solve_last(&mut grid));
    assert_eq!(grid, FIRST);
    let mut dead: Grid = [[0u8; 9]; 9];
    for col in 0..7 {
        dead[0][col] = col as u8 + 1;
    }
    dead[1][8] = 8;
    dead[2][8] = 9;
    let before = dead;
    assert!(!solve_last(&mut dead));
    assert_eq!(dead, before);
}

#[test]
fn both_solvers_agree_where_one_board_fits() {
    let mut puzzle = FIRST;
    puzzle[0][0] = 0;
    puzzle[0][1] = 0;
    puzzle[3][0] = 0;
    let mut up = puzzle;
    let mut down = puzzle;
    assert!(solve(&mut up));
    assert!(solve_last(&mut down));
    assert_eq!(up, FIRST);
    assert_eq!(down, FIRST);
}

#[test]
fn solvers_part_where_two_boards_fit() {
    let mut puzzle = FIRST;
    puzzle[0][0] = 0;
    puzzle[0][1] = 0;
    puzzle[3][0] = 0;
    puzzle[3][1] = 0;
    let mut up = puzzle;
    let mut down = puzzle;
    assert!(solve(&mut up));
    assert!(solve_last(&mut down));
    assert_eq!(up, FIRST);
    let mut other = FIRST;
    other[0][0] = 2;
    other[0][1] = 1;
    other[3][0] = 1;
    other[3][1] = 2;
    assert_eq!(down, other);
}

#[test]
fn one_completion_is_told_from_none_and_from_many() {
    assert!(has_one_completion(&FIRST));
    let blank: Grid = [[0u8; 9]; 9];
    assert!(!has_one_completion(&blank));
    let mut puzzle = FIRST;
    puzzle[0][0] = 0;
    puzzle[0][1] = 0;
    puzzle[3][0] = 0;
    assert!(has_one_completion(&puzzle));
    puzzle[3][1] = 0;
    assert!(!has_one_completion(&puzzle));
    let mut dead: Grid = [[0u8; 9]; 9];
    for col in 0..8 {
        dead[0][col] = col as u8 + 1;
    }
    dead[1][8] = 9;
    assert!(!has_one_completion(&dead));
}
