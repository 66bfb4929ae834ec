use board_games::board::GameBoard;
use board_games::generator::Difficulty;
use board_games::grid::{CellStateGrid, Condition, Grid};

const FIRST: Grid = [
    [1, 2, 3, 4, 5, 6, 7, 8, 9],
    [4, 5, 6, 7, 8, 9, 1, 2, 3],
    [7, 8, 9, 1, 2, 3, 4, 5, 6],
    [2, 1, 4, 3, 6, 5, 8, 9, 7],
    [3, 6, 5, 8, 9, 7, 2, 1, 4],
    [8, 9, 7, 2, 1, 4, 3, 6, 5],
    [5, 3, 1, 6, 4, 2, 9, 7, 8],
    [6, 4, 2, 9, 7, 8, 5, 3, 1],
    [9, 7, 8, 5, 3, 1, 6, 4, 2],
];

fn punctured() -> GameBoard {
    let mut numbers = FIRST;
    let mut number_state: CellStateGrid = [[Condition::PreDetermined; 9]; 9];
    numbers[0][0] = 0;
    number_state[0][0] = Condition::Neutral;
    numbers[5][7] = 0;
    number_state[5][7] = Condition::Neutral;
    GameBoard { numbers, number_state, number_selected: 0 }
}

#[test]
fn unrated_board_is_the_solved_board() {
    let (board, reached) = GameBoard::init(&Difficulty::Unrated);
    assert!(reached);
    assert_eq!(board.numbers, FIRST);
    assert_eq!(board.number_state, [[Condition::PreDetermined; 9]; 9]);
    assert_eq!(board.number_selected, 0);
}

#[test]
fn new_board_holds_a_puzzle_and_no_pick() {
    let (mut board, reached) = GameBoard::init(&Difficulty::Easy);
    assert_eq!(board.number_selected, 0);
    let mut holes = 0;
    for row in 0..9 {
        for col in 0..9 {
            if board.numbers[row][col] == 0 {
                holes += 1;
                assert_eq!(board.number_state[row][col], Condition::Neutral);
            } else {
                assert_eq!(board.numbers[row][col], FIRST[row][col]);
                assert_eq!(board.number_state[row][col], Condition::PreDetermined);
            }
        }
    }
    assert!(1 <= holes && holes <= 45);
    assert_eq!(reached, holes == 45);
    assert!(!board.update_state());
}

#[test]
fn check_takes_the_digit_first() {
    let mut numbers: Grid = [[0u8; 9]; 9];
    numbers[0][0] = 5;
    numbers[0][1] = 5;
    assert!(!GameBoard::check_valid(5, 0, 2, &numbers));
    assert!(GameBoard::check_valid(4, 0, 2, &numbers));
    assert!(GameBoard::check_valid(5, 3, 3, &numbers));
}

#[test]
fn right_digit_ends_the_game() {
    let mut board = punctured();
    board.number_selected = 1;
    assert!(!board.place_number(0, 0));
    assert_eq!(board.numbers[0][0], 1);
    assert_eq!(board.number_state[0][0], Condition::Neutral);
    board.number_selected = 6;
    assert!(board.place_number(5, 7));
    assert_eq!(board.numbers, FIRST);
    assert_eq!(board.number_state[5][7], Condition::Neutral);
}

#[test]
fn wrong_digit_is_marked_and_keeps_the_game_open() {
    let mut board = punctured();
    board.number_selected = 1;
    assert!(!board.place_number(0, 0));
    board.number_selected = 9;
    assert!(!board.place_number(5, 7));
    assert_eq!(board.numbers[5][7], 9);
    assert_eq!(board.number_state[5][7], Condition::Wrong);
    assert_eq!(board.number_state[5][6], Condition::PreDetermined);
    assert_eq!(board.number_state[3][7], Condition::PreDetermined);
}

#[test]
fn filled_cell_is_not_overwritten() {
    let mut board = punctured();
    board.number_selected = 9;
    assert!(!board.place_number(1, 1));
    assert_eq!(board.numbers[1][1], 5);
    assert_eq!(board.number_state[1][1], Condition::PreDetermined);
}

#[test]
fn wrong_digit_can_be_erased_and_a_clue_cannot() {
    let mut board = punctured();
    board.number_selected = 9;
    assert!(!board.place_number(5, 7));
    assert_eq!(board.number_state[5][7], Condition::Wrong);
    assert!(board.erase_number(5, 7));
    assert_eq!(board.numbers[5][7], 0);
    assert_eq!(board.number_state[5][7], Condition::Neutral);
    assert!(!board.erase_number(5, 6));
    assert_eq!(board.numbers[5][6], FIRST[5][6]);
}

#[test]
fn two_wrong_digits_mark_each_other() {
    let mut numbers: Grid = [[0u8; 9]; 9];
    numbers[0][0] = 3;
    numbers[0][5] = 3;
    numbers[7][7] = 3;
    let number_state: CellStateGrid = [[Condition::Neutral; 9]; 9];
    let mut board = GameBoard { numbers, number_state, number_selected: 0 };
    assert!(!board.update_state());
    assert_eq!(board.number_state[0][0], Condition::Wrong);
    assert_eq!(board.number_state[0][5], Condition::Wrong);
    assert_eq!(board.number_state[7][7], Condition::Neutral);
    assert_eq!(board.number_state[4][4], Condition::Neutral);
    assert_eq!(board.numbers, numbers);
}

#[test]
fn clue_is_never_marked_wrong() {
    let mut numbers: Grid = [[0u8; 9]; 9];
    numbers[0][0] = 3;
    numbers[0][5] = 3;
    let mut number_state: CellStateGrid = [[Condition::Neutral; 9]; 9];
    number_state[0][0] = Condition::PreDetermined;
    let mut board = GameBoard { numbers, number_state, number_selected: 0 };
    assert!(!board.update_state());
    assert_eq!(board.number_state[0][0], Condition::PreDetermined);
    assert_eq!(board.number_state[0][5], Condition::Wrong);
}

#[test]
fn stale_mark_is_cleared() {
    let mut numbers: Grid = [[0u8; 9]; 9];
    numbers[0][0] = 3;
    let mut number_state: CellStateGrid = [[Condition::Neutral; 9]; 9];
    number_state[0][0] = Condition::Wrong;
    number_state[8][8] = Condition::Wrong;
    let mut board = GameBoard { numbers, number_state, number_selected: 0 };
    assert!(!board.update_state());
    assert_eq!(board.number_state, [[Condition::Neutral; 9]; 9]);
}

#[test]
fn full_board_of_clues_is_over() {
    let mut board = GameBoard {
        numbers: FIRST,
        number_state: [[Condition::PreDetermined; 9]; 9],
        number_selected: 0,
    };
    assert!(board.update_state());
}

#[test]
fn placing_the_eraser_changes_nothing() {
    let mut board = punctured();
    board.number_selected = 0;
    assert!(!board.place_number(0, 0));
    assert_eq!(board.numbers[0][0], 0);
    assert_eq!(board.number_state[0][0], Condition::Neutral);
}
