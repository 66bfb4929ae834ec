use board_games::tictactoe::{Player, Sign, TicTacToe};

fn game_with(sign: [Sign; 9]) -> TicTacToe {
    TicTacToe { sign, player: Player::P1, winner: Player::Nobody, gameover: false }
}

const B: Sign = Sign::Blank;
const X: Sign = Sign::X;
const O: Sign = Sign::O;

#[test]
fn new_game_is_empty_and_open() {
    let game = TicTacToe::new();
    assert_eq!(game.sign, [B; 9]);
    assert_eq!(game.player, Player::P1);
    assert_eq!(game.winner, Player::Nobody);
    assert!(!game.gameover);
    assert_eq!(game.winner(), Player::Nobody);
    assert!(!game.check_draw());
}

#[test]
fn each_row_wins() {
    assert_eq!(game_with([X, X, X, B, B, B, B, B, B]).winner(), Player::P1);
    assert_eq!(game_with([B, B, B, O, O, O, B, B, B]).winner(), Player::P2);
    assert_eq!(game_with([B, B, B, B, B, B, X, X, X]).winner(), Player::P1);
}

#[test]
fn each_column_wins() {
    assert_eq!(game_with([O, B, B, O, B, B, O, B, B]).winner(), Player::P2);
    assert_eq!(game_with([B, X, B, B, X, B, B, X, B]).winner(), Player::P1);
    assert_eq!(game_with([B, B, O, B, B, O, B, B, O]).winner(), Player::P2);
}

#[test]
fn each_diagonal_wins() {
    assert_eq!(game_with([X, B, B, B, X, B, B, B, X]).winner(), Player::P1);
    assert_eq!(game_with([B, B, O, B, O, B, O, B, B]).winner(), Player::P2);
}

#[test]
fn three_in_a_bend_do_not_win() {
    assert_eq!(game_with([X, X, B, X, B, B, B, B, B]).winner(), Player::Nobody);
    assert_eq!(game_with([B, B, O, O, O, B, B, B, B]).winner(), Player::Nobody);
    assert_eq!(game_with([X, O, X, B, B, B, B, B, B]).winner(), Player::Nobody);
    assert_eq!(game_with([B; 9]).winner(), Player::Nobody);
}

#[test]
fn second_player_wins_where_both_hold_a_line() {
    assert_eq!(game_with([X, X, X, O, O, O, B, B, B]).winner(), Player::P2);
}

#[test]
fn lines_are_found_by_sign() {
    let game = game_with([X, X, X, B, O, O, O, B, X]);
    assert!(game.holds_line(Sign::X));
    assert!(!game.holds_line(Sign::O));
    assert!(!game.holds_line(Sign::Blank));
    assert!(game_with([B; 9]).holds_line(Sign::Blank));
}

#[test]
fn draw_needs_every_cell() {
    assert!(game_with([X, O, X, X, O, O, O, X, X]).check_draw());
    assert!(!game_with([X, O, X, X, O, O, O, X, B]).check_draw());
    assert!(!game_with([B, O, X, X, O, O, O, X, X]).check_draw());
}

#[test]
fn players_take_turns() {
    let mut game = TicTacToe::new();
    assert!(game.play(4));
    assert_eq!(game.sign[4], Sign::X);
    assert_eq!(game.player, Player::P2);
    assert!(game.play(0));
    assert_eq!(game.sign[0], Sign::O);
    assert_eq!(game.player, Player::P1);
    assert!(!game.gameover);
}

#[test]
fn taken_cell_is_refused() {
    let mut game = TicTacToe::new();
    assert!(game.play(4));
    assert!(!game.play(4));
    assert_eq!(game.sign[4], Sign::X);
    assert_eq!(game.player, Player::P2);
}

#[test]
fn first_player_wins_a_row() {
    let mut game = TicTacToe::new();
    for cell in [0, 3, 1, 4] {
        assert!(game.play(cell));
        assert!(!game.gameover);
    }
    assert!(game.play(2));
    assert!(game.gameover);
    assert_eq!(game.winner, Player::P1);
    assert_eq!(game.player, Player::P2);
    assert!(!game.play(8));
    assert_eq!(game.sign[8], Sign::Blank);
}

#[test]
fn second_player_wins_a_diagonal() {
    let mut game = TicTacToe::new();
    for cell in [0, 2, 1, 4, 8, 6] {
        assert!(game.play(cell));
    }
    assert!(game.gameover);
    assert_eq!(game.winner, Player::P2);
}

#[test]
fn full_board_without_a_line_is_a_draw() {
    let mut game = TicTacToe::new();
    for cell in [0, 1, 2, 4, 3, 5, 7, 6, 8] {
        assert!(!game.gameover);
        assert!(game.play(cell));
    }
    assert!(game.gameover);
    assert_eq!(game.winner, Player::Nobody);
    assert!(game.check_draw());
}

#[test]
fn turn_passes_on_without_a_move() {
    let mut game = game_with([X, X, X, B, B, B, B, B, B]);
    game.state_update();
    assert_eq!(game.player, Player::P2);
    assert_eq!(game.winner, Player::P1);
    assert!(game.gameover);
    game.state_update();
    assert_eq!(game.player, Player::P1);
}

#[test]
fn nobody_to_move_writes_nothing() {
    let mut game = TicTacToe::new();
    game.player = Player::Nobody;
    assert!(game.play(3));
    assert_eq!(game.sign[3], Sign::Blank);
    assert_eq!(game.player, Player::P1);
}

#[test]
fn restart_clears_the_game() {
    let mut game = TicTacToe::new();
    for cell in [0, 3, 1, 4, 2] {
        assert!(game.play(cell));
    }
    game.restart();
    assert_eq!(game.sign, [B; 9]);
    assert_eq!(game.player, Player::P1);
    assert_eq!(game.winner, Player::Nobody);
    assert!(!game.gameover);
}
