//! The rules of tic-tac-toe on a 3×3 board whose cells are numbered in
//! row-major order.

use vstd::prelude::*;

verus! {

/// Who is to move, or who has won.
#[derive(Clone, Copy, Debug, PartialEq, Eq, Structural)]
pub enum Player {
    /// No player: nobody has won.
    Nobody,
    P1,
    P2,
}

/// What stands in a cell.
#[derive(Clone, Copy, Debug, PartialEq, Eq, Structural)]
pub enum Sign {
    /// An empty cell.
    Blank,
    X,
    O,
}

/// The `i`-th cell of the `k`-th line. Lines 0 to 2 are the rows, 3 to 5 the
/// columns, 6 is the diagonal from the upper left and 7 the one from the
/// upper right.
pub open spec fn line_cell(k: int, i: int) -> int {
    if k < 3 {
        3 * k + i
    } else if k < 6 {
        (k - 3) + 3 * i
    } else if k == 6 {
        4 * i
    } else {
        2 + 2 * i
    }
}

/// The three cells of line `k` hold `sign`.
pub open spec fn line_holds(signs: Seq<Sign>, k: int, sign: Sign) -> bool {
    signs[line_cell(k, 0)] == sign && signs[line_cell(k, 1)] == sign && signs[line_cell(k, 2)]
        == sign
}

/// Some line holds `sign` three times.
pub open spec fn has_line(signs: Seq<Sign>, sign: Sign) -> bool {
    exists|k: int| 0 <= k < 8 && #[trigger] line_holds(signs, k, sign)
}

/// The player whose sign fills a line: the second player if `O` does, else
/// the first if `X` does, else nobody.
pub open spec fn winner_of(signs: Seq<Sign>) -> Player {
    if has_line(signs, Sign::O) {
        Player::P2
    } else if has_line(signs, Sign::X) {
        Player::P1
    } else {
        Player::Nobody
    }
}

/// No cell is empty.
pub open spec fn board_full(signs: Seq<Sign>) -> bool {
    forall|i: int| 0 <= i < 9 ==> #[trigger] signs[i] != Sign::Blank
}

/// The sign that `player` writes.
pub open spec fn sign_of(player: Player) -> Sign {
    match player {
        Player::P1 => Sign::X,
        Player::P2 => Sign::O,
        Player::Nobody => Sign::Blank,
    }
}

/// The player who moves after `player`.
pub open spec fn next_player(player: Player) -> Player {
    if player == Player::P1 {
        Player::P2
    } else {
        Player::P1
    }
}

/// A game: the board, who is to move, who has won, and whether it is over.
pub struct TicTacToe {
    pub sign: [Sign; 9],
    pub player: Player,
    pub winner: Player,
    pub gameover: bool,
}

impl TicTacToe {
    /// A game on an empty board, with the first player to move.
    pub fn new() -> (game: Self)
        ensures
            forall|i: int| 0 <= i < 9 ==> #[trigger] game.sign@[i] == Sign::Blank,
            game.player == Player::P1,
            game.winner == Player::Nobody,
            !game.gameover,
    {
        TicTacToe {
            sign: [Sign::Blank; 9],
            player: Player::P1,
            winner: Player::Nobody,
            gameover: false,
        }
    }

    /// Tells whether some line holds `sign` three times.
    pub fn holds_line(&self, sign: Sign) -> (found: bool)
        ensures
            found == has_line(self.sign@, sign),
    {
        for k in 0..8usize
            invariant
                forall|m: int| 0 <= m < k ==> !#[trigger] line_holds(self.sign@, m, sign),
        {
            let (a, b, c): (usize, usize, usize) = if k < 3 {
                (3 * k, 3 * k + 1, 3 * k + 2)
            } else if k < 6 {
                (k - 3, k, k + 3)
            } else if k == 6 {
                (0, 4, 8)
            } else {
                (2, 4, 6)
            };
            assert(a == line_cell(k as int, 0) && b == line_cell(k as int, 1) && c == line_cell(
                k as int,
                2,
            ));
            if self.sign[a] == sign && self.sign[b] == sign && self.sign[c] == sign {
                assert(line_holds(self.sign@, k as int, sign));
                return true;
            }
        }
        false
    }

    /// The player whose sign fills a line, if one does.
    pub fn winner(&self) -> (player: Player)
        ensures
            player == winner_of(self.sign@),
    {
        if self.holds_line(Sign::O) {
            Player::P2
        } else if self.holds_line(Sign::X) {
            Player::P1
        } else {
            Player::Nobody
        }
    }

    /// Tells whether every cell is taken.
    pub fn check_draw(&self) -> (full: bool)
        ensures
            full == board_full(self.sign@),
    {
        for i in 0..9usize
            invariant
                forall|m: int| 0 <= m < i ==> #[trigger] self.sign@[m] != Sign::Blank,
        {
            if self.sign[i] == Sign::Blank {
                return false;
            }
        }
        true
    }

    /// Follows a move: the turn passes on, the winner is looked for, and the
    /// game is over once there is a winner or no empty cell.
    pub fn state_update(&mut self)
        ensures
            final(self).sign == old(self).sign,
            final(self).player == next_player(old(self).player),
            final(self).winner == winner_of(old(self).sign@),
            final(self).gameover == (old(self).gameover || winner_of(old(self).sign@)
                != Player::Nobody || board_full(old(self).sign@)),
    {
        self.player = if self.player == Player::P1 {
            Player::P2
        } else {
            Player::P1
        };
        self.winner = self.winner();
        match self.winner {
            Player::Nobody => {},
            _ => {
                self.gameover = true;
            },
        }
        if !self.gameover && self.check_draw() {
            self.gameover = true;
        }
    }

    /// The player to move takes the cell `cell` if the game is not over and
    /// the cell is empty. Tells whether the move was made.
    pub fn play(&mut self, cell: usize) -> (moved: bool)
        requires
            cell < 9,
        ensures
            moved == (!old(self).gameover && old(self).sign@[cell as int] == Sign::Blank),
            !moved ==> *final(self) == *old(self),
            moved ==> {
                &&& final(self).sign@ == old(self).sign@.update(
                    cell as int,
                    sign_of(old(self).player),
                )
                &&& final(self).player == next_player(old(self).player)
                &&& final(self).winner == winner_of(final(self).sign@)
                &&& final(self).gameover == (final(self).winner != Player::Nobody || board_full(
                    final(self).sign@,
                ))
            },
    {
        if self.gameover || self.sign[cell] != Sign::Blank {
            return false;
        }
        self.sign[cell] = match self.player {
            Player::P1 => Sign::X,
            Player::P2 => Sign::O,
            Player::Nobody => Sign::Blank,
        };
        self.state_update();
        true
    }

    /// Starts over: an empty board, the first player to move.
    pub fn restart(&mut self)
        ensures
            forall|i: int| 0 <= i < 9 ==> #[trigger] final(self).sign@[i] == Sign::Blank,
            final(self).player == Player::P1,
            final(self).winner == Player::Nobody,
            !final(self).gameover,
    {
        self.gameover = false;
        self.player = Player::P1;
        self.winner = Player::Nobody;
        self.sign = [Sign::Blank; 9];
    }
}

} // verus!
