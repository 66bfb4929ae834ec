//! The board of a game in progress: the puzzle, what the player has
//! written into it, and how each cell stands.

use crate::checker::is_valid;
use crate::generator::{
    all_predetermined, generate, made_by_some_draws, well_made, Difficulty, ATTEMPT_LIMIT,
};
use crate::grid::{
    cells, conflicts, lemma_cells_update, lemma_coordinates, lemma_position, position,
    CellStateGrid, Condition, Grid,
};
use crate::solution::solved;
use crate::solver::count_empty;
use vstd::prelude::*;

verus! {

/// The digits on the board, the condition of each cell, and the digit that
/// the player has picked to write next (0 for none).
pub struct GameBoard {
    pub numbers: Grid,
    pub number_state: CellStateGrid,
    pub number_selected: u8,
}

/// How the cell at `p` stands, given how it stood: a clue stays a clue;
/// another cell is wrong if its digit stands in a cell that it sees, and
/// neutral otherwise.
pub open spec fn judged(numbers: Seq<u8>, before: Condition, p: int) -> Condition {
    if before == Condition::PreDetermined {
        Condition::PreDetermined
    } else if numbers[p] != 0 && conflicts(numbers, p, numbers[p]) {
        Condition::Wrong
    } else {
        Condition::Neutral
    }
}

/// The cell at `p` is filled and not wrong.
pub open spec fn settled(numbers: Seq<u8>, states: Seq<Condition>, p: int) -> bool {
    numbers[p] != 0 && states[p] != Condition::Wrong
}

/// The game is over: every cell is filled and none is wrong.
pub open spec fn finished(numbers: Seq<u8>, states: Seq<Condition>) -> bool {
    forall|p: int| 0 <= p < 81 ==> #[trigger] settled(numbers, states, p)
}

impl GameBoard {
    /// A board with a fresh puzzle of the given difficulty and no digit
    /// picked, and whether as many cells of the puzzle are gone as
    /// `difficulty` asks for. The puzzle is as [`generate`] makes it.
    pub fn init(difficulty: &Difficulty) -> (made: (GameBoard, bool))
        ensures
            made_by_some_draws(
                cells(made.0.numbers),
                cells(made.0.number_state),
                ATTEMPT_LIMIT as nat,
                difficulty.removal_target(),
            ),
            well_made(cells(made.0.numbers), cells(made.0.number_state)),
            count_empty(cells(made.0.numbers)) <= difficulty.removal_target(),
            made.1 == (count_empty(cells(made.0.numbers)) == difficulty.removal_target()),
            (count_empty(cells(made.0.numbers)) == 0) == (difficulty.removal_target() == 0),
            difficulty.removal_target() == 0 ==> solved(cells(made.0.numbers))
                && all_predetermined(cells(made.0.number_state)),
            made.0.number_selected == 0,
    {
        let puzzle = generate(*difficulty);
        let reached = puzzle.reached(*difficulty);
        let board =
            GameBoard { numbers: puzzle.numbers, number_state: puzzle.states, number_selected: 0 };
        (board, reached)
    }

    /// Tells whether `number` may stand in row `i` and column `j` of
    /// `numbers`: `true` means fine, `false` that the row, the column or the
    /// box already holds it elsewhere.
    pub fn check_valid(number: u8, i: usize, j: usize, numbers: &Grid) -> (valid: bool)
        requires
            i < 9,
            j < 9,
        ensures
            valid == !conflicts(cells(*numbers), position(i as int, j as int), number),
    {
        is_valid(numbers, i, j, number)
    }

    /// Brings the condition of every cell up to date with the digits, and
    /// tells whether the game is over.
    pub fn update_state(&mut self) -> (over: bool)
        ensures
            final(self).numbers == old(self).numbers,
            final(self).number_selected == old(self).number_selected,
            forall|p: int|
                0 <= p < 81 ==> #[trigger] cells(final(self).number_state)[p] == judged(
                    cells(old(self).numbers),
                    cells(old(self).number_state)[p],
                    p,
                ),
            over == finished(cells(final(self).numbers), cells(final(self).number_state)),
    {
        let mut over = true;
        let ghost numbers = cells(self.numbers);
        for p in 0..81usize
            invariant
                self.numbers == old(self).numbers,
                self.number_selected == old(self).number_selected,
                numbers == cells(self.numbers),
                forall|q: int|
                    0 <= q < p ==> #[trigger] cells(self.number_state)[q] == judged(
                        numbers,
                        cells(old(self).number_state)[q],
                        q,
                    ),
                forall|q: int|
                    p <= q < 81 ==> #[trigger] cells(self.number_state)[q] == cells(
                        old(self).number_state,
                    )[q],
                over == (forall|q: int|
                    0 <= q < p ==> #[trigger] settled(numbers, cells(self.number_state), q)),
        {
            let row = p / 9;
            let col = p % 9;
            proof {
                lemma_coordinates(p as int);
            }
            let digit = self.numbers[row][col];
            let ghost before = self.number_state;
            assert(numbers[p as int] == digit);
            assert(cells(before)[p as int] == before[row as int][col as int]);
            let now = match self.number_state[row][col] {
                Condition::PreDetermined => Condition::PreDetermined,
                _ => {
                    if digit != 0 && !is_valid(&self.numbers, row, col, digit) {
                        Condition::Wrong
                    } else {
                        Condition::Neutral
                    }
                },
            };
            self.number_state[row][col] = now;
            proof {
                lemma_cells_update(before, self.number_state, row as int, col as int, now);
                assert(now == judged(numbers, cells(old(self).number_state)[p as int], p as int));
            }
            let ghost was_over = over;
            if digit == 0 {
                over = false;
            }
            match now {
                Condition::Wrong => {
                    over = false;
                },
                _ => {},
            }
            proof {
                let after = cells(self.number_state);
                assert forall|q: int| 0 <= q < p implies #[trigger] settled(numbers, after, q)
                    == settled(numbers, cells(before), q) by {
                    assert(after[q] == cells(before)[q]);
                }
                assert(settled(numbers, after, p as int) == (digit != 0 && now
                    != Condition::Wrong));
                if was_over {
                    assert forall|q: int| 0 <= q < p implies #[trigger] settled(
                        numbers,
                        after,
                        q,
                    ) by {
                        assert(settled(numbers, cells(before), q));
                    }
                } else {
                    let q = choose|q: int| 0 <= q < p && !settled(numbers, cells(before), q);
                    assert(!settled(numbers, after, q));
                }
            }
        }
        over
    }

    /// Writes the picked digit into the cell at (`row`, `col`) if that cell
    /// is empty, and brings the conditions up to date. Tells whether that
    /// ended the game. A filled cell is left as it is.
    pub fn place_number(&mut self, row: usize, col: usize) -> (over: bool)
        requires
            row < 9,
            col < 9,
        ensures
            final(self).number_selected == old(self).number_selected,
            cells(old(self).numbers)[position(row as int, col as int)] != 0 ==> !over
                && *final(self) == *old(self),
            cells(old(self).numbers)[position(row as int, col as int)] == 0 ==> {
                &&& cells(final(self).numbers) == cells(old(self).numbers).update(
                    position(row as int, col as int),
                    old(self).number_selected,
                )
                &&& forall|p: int|
                    0 <= p < 81 ==> #[trigger] cells(final(self).number_state)[p] == judged(
                        cells(final(self).numbers),
                        cells(old(self).number_state)[p],
                        p,
                    )
                &&& over == finished(cells(final(self).numbers), cells(final(self).number_state))
            },
    {
        proof {
            lemma_position(row as int, col as int);
        }
        if self.numbers[row][col] != 0 {
            return false;
        }
        let ghost before = self.numbers;
        self.numbers[row][col] = self.number_selected;
        proof {
            lemma_cells_update(before, self.numbers, row as int, col as int, self.number_selected);
        }
        self.update_state()
    }

    /// Empties the cell at (`row`, `col`) unless it is a clue, and brings the
    /// conditions up to date. Tells whether the cell was emptied.
    pub fn erase_number(&mut self, row: usize, col: usize) -> (erased: bool)
        requires
            row < 9,
            col < 9,
        ensures
            final(self).number_selected == old(self).number_selected,
            erased == (cells(old(self).number_state)[position(row as int, col as int)]
                != Condition::PreDetermined),
            !erased ==> *final(self) == *old(self),
            erased ==> {
                &&& cells(final(self).numbers) == cells(old(self).numbers).update(
                    position(row as int, col as int),
                    0,
                )
                &&& forall|p: int|
                    0 <= p < 81 ==> #[trigger] cells(final(self).number_state)[p] == judged(
                        cells(final(self).numbers),
                        cells(old(self).number_state)[p],
                        p,
                    )
            },
    {
        proof {
            lemma_position(row as int, col as int);
        }
        match self.number_state[row][col] {
            Condition::PreDetermined => {
                return false;
            },
            _ => {},
        }
        let ghost before = self.numbers;
        self.numbers[row][col] = 0;
        proof {
            lemma_cells_update(before, self.numbers, row as int, col as int, 0);
        }
        self.update_state();
        true
    }
}

} // verus!
