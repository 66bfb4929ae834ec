//! The puzzle generator: a solved board from which cells are taken away at
//! random, each removal subject to the solver's test.

use crate::grid::{
    blank, cells, lemma_cells_injective, lemma_cells_update, lemma_position, position,
    CellStateGrid, Condition, Grid,
};
use crate::solution::{
    extends, lemma_blank_completions, lemma_blank_is_solvable, lemma_only_solution,
    lemma_one_hole, lemma_solved_board_completes, only_solution, solved,
};
use crate::solver::{
    count_empty, first_completion, has_one_completion, lemma_count_empty_update,
    lemma_count_empty_zero, lemma_first_completion_is_unique, lemma_full_is_own_completion,
    one_completion, only_completion, solve,
};
use vstd::prelude::*;

verus! {

/// How many cells a puzzle should lose.
#[derive(Clone, Copy, Debug, PartialEq, Eq, Structural)]
pub enum Difficulty {
    /// No rating: the solved board, with no cell taken away.
    Unrated,
    Easy,
    Intermediate,
    Hard,
}

impl Difficulty {
    /// The number of cells to take away from the solved board.
    pub open spec fn removal_target(self) -> nat {
        match self {
            Difficulty::Unrated => 0,
            Difficulty::Easy => 45,
            Difficulty::Intermediate => 54,
            Difficulty::Hard => 63,
        }
    }

    /// The name under which the difficulty is shown.
    pub open spec fn label_text(self) -> Seq<char> {
        match self {
            Difficulty::Unrated => "None"@,
            Difficulty::Easy => "Easy"@,
            Difficulty::Intermediate => "Intermediate"@,
            Difficulty::Hard => "Hard"@,
        }
    }

    /// The name under which the difficulty is shown.
    pub fn label(&self) -> (text: &'static str)
        ensures
            text@ == self.label_text(),
    {
        match self {
            Difficulty::Unrated => "None",
            Difficulty::Easy => "Easy",
            Difficulty::Intermediate => "Intermediate",
            Difficulty::Hard => "Hard",
        }
    }

    /// The number of cells to take away from the solved board.
    pub fn number_to_remove(&self) -> (target: usize)
        ensures
            target == self.removal_target(),
    {
        match self {
            Difficulty::Unrated => 0,
            Difficulty::Easy => 45,
            Difficulty::Intermediate => 54,
            Difficulty::Hard => 63,
        }
    }
}

/// The cells that [`generate`] draws before it returns what it has.
pub const ATTEMPT_LIMIT: usize = 729;

/// A puzzle, and the number of cells that were taken away to make it.
pub struct Puzzle {
    pub numbers: Grid,
    pub states: CellStateGrid,
    /// The number of empty cells of `numbers`.
    pub removed: usize,
}

impl Puzzle {
    /// Tells whether as many cells are gone as `difficulty` asks for.
    pub fn reached(&self, difficulty: Difficulty) -> (complete: bool)
        ensures
            complete == (self.removed == difficulty.removal_target()),
    {
        self.removed == difficulty.number_to_remove()
    }
}

/// Every cell is a clue.
pub open spec fn all_predetermined(states: Seq<Condition>) -> bool {
    forall|p: int| 0 <= p < 81 ==> #[trigger] states[p] == Condition::PreDetermined
}

/// `numbers` is `solution` with cells emptied: an empty cell is neutral, and
/// every other cell is a clue that holds the digit of `solution`.
pub open spec fn punctured(solution: Seq<u8>, numbers: Seq<u8>, states: Seq<Condition>) -> bool {
    forall|p: int|
        0 <= p < 81 ==> (#[trigger] numbers[p] == 0 && states[p] == Condition::Neutral) || (
        numbers[p] == solution[p] && states[p] == Condition::PreDetermined)
}

/// `numbers` and `states` are a puzzle made from the first solved board: that
/// board with cells emptied, and with that board as its only solution.
pub open spec fn well_made(numbers: Seq<u8>, states: Seq<Condition>) -> bool {
    exists|solution: Seq<u8>| #[trigger]
        first_completion(blank(), solution) && punctured(solution, numbers, states)
            && only_solution(numbers, solution)
}

/// A puzzle from which no cell is gone is the first solved board with every
/// cell a clue.
pub proof fn lemma_untouched_puzzle(numbers: Seq<u8>, states: Seq<Condition>)
    requires
        numbers.len() == 81,
        well_made(numbers, states),
        count_empty(numbers) == 0,
    ensures
        first_completion(blank(), numbers),
        solved(numbers),
        all_predetermined(states),
{
    let solution = choose|solution: Seq<u8>| #[trigger]
        first_completion(blank(), solution) && punctured(solution, numbers, states)
            && only_solution(numbers, solution);
    lemma_count_empty_zero(numbers);
    assert forall|p: int| 0 <= p < 81 implies numbers[p] == solution[p] && #[trigger] states[p]
        == Condition::PreDetermined by {
        assert(numbers[p] != 0);
    }
    assert(numbers =~= solution);
}

/// Calls `rand::random::<usize>()`, which draws from the thread's generator.
/// Nothing is claimed of the number that comes back. The generator takes its
/// seed from the operating system, on a thread's first draw and again each
/// time it reseeds itself, and a draw that needs a seed panics if the system
/// has no entropy to give.
#[verifier::external_body]
fn random_number() -> usize {
    rand::random::<usize>()
}

/// Tries to take the digit at (`row`, `col`) away. An empty cell is left
/// alone. A filled cell is emptied and marked [`Condition::Neutral`]; if
/// exactly one board fills in what is left, the removal stands, otherwise the
/// digit comes back and the cell is marked [`Condition::PreDetermined`].
pub fn try_remove(numbers: &mut Grid, states: &mut CellStateGrid, row: usize, col: usize) -> (removed:
    bool)
    requires
        row < 9,
        col < 9,
    ensures
        removed == (cells(*old(numbers))[position(row as int, col as int)] != 0
            && one_completion(cells(*old(numbers)).update(position(row as int, col as int), 0))),
        removed ==> cells(*final(numbers)) == cells(*old(numbers)).update(
            position(row as int, col as int),
            0,
        ) && cells(*final(states)) == cells(*old(states)).update(
            position(row as int, col as int),
            Condition::Neutral,
        ),
        !removed ==> *final(numbers) == *old(numbers),
        !removed && cells(*old(numbers))[position(row as int, col as int)] == 0 ==> *final(states)
            == *old(states),
        !removed && cells(*old(numbers))[position(row as int, col as int)] != 0 ==> cells(
            *final(states),
        ) == cells(*old(states)).update(
            position(row as int, col as int),
            Condition::PreDetermined,
        ),
{
    proof {
        lemma_position(row as int, col as int);
    }
    let backup = numbers[row][col];
    if backup == 0 {
        return false;
    }
    numbers[row][col] = 0;
    states[row][col] = Condition::Neutral;
    proof {
        lemma_cells_update(*old(numbers), *numbers, row as int, col as int, 0);
        lemma_cells_update(*old(states), *states, row as int, col as int, Condition::Neutral);
    }
    if has_one_completion(numbers) {
        return true;
    }
    let ghost cleared = *numbers;
    let ghost marked = *states;
    numbers[row][col] = backup;
    states[row][col] = Condition::PreDetermined;
    proof {
        lemma_cells_update(cleared, *numbers, row as int, col as int, backup);
        assert(cells(*numbers) =~= cells(*old(numbers)));
        lemma_cells_injective(*numbers, *old(numbers));
        lemma_cells_update(marked, *states, row as int, col as int, Condition::PreDetermined);
        assert(cells(*states) =~= cells(*old(states)).update(
            position(row as int, col as int),
            Condition::PreDetermined,
        ));
    }
    false
}

/// The board and its conditions after the cell `pick % 81` was drawn: an
/// empty cell is left alone; a filled cell goes, and is neutral, if exactly
/// one board fills in what is left; otherwise it stays, and is a clue.
pub open spec fn after_draw(numbers: Seq<u8>, states: Seq<Condition>, pick: int) -> (
    Seq<u8>,
    Seq<Condition>,
) {
    let p = pick % 81;
    if numbers[p] == 0 {
        (numbers, states)
    } else if one_completion(numbers.update(p, 0)) {
        (numbers.update(p, 0), states.update(p, Condition::Neutral))
    } else {
        (numbers, states.update(p, Condition::PreDetermined))
    }
}

/// The board and its conditions after a run over `draws`: each draw is
/// followed as [`after_draw`] says, in order, until `target` cells are empty
/// or the draws are used up.
pub open spec fn after_draws(
    numbers: Seq<u8>,
    states: Seq<Condition>,
    draws: Seq<usize>,
    target: nat,
) -> (Seq<u8>, Seq<Condition>)
    decreases draws.len(),
{
    if draws.len() == 0 || count_empty(numbers) >= target {
        (numbers, states)
    } else {
        let next = after_draw(numbers, states, draws[0] as int);
        after_draws(next.0, next.1, draws.skip(1), target)
    }
}

/// `numbers` and `states` are what a run over `draws` makes of the first
/// solved board with every cell a clue.
pub open spec fn made_by_draws(
    numbers: Seq<u8>,
    states: Seq<Condition>,
    draws: Seq<usize>,
    target: nat,
) -> bool {
    exists|solution: Seq<u8>| #[trigger]
        first_completion(blank(), solution) && (numbers, states) == after_draws(
            solution,
            Seq::new(81, |p: int| Condition::PreDetermined),
            draws,
            target,
        )
}

/// `numbers` and `states` are what a run over some `count` draws makes of
/// the first solved board with every cell a clue.
pub open spec fn made_by_some_draws(
    numbers: Seq<u8>,
    states: Seq<Condition>,
    count: nat,
    target: nat,
) -> bool {
    exists|draws: Seq<usize>|
        draws.len() == count && #[trigger] made_by_draws(numbers, states, draws, target)
}

/// The same draws make the same puzzle.
pub proof fn lemma_same_draws_same_puzzle(
    numbers: Seq<u8>,
    states: Seq<Condition>,
    other_numbers: Seq<u8>,
    other_states: Seq<Condition>,
    draws: Seq<usize>,
    target: nat,
)
    requires
        made_by_draws(numbers, states, draws, target),
        made_by_draws(other_numbers, other_states, draws, target),
    ensures
        numbers == other_numbers,
        states == other_states,
{
    let clues = Seq::new(81, |p: int| Condition::PreDetermined);
    let a = choose|solution: Seq<u8>| #[trigger]
        first_completion(blank(), solution) && (numbers, states) == after_draws(
            solution,
            clues,
            draws,
            target,
        );
    let b = choose|solution: Seq<u8>| #[trigger]
        first_completion(blank(), solution) && (other_numbers, other_states) == after_draws(
            solution,
            clues,
            draws,
            target,
        );
    lemma_first_completion_is_unique(blank(), a, b);
}

/// A cell that no draw names is after the run as it was before.
pub proof fn lemma_undrawn_cell_stays(
    numbers: Seq<u8>,
    states: Seq<Condition>,
    draws: Seq<usize>,
    target: nat,
    p: int,
)
    requires
        numbers.len() == 81,
        states.len() == 81,
        0 <= p < 81,
        forall|i: int| 0 <= i < draws.len() ==> #[trigger] draws[i] % 81 != p,
    ensures
        after_draws(numbers, states, draws, target).0[p] == numbers[p],
        after_draws(numbers, states, draws, target).1[p] == states[p],
    decreases draws.len(),
{
    if !(draws.len() == 0 || count_empty(numbers) >= target) {
        let next = after_draw(numbers, states, draws[0] as int);
        assert(draws[0] % 81 != p);
        assert forall|i: int| 0 <= i < draws.skip(1).len() implies #[trigger] draws.skip(1)[i] % 81
            != p by {
            assert(draws.skip(1)[i] == draws[i + 1]);
        }
        lemma_undrawn_cell_stays(next.0, next.1, draws.skip(1), target, p);
    }
}

/// Makes a puzzle from the cells that `draws` names, each number taken
/// modulo 81: solves the blank board, marks every cell a clue, then tries to
/// take the drawn cells away with [`try_remove`], one after the other, until
/// as many removals stand as `difficulty` asks for or the draws are used up.
///
/// `puzzle.removed` counts the cells that are gone; [`Puzzle::reached`]
/// tells whether they are as many as were asked for.
pub fn generate_from(difficulty: Difficulty, draws: &Vec<usize>) -> (puzzle: Puzzle)
    ensures
        made_by_draws(
            cells(puzzle.numbers),
            cells(puzzle.states),
            draws@,
            difficulty.removal_target(),
        ),
        well_made(cells(puzzle.numbers), cells(puzzle.states)),
        puzzle.removed == count_empty(cells(puzzle.numbers)),
        puzzle.removed <= difficulty.removal_target(),
        puzzle.removed <= draws.len(),
        (puzzle.removed == 0) == (difficulty.removal_target() == 0 || draws.len() == 0),
        puzzle.removed == 0 ==> first_completion(blank(), cells(puzzle.numbers)) && solved(
            cells(puzzle.numbers),
        ) && all_predetermined(cells(puzzle.states)),
{
    let mut numbers: Grid = [[0u8; 9]; 9];
    proof {
        assert(cells(numbers) =~= blank());
        lemma_blank_is_solvable();
    }
    solve(&mut numbers);
    let ghost solution = cells(numbers);
    let ghost clues = Seq::new(81, |p: int| Condition::PreDetermined);
    let mut states: CellStateGrid = [[Condition::PreDetermined; 9]; 9];
    proof {
        lemma_blank_completions(solution);
        lemma_full_is_own_completion(solution);
        lemma_count_empty_zero(solution);
        assert(cells(states) =~= clues);
        assert(draws@.skip(0) =~= draws@);
    }
    let target = difficulty.number_to_remove();
    let mut removed: usize = 0;
    let mut done: usize = 0;
    while removed < target && done < draws.len()
        invariant
            first_completion(blank(), solution),
            solved(solution),
            punctured(solution, cells(numbers), cells(states)),
            only_completion(cells(numbers), solution),
            removed == count_empty(cells(numbers)),
            removed <= target,
            target == difficulty.removal_target(),
            done <= draws.len(),
            removed <= done,
            done > 0 && target > 0 ==> removed >= 1,
            after_draws(cells(numbers), cells(states), draws@.skip(done as int), target as nat)
                == after_draws(solution, clues, draws@, target as nat),
        decreases draws.len() - done,
    {
        let pick = draws[done] % 81;
        let row = pick / 9;
        let col = pick % 9;
        let ghost before = cells(numbers);
        let ghost marks = cells(states);
        let ghost rest = draws@.skip(done as int);
        let ghost p = position(row as int, col as int);
        proof {
            lemma_position(row as int, col as int);
            assert(rest[0] == draws@[done as int]);
            assert(rest.skip(1) =~= draws@.skip(done + 1));
            if removed == 0 {
                lemma_count_empty_zero(before);
                assert(before =~= solution);
                lemma_one_hole(solution, p);
            }
        }
        if try_remove(&mut numbers, &mut states, row, col) {
            removed += 1;
            proof {
                let after = cells(numbers);
                lemma_count_empty_update(before, p, 0);
                assert(punctured(solution, after, cells(states)));
                assert(extends(after, solution)) by {
                    assert forall|q: int| 0 <= q < 81 && after[q] != 0 implies #[trigger] solution[q]
                        == after[q] by {
                        assert(after[q] == before[q]);
                    }
                }
                lemma_solved_board_completes(after, solution);
                let single = choose|single: Seq<u8>| only_completion(after, single);
                assert(single == solution);
            }
        } else {
            assert(punctured(solution, cells(numbers), cells(states)));
        }
        proof {
            assert(after_draw(before, marks, rest[0] as int) == (cells(numbers), cells(states)));
        }
        done += 1;
    }
    proof {
        assert(extends(cells(numbers), solution)) by {
            assert forall|q: int| 0 <= q < 81 && cells(numbers)[q] != 0 implies #[trigger] solution[q]
                == cells(numbers)[q] by {}
        }
        lemma_only_solution(cells(numbers), solution);
    }
    let puzzle = Puzzle { numbers, states, removed };
    proof {
        assert(first_completion(blank(), solution) && punctured(
            solution,
            cells(puzzle.numbers),
            cells(puzzle.states),
        ) && only_solution(cells(puzzle.numbers), solution));
        assert(first_completion(blank(), solution) && (cells(puzzle.numbers), cells(puzzle.states))
            == after_draws(solution, clues, draws@, target as nat));
        if removed == 0 {
            lemma_untouched_puzzle(cells(puzzle.numbers), cells(puzzle.states));
        }
    }
    puzzle
}

/// Makes a puzzle at random: draws `max_attempts` numbers and makes the
/// puzzle from them as [`generate_from`] does.
///
/// Whatever was drawn, the puzzle is the first solved board with
/// `puzzle.removed` cells emptied, it has that board as its only solution,
/// and no more cells are gone than `difficulty` asks for. The first cell
/// drawn always goes. Whether all that were asked for are gone depends on
/// the draws: [`Puzzle::reached`] tells.
pub fn generate_within(difficulty: Difficulty, max_attempts: usize) -> (puzzle: Puzzle)
    ensures
        made_by_some_draws(
            cells(puzzle.numbers),
            cells(puzzle.states),
            max_attempts as nat,
            difficulty.removal_target(),
        ),
        well_made(cells(puzzle.numbers), cells(puzzle.states)),
        puzzle.removed == count_empty(cells(puzzle.numbers)),
        puzzle.removed <= difficulty.removal_target(),
        puzzle.removed <= max_attempts,
        (puzzle.removed == 0) == (difficulty.removal_target() == 0 || max_attempts == 0),
        puzzle.removed == 0 ==> first_completion(blank(), cells(puzzle.numbers)) && solved(
            cells(puzzle.numbers),
        ) && all_predetermined(cells(puzzle.states)),
{
    let mut draws: Vec<usize> = Vec::new();
    while draws.len() < max_attempts
        invariant
            draws.len() <= max_attempts,
        decreases max_attempts - draws.len(),
    {
        draws.push(random_number());
    }
    let puzzle = generate_from(difficulty, &draws);
    proof {
        assert(draws@.len() == max_attempts && made_by_draws(
            cells(puzzle.numbers),
            cells(puzzle.states),
            draws@,
            difficulty.removal_target(),
        ));
    }
    puzzle
}

/// Makes a puzzle at random as [`generate_within`] does, from
/// [`ATTEMPT_LIMIT`] draws.
pub fn generate(difficulty: Difficulty) -> (puzzle: Puzzle)
    ensures
        made_by_some_draws(
            cells(puzzle.numbers),
            cells(puzzle.states),
            ATTEMPT_LIMIT as nat,
            difficulty.removal_target(),
        ),
        well_made(cells(puzzle.numbers), cells(puzzle.states)),
        puzzle.removed == count_empty(cells(puzzle.numbers)),
        puzzle.removed <= difficulty.removal_target(),
        (puzzle.removed == 0) == (difficulty.removal_target() == 0),
        puzzle.removed == 0 ==> first_completion(blank(), cells(puzzle.numbers)) && solved(
            cells(puzzle.numbers),
        ) && all_predetermined(cells(puzzle.states)),
{
    generate_within(difficulty, ATTEMPT_LIMIT)
}

} // verus!
