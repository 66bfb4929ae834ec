//! What the solver's results look like: solved boards, their rows, columns
//! and boxes, and the boards that fill in a legal puzzle.

use crate::grid::{
    blank, conflicts, consistent, digits_in_range, lemma_coordinates, lemma_position, peers,
    position, sees,
};
use crate::solver::{completes, first_completion, only_completion, solvable};
use vstd::prelude::*;
use vstd::seq_lib::seq_to_set_is_finite;
use vstd::set_lib::{lemma_int_range, lemma_subset_equality, set_int_range};

verus! {

/// A solved board: every cell holds a digit from 1 to 9, and no cell sees a
/// cell with the same digit.
pub open spec fn solved(cells: Seq<u8>) -> bool {
    &&& cells.len() == 81
    &&& forall|p: int| 0 <= p < 81 ==> 1 <= #[trigger] cells[p] <= 9
    &&& forall|p: int, q: int|
        0 <= p < 81 && 0 <= q < 81 && #[trigger] peers(p, q) ==> cells[p] != cells[q]
}

/// The position of the `k`-th cell of a unit. Units 0 to 8 are the rows, 9
/// to 17 the columns, 18 to 26 the boxes, each from the upper left.
pub open spec fn unit_cell(unit: int, k: int) -> int {
    if unit < 9 {
        unit * 9 + k
    } else if unit < 18 {
        k * 9 + (unit - 9)
    } else {
        ((unit - 18) / 3 * 3 + k / 3) * 9 + ((unit - 18) % 3 * 3 + k % 3)
    }
}

/// `digit` stands in exactly one cell of the unit.
pub open spec fn occurs_once(cells: Seq<u8>, unit: int, digit: int) -> bool {
    exists|k: int|
        0 <= k < 9 && #[trigger] cells[unit_cell(unit, k)] == digit && forall|j: int|
            0 <= j < 9 && j != k ==> #[trigger] cells[unit_cell(unit, j)] != digit
}

/// The cells of a unit lie on the board and see each other.
pub proof fn lemma_unit_cells_are_peers(unit: int, j: int, k: int)
    requires
        0 <= unit < 27,
        0 <= j < 9,
        0 <= k < 9,
    ensures
        0 <= unit_cell(unit, k) < 81,
        j != k ==> peers(unit_cell(unit, j), unit_cell(unit, k)),
{
    if unit < 9 {
        lemma_position(unit, j);
        lemma_position(unit, k);
    } else if unit < 18 {
        lemma_position(j, unit - 9);
        lemma_position(k, unit - 9);
    } else {
        let top = (unit - 18) / 3 * 3;
        let left = (unit - 18) % 3 * 3;
        lemma_position(top + j / 3, left + j % 3);
        lemma_position(top + k / 3, left + k % 3);
        assert(unit_cell(unit, j) == position(top + j / 3, left + j % 3));
        assert(unit_cell(unit, k) == position(top + k / 3, left + k % 3));
        assert((top + j / 3) / 3 == (unit - 18) / 3);
        assert((top + k / 3) / 3 == (unit - 18) / 3);
        assert((left + j % 3) / 3 == (unit - 18) % 3);
        assert((left + k % 3) / 3 == (unit - 18) % 3);
        if j != k {
            assert(j / 3 != k / 3 || j % 3 != k % 3);
        }
    }
}

/// Nine different digits from 1 to 9 are all of them.
proof fn lemma_nine_digits(values: Seq<int>, digit: int)
    requires
        values.len() == 9,
        values.no_duplicates(),
        forall|k: int| 0 <= k < 9 ==> 1 <= #[trigger] values[k] <= 9,
        1 <= digit <= 9,
    ensures
        exists|k: int| 0 <= k < 9 && #[trigger] values[k] == digit,
{
    values.unique_seq_to_set();
    seq_to_set_is_finite(values);
    lemma_int_range(1, 10);
    assert(values.to_set().subset_of(set_int_range(1, 10)));
    lemma_subset_equality(values.to_set(), set_int_range(1, 10));
    assert(set_int_range(1, 10).contains(digit));
    assert(values.to_set().contains(digit));
}

/// On a solved board each row, each column and each box holds each of the
/// digits 1 to 9 exactly once.
pub proof fn lemma_solved_units(cells: Seq<u8>, unit: int, digit: int)
    requires
        solved(cells),
        0 <= unit < 27,
        1 <= digit <= 9,
    ensures
        occurs_once(cells, unit, digit),
{
    let values = Seq::new(9, |k: int| cells[unit_cell(unit, k)] as int);
    assert forall|k: int| 0 <= k < 9 implies 1 <= #[trigger] values[k] <= 9 by {
        lemma_unit_cells_are_peers(unit, k, k);
    }
    assert forall|j: int, k: int| 0 <= j < 9 && 0 <= k < 9 && j != k implies values[j]
        != values[k] by {
        lemma_unit_cells_are_peers(unit, j, k);
        lemma_unit_cells_are_peers(unit, k, j);
    }
    lemma_nine_digits(values, digit);
    let k = choose|k: int| 0 <= k < 9 && #[trigger] values[k] == digit;
    assert(cells[unit_cell(unit, k)] == digit);
    assert forall|j: int| 0 <= j < 9 && j != k implies #[trigger] cells[unit_cell(unit, j)]
        != digit by {
        assert(values[j] != values[k]);
    }
}

/// The boards that fill in a legal puzzle with digits up to 9 are solved
/// boards.
pub proof fn lemma_completion_of_legal_board_is_solved(puzzle: Seq<u8>, solution: Seq<u8>)
    requires
        puzzle.len() == 81,
        consistent(puzzle),
        digits_in_range(puzzle),
        completes(puzzle, solution),
    ensures
        solved(solution),
{
    assert forall|p: int| 0 <= p < 81 implies 1 <= #[trigger] solution[p] <= 9 by {
        if puzzle[p] != 0 {
            assert(solution[p] == puzzle[p]);
        }
    }
    assert forall|p: int, q: int| 0 <= p < 81 && 0 <= q < 81 && #[trigger] peers(p, q) implies solution[p]
        != solution[q] by {
        if puzzle[p] == 0 {
            assert(!conflicts(solution, p, solution[p]));
        } else if puzzle[q] == 0 {
            assert(!conflicts(solution, q, solution[q]));
            assert(peers(q, p));
        } else {
            assert(solution[p] == puzzle[p]);
            assert(solution[q] == puzzle[q]);
        }
    }
}

/// `solution` keeps every digit of `puzzle`.
pub open spec fn extends(puzzle: Seq<u8>, solution: Seq<u8>) -> bool {
    forall|p: int| 0 <= p < 81 && puzzle[p] != 0 ==> #[trigger] solution[p] == puzzle[p]
}

/// A solved board fills in every puzzle whose digits it keeps.
pub proof fn lemma_solved_board_completes(puzzle: Seq<u8>, solution: Seq<u8>)
    requires
        solved(solution),
        extends(puzzle, solution),
    ensures
        completes(puzzle, solution),
{
    assert forall|p: int| 0 <= p < 81 && puzzle[p] == 0 implies 1 <= #[trigger] solution[p] <= 9
        && !conflicts(solution, p, solution[p]) by {
        assert forall|q: int| 0 <= q < 81 && peers(p, q) implies solution[q] != solution[p] by {}
    }
}

/// A legal puzzle with digits up to 9 can be filled in exactly when some
/// solved board keeps its digits: on such a puzzle the solver finds a solved
/// board if there is one.
pub proof fn lemma_solvable_legal_board(puzzle: Seq<u8>)
    requires
        puzzle.len() == 81,
        consistent(puzzle),
        digits_in_range(puzzle),
    ensures
        solvable(puzzle) == (exists|solution: Seq<u8>| #[trigger]
            solved(solution) && extends(puzzle, solution)),
{
    if solvable(puzzle) {
        let solution = choose|solution: Seq<u8>| completes(puzzle, solution);
        lemma_completion_of_legal_board_is_solved(puzzle, solution);
        assert(solved(solution) && extends(puzzle, solution));
    }
    if exists|solution: Seq<u8>| #[trigger] solved(solution) && extends(puzzle, solution) {
        let solution = choose|solution: Seq<u8>| #[trigger]
            solved(solution) && extends(puzzle, solution);
        lemma_solved_board_completes(puzzle, solution);
    }
}

/// `solution` is a solved board that keeps the digits of `puzzle`, and the
/// only one.
pub open spec fn only_solution(puzzle: Seq<u8>, solution: Seq<u8>) -> bool {
    &&& solved(solution)
    &&& extends(puzzle, solution)
    &&& forall|other: Seq<u8>| #[trigger] solved(other) && extends(puzzle, other) ==> other == solution
}

/// What is left of a solved board when cells are emptied is a legal puzzle
/// with digits up to 9.
pub proof fn lemma_part_of_solved_board_is_legal(puzzle: Seq<u8>, solution: Seq<u8>)
    requires
        puzzle.len() == 81,
        solved(solution),
        extends(puzzle, solution),
    ensures
        consistent(puzzle),
        digits_in_range(puzzle),
{
    assert forall|p: int| 0 <= p < 81 implies #[trigger] puzzle[p] <= 9 by {
        if puzzle[p] != 0 {
            assert(solution[p] == puzzle[p]);
        }
    }
    assert forall|p: int, q: int|
        0 <= p < 81 && 0 <= q < 81 && #[trigger] peers(p, q) && puzzle[p] != 0 implies puzzle[p]
        != puzzle[q] by {
        assert(solution[p] == puzzle[p]);
        if puzzle[q] != 0 {
            assert(solution[q] == puzzle[q]);
        }
    }
}

/// For a puzzle made from a solved board, to have that board as its only
/// completion is to have it as its only solution.
pub proof fn lemma_only_solution(puzzle: Seq<u8>, solution: Seq<u8>)
    requires
        puzzle.len() == 81,
        solved(solution),
        extends(puzzle, solution),
    ensures
        only_completion(puzzle, solution) == only_solution(puzzle, solution),
{
    lemma_part_of_solved_board_is_legal(puzzle, solution);
    lemma_solved_board_completes(puzzle, solution);
    if only_completion(puzzle, solution) {
        assert forall|other: Seq<u8>| #[trigger] solved(other) && extends(puzzle, other) implies other
            == solution by {
            lemma_solved_board_completes(puzzle, other);
        }
    }
    if only_solution(puzzle, solution) {
        assert forall|other: Seq<u8>| #[trigger] completes(puzzle, other) implies other
            == solution by {
            lemma_completion_of_legal_board_is_solved(puzzle, other);
            assert(extends(puzzle, other));
        }
    }
}

/// A solved board with one cell emptied has that board as its only
/// completion: the row of the cell leaves one digit open.
pub proof fn lemma_one_hole(solution: Seq<u8>, p: int)
    requires
        solved(solution),
        0 <= p < 81,
    ensures
        only_completion(solution.update(p, 0), solution),
{
    let puzzle = solution.update(p, 0);
    assert(extends(puzzle, solution));
    lemma_solved_board_completes(puzzle, solution);
    lemma_part_of_solved_board_is_legal(puzzle, solution);
    assert forall|other: Seq<u8>| #[trigger] completes(puzzle, other) implies other == solution by {
        lemma_completion_of_legal_board_is_solved(puzzle, other);
        lemma_coordinates(p);
        let row = p / 9;
        lemma_solved_units(other, row, solution[p] as int);
        let k = choose|k: int|
            0 <= k < 9 && #[trigger] other[unit_cell(row, k)] == solution[p] as int;
        let q = unit_cell(row, k);
        if q != p {
            lemma_position(row, k);
            assert(peers(p, q));
            assert(puzzle[q] != 0);
            assert(other[q] == puzzle[q]);
            assert(solution[q] == solution[p]);
        }
        assert forall|r: int| 0 <= r < 81 implies other[r] == solution[r] by {
            if r != p {
                assert(puzzle[r] != 0);
                assert(other[r] == puzzle[r]);
            }
        }
        assert(other =~= solution);
    }
}

/// The digit in row `row` and column `col` of a board whose rows are
/// shifted copies of its first row, 1 to 9.
spec fn shifted(row: int, col: int) -> int {
    ((row % 3) * 3 + row / 3 + col) % 9 + 1
}

/// Numbers less than nine apart leave different remainders.
proof fn lemma_remainders_differ(x: int, y: int)
    requires
        x != y,
        -9 < x - y < 9,
    ensures
        x % 9 != y % 9,
{
}

/// Cells that see each other hold different digits in the shifted board.
proof fn lemma_shifted_rows_differ(row: int, col: int, other_row: int, other_col: int)
    requires
        0 <= row < 9,
        0 <= col < 9,
        0 <= other_row < 9,
        0 <= other_col < 9,
        sees(row, col, other_row, other_col),
    ensures
        shifted(row, col) != shifted(other_row, other_col),
{
    let x = (row % 3) * 3 + row / 3 + col;
    let y = (other_row % 3) * 3 + other_row / 3 + other_col;
    if row == other_row {
        lemma_remainders_differ(x, y);
    } else if col == other_col {
        let a = (row % 3) * 3 + row / 3;
        let b = (other_row % 3) * 3 + other_row / 3;
        assert(0 <= a < 9 && 0 <= b < 9);
        assert(a != b);
        lemma_remainders_differ(x, y);
    } else {
        assert(row / 3 == other_row / 3 && col / 3 == other_col / 3);
        assert(x - y == 3 * (row % 3 - other_row % 3) + (col % 3 - other_col % 3));
        lemma_remainders_differ(x, y);
    }
}

/// The blank board can be filled in.
pub proof fn lemma_blank_is_solvable()
    ensures
        solvable(blank()),
{
    let pattern = Seq::new(81, |p: int| shifted(p / 9, p % 9) as u8);
    assert forall|p: int, q: int| 0 <= p < 81 && 0 <= q < 81 && #[trigger] peers(p, q) implies pattern[p]
        != pattern[q] by {
        lemma_coordinates(p);
        lemma_coordinates(q);
        lemma_shifted_rows_differ(p / 9, p % 9, q / 9, q % 9);
    }
    assert(solved(pattern));
    lemma_solved_board_completes(blank(), pattern);
}

/// The boards that fill in the blank board are the solved boards.
pub proof fn lemma_blank_completions(solution: Seq<u8>)
    ensures
        completes(blank(), solution) == solved(solution),
{
    if completes(blank(), solution) {
        assert(consistent(blank()));
        assert(digits_in_range(blank()));
        lemma_completion_of_legal_board_is_solved(blank(), solution);
    }
    if solved(solution) {
        lemma_solved_board_completes(blank(), solution);
    }
}

/// The solver succeeds on the blank board, and the board it ends on is
/// solved: each row, each column and each box holds each of the digits 1 to 9
/// exactly once.
pub proof fn lemma_solving_the_blank_board(result: Seq<u8>)
    ensures
        solvable(blank()),
        first_completion(blank(), result) ==> solved(result) && forall|unit: int, digit: int|
            0 <= unit < 27 && 1 <= digit <= 9 ==> #[trigger] occurs_once(result, unit, digit),
{
    lemma_blank_is_solvable();
    if first_completion(blank(), result) {
        lemma_blank_completions(result);
        assert forall|unit: int, digit: int| 0 <= unit < 27 && 1 <= digit <= 9 implies #[trigger] occurs_once(
            result,
            unit,
            digit,
        ) by {
            lemma_solved_units(result, unit, digit);
        }
    }
}

} // verus!
