//! The solver: a backtracking search that completes a board, and the test
//! that the generator uses to accept a removal.

use crate::checker::is_valid;
use crate::grid::{
    cells, conflicts, cell_at, full, lemma_cells_injective, lemma_cells_update,
    lemma_coordinates, lemma_peers_symmetric, lemma_position, peers, position, Grid,
};
use vstd::prelude::*;

verus! {

/// `solution` fills `puzzle` in: it keeps every filled cell of `puzzle`, and
/// gives every empty one a digit from 1 to 9 that no cell it sees holds.
pub open spec fn completes(puzzle: Seq<u8>, solution: Seq<u8>) -> bool {
    &&& solution.len() == 81
    &&& forall|p: int|
        0 <= p < 81 && puzzle[p] != 0 ==> #[trigger] solution[p] == puzzle[p]
    &&& forall|p: int|
        0 <= p < 81 && puzzle[p] == 0 ==> 1 <= #[trigger] solution[p] <= 9 && !conflicts(
            solution,
            p,
            solution[p],
        )
}

/// Some board fills `puzzle` in.
pub open spec fn solvable(puzzle: Seq<u8>) -> bool {
    exists|solution: Seq<u8>| completes(puzzle, solution)
}

/// `a` and `b` agree before position `k`, where `a` holds the smaller digit.
pub open spec fn differs_first_at(a: Seq<u8>, b: Seq<u8>, k: int) -> bool {
    &&& a[k] < b[k]
    &&& forall|j: int| 0 <= j < k ==> #[trigger] a[j] == b[j]
}

/// `a` comes no later than `b` when boards are ordered as words of 81
/// digits, read in row-major order.
pub open spec fn lex_le(a: Seq<u8>, b: Seq<u8>) -> bool {
    a == b || exists|k: int| 0 <= k < 81 && #[trigger] differs_first_at(a, b, k)
}

/// `solution` fills `puzzle` in, and comes first among the boards that do.
pub open spec fn first_completion(puzzle: Seq<u8>, solution: Seq<u8>) -> bool {
    &&& completes(puzzle, solution)
    &&& forall|other: Seq<u8>| #[trigger] completes(puzzle, other) ==> lex_le(solution, other)
}

/// `solution` fills `puzzle` in, and comes last among the boards that do.
pub open spec fn last_completion(puzzle: Seq<u8>, solution: Seq<u8>) -> bool {
    &&& completes(puzzle, solution)
    &&& forall|other: Seq<u8>| #[trigger] completes(puzzle, other) ==> lex_le(other, solution)
}

/// `solution` fills `puzzle` in, and no other board does.
pub open spec fn only_completion(puzzle: Seq<u8>, solution: Seq<u8>) -> bool {
    &&& completes(puzzle, solution)
    &&& forall|other: Seq<u8>| #[trigger] completes(puzzle, other) ==> other == solution
}

/// Exactly one board fills `puzzle` in.
pub open spec fn one_completion(puzzle: Seq<u8>) -> bool {
    exists|solution: Seq<u8>| only_completion(puzzle, solution)
}

/// Of two boards that differ, one comes before the other and not the other
/// way round.
pub proof fn lemma_lex_le_antisymmetric(a: Seq<u8>, b: Seq<u8>)
    requires
        lex_le(a, b),
        lex_le(b, a),
    ensures
        a == b,
{
    if a != b {
        let i = choose|k: int| 0 <= k < 81 && #[trigger] differs_first_at(a, b, k);
        let j = choose|k: int| 0 <= k < 81 && #[trigger] differs_first_at(b, a, k);
        if i < j {
            assert(b[i] == a[i]);
        } else if j < i {
            assert(a[j] == b[j]);
        }
    }
}

/// A puzzle has at most one first completion.
pub proof fn lemma_first_completion_is_unique(puzzle: Seq<u8>, a: Seq<u8>, b: Seq<u8>)
    requires
        first_completion(puzzle, a),
        first_completion(puzzle, b),
    ensures
        a == b,
{
    lemma_lex_le_antisymmetric(a, b);
}

/// A puzzle has one completion exactly when its first completion is also
/// its last.
pub proof fn lemma_one_completion(puzzle: Seq<u8>, first: Seq<u8>, last: Seq<u8>)
    requires
        first_completion(puzzle, first),
        last_completion(puzzle, last),
    ensures
        one_completion(puzzle) == (first == last),
        first == last ==> only_completion(puzzle, first),
{
    if first == last {
        assert forall|other: Seq<u8>| #[trigger] completes(puzzle, other) implies other
            == first by {
            lemma_lex_le_antisymmetric(first, other);
        }
        assert(only_completion(puzzle, first));
    }
    if one_completion(puzzle) {
        let solution = choose|solution: Seq<u8>| only_completion(puzzle, solution);
        assert(first == solution && last == solution);
    }
}

/// The number of empty cells.
pub open spec fn count_empty(cells: Seq<u8>) -> nat
    decreases cells.len(),
{
    if cells.len() == 0 {
        0
    } else {
        count_empty(cells.drop_last()) + if cells.last() == 0 {
            1nat
        } else {
            0nat
        }
    }
}

/// Writing one cell moves the number of empty cells by what leaves and what
/// comes.
pub proof fn lemma_count_empty_update(cells: Seq<u8>, p: int, digit: u8)
    requires
        0 <= p < cells.len(),
    ensures
        count_empty(cells.update(p, digit)) + (if cells[p] == 0 {
            1nat
        } else {
            0nat
        }) == count_empty(cells) + (if digit == 0 {
            1nat
        } else {
            0nat
        }),
    decreases cells.len(),
{
    let after = cells.update(p, digit);
    if p == cells.len() - 1 {
        assert(after.drop_last() =~= cells.drop_last());
    } else {
        assert(after.drop_last() =~= cells.drop_last().update(p, digit));
        lemma_count_empty_update(cells.drop_last(), p, digit);
    }
}

/// A board without an empty cell counts none, and a board that counts none
/// has none.
pub proof fn lemma_count_empty_zero(cells: Seq<u8>)
    ensures
        count_empty(cells) == 0 <==> forall|p: int|
            0 <= p < cells.len() ==> #[trigger] cells[p] != 0,
    decreases cells.len(),
{
    if cells.len() > 0 {
        let front = cells.drop_last();
        lemma_count_empty_zero(front);
        if count_empty(cells) == 0 {
            assert forall|p: int| 0 <= p < cells.len() implies #[trigger] cells[p] != 0 by {
                if p < front.len() {
                    assert(front[p] != 0);
                }
            }
        }
        if forall|p: int| 0 <= p < cells.len() ==> #[trigger] cells[p] != 0 {
            assert forall|p: int| 0 <= p < front.len() implies #[trigger] front[p] != 0 by {
                assert(cells[p] != 0);
            }
            assert(cells.last() != 0);
        }
    }
}

/// A full board is filled in by itself and by nothing else.
pub proof fn lemma_full_is_own_completion(puzzle: Seq<u8>)
    requires
        puzzle.len() == 81,
        full(puzzle),
    ensures
        first_completion(puzzle, puzzle),
        last_completion(puzzle, puzzle),
        only_completion(puzzle, puzzle),
{
    assert forall|other: Seq<u8>| #[trigger] completes(puzzle, other) implies other == puzzle by {
        assert forall|p: int| 0 <= p < 81 implies other[p] == puzzle[p] by {
            assert(puzzle[p] != 0);
        }
        assert(other =~= puzzle);
    }
}

/// What fills `puzzle` in also fills in `puzzle` with the digit it gives to
/// an empty cell written there, and that digit was no conflict.
proof fn lemma_completion_narrows(puzzle: Seq<u8>, solution: Seq<u8>, p: int)
    requires
        puzzle.len() == 81,
        0 <= p < 81,
        puzzle[p] == 0,
        completes(puzzle, solution),
    ensures
        1 <= solution[p] <= 9,
        !conflicts(puzzle, p, solution[p]),
        completes(puzzle.update(p, solution[p]), solution),
{
    let digit = solution[p];
    let narrowed = puzzle.update(p, digit);
    assert forall|q: int| 0 <= q < 81 && peers(p, q) implies puzzle[q] != digit by {
        if puzzle[q] == digit {
            assert(solution[q] == puzzle[q]);
            assert(!conflicts(solution, p, solution[p]));
        }
    }
    assert forall|q: int| 0 <= q < 81 && narrowed[q] != 0 implies #[trigger] solution[q]
        == narrowed[q] by {
        if q != p {
            assert(puzzle[q] != 0);
        }
    }
    assert forall|q: int| 0 <= q < 81 && narrowed[q] == 0 implies 1 <= #[trigger] solution[q] <= 9
        && !conflicts(solution, q, solution[q]) by {
        assert(puzzle[q] == 0);
    }
}

/// What fills in `puzzle` with a digit written into an empty cell, where that
/// digit was no conflict, fills `puzzle` in.
proof fn lemma_completion_widens(puzzle: Seq<u8>, solution: Seq<u8>, p: int, digit: u8)
    requires
        puzzle.len() == 81,
        0 <= p < 81,
        puzzle[p] == 0,
        1 <= digit <= 9,
        !conflicts(puzzle, p, digit),
        completes(puzzle.update(p, digit), solution),
    ensures
        completes(puzzle, solution),
        solution[p] == digit,
{
    let narrowed = puzzle.update(p, digit);
    assert(narrowed[p] == digit);
    assert(solution[p] == digit);
    assert forall|q: int| 0 <= q < 81 && puzzle[q] != 0 implies #[trigger] solution[q]
        == puzzle[q] by {
        assert(narrowed[q] == puzzle[q]);
    }
    assert forall|q: int| 0 <= q < 81 && puzzle[q] == 0 implies 1 <= #[trigger] solution[q] <= 9
        && !conflicts(solution, q, solution[q]) by {
        if q == p {
            assert forall|r: int| 0 <= r < 81 && peers(p, r) implies solution[r] != digit by {
                if puzzle[r] != 0 {
                    assert(solution[r] == puzzle[r]);
                } else {
                    assert(narrowed[r] == 0);
                    assert(!conflicts(solution, r, solution[r]));
                    lemma_peers_symmetric(p, r);
                    assert(solution[p] != solution[r]);
                }
            }
        } else {
            assert(narrowed[q] == 0);
        }
    }
}

/// `solution` fills `puzzle` in and comes first among the boards that do,
/// or last where `downward` is set.
pub open spec fn extreme_completion(downward: bool, puzzle: Seq<u8>, solution: Seq<u8>) -> bool {
    if downward {
        last_completion(puzzle, solution)
    } else {
        first_completion(puzzle, solution)
    }
}

/// `digit` is tried no later than `other` when the digits are tried in
/// ascending order, or in descending order where `downward` is set.
pub open spec fn tried_by(downward: bool, digit: int, other: int) -> bool {
    if downward {
        other <= digit
    } else {
        other >= digit
    }
}

/// The extreme completion of a board with its first empty cell filled by
/// the first digit tried that any completion puts there is the extreme
/// completion of the board.
proof fn lemma_extreme_completion_extends(
    downward: bool,
    puzzle: Seq<u8>,
    solution: Seq<u8>,
    p: int,
    digit: u8,
)
    requires
        puzzle.len() == 81,
        0 <= p < 81,
        puzzle[p] == 0,
        forall|q: int| 0 <= q < p ==> puzzle[q] != 0,
        1 <= digit <= 9,
        !conflicts(puzzle, p, digit),
        extreme_completion(downward, puzzle.update(p, digit), solution),
        forall|other: Seq<u8>| #[trigger]
            completes(puzzle, other) ==> tried_by(downward, digit as int, other[p] as int),
    ensures
        extreme_completion(downward, puzzle, solution),
{
    lemma_completion_widens(puzzle, solution, p, digit);
    assert forall|other: Seq<u8>| #[trigger] completes(puzzle, other) implies if downward {
        lex_le(other, solution)
    } else {
        lex_le(solution, other)
    } by {
        assert(tried_by(downward, digit as int, other[p] as int));
        if other[p] == digit {
            lemma_completion_narrows(puzzle, other, p);
            assert(completes(puzzle.update(p, digit), other));
        } else {
            assert forall|j: int| 0 <= j < p implies #[trigger] solution[j] == other[j] by {
                assert(puzzle[j] != 0);
                assert(solution[j] == puzzle[j]);
                assert(other[j] == puzzle[j]);
            }
            if downward {
                assert(differs_first_at(other, solution, p));
            } else {
                assert(differs_first_at(solution, other, p));
            }
        }
    }
}

/// The first empty cell in row-major order, by its position, if there is
/// one.
pub fn find_empty(grid: &Grid) -> (found: Option<u8>)
    ensures
        match found {
            Some(p) => p < 81 && cells(*grid)[p as int] == 0 && forall|q: int|
                0 <= q < p ==> #[trigger] cells(*grid)[q] != 0,
            None => full(cells(*grid)),
        },
{
    for i in 0..81usize
        invariant
            forall|q: int| 0 <= q < i ==> #[trigger] cells(*grid)[q] != 0,
    {
        if grid[i / 9][i % 9] == 0 {
            return Some(i as u8);
        }
    }
    None
}

/// Completes `grid` by backtracking: it takes the first empty cell in
/// row-major order, tries the digits there in ascending order, or in
/// descending order where `downward` is set, keeps the first that the
/// checker accepts and with which the rest can be completed, and gives up on
/// the cell when none is left.
fn search(grid: &mut Grid, downward: bool) -> (solved: bool)
    ensures
        solved == solvable(cells(*old(grid))),
        solved ==> extreme_completion(downward, cells(*old(grid)), cells(*final(grid))),
        !solved ==> *final(grid) == *old(grid),
    decreases count_empty(cells(*old(grid))),
{
    let ghost puzzle = cells(*grid);
    let ghost start = *grid;
    let p = match find_empty(grid) {
        Some(p) => p,
        None => {
            proof {
                lemma_full_is_own_completion(puzzle);
            }
            return true;
        },
    };
    let row = (p / 9) as usize;
    let col = (p % 9) as usize;
    proof {
        lemma_coordinates(p as int);
    }
    let mut turn: u8 = 1;
    while turn <= 9
        invariant
            1 <= turn <= 10,
            p < 81,
            row < 9,
            col < 9,
            position(row as int, col as int) == p,
            *grid == start,
            start == *old(grid),
            puzzle == cells(start),
            puzzle[p as int] == 0,
            forall|q: int| 0 <= q < p ==> #[trigger] puzzle[q] != 0,
            forall|other: Seq<u8>| #[trigger]
                completes(puzzle, other) ==> tried_by(
                    downward,
                    if downward {
                        10 - turn
                    } else {
                        turn as int
                    },
                    other[p as int] as int,
                ),
        decreases 10 - turn,
    {
        let digit = if downward {
            10 - turn
        } else {
            turn
        };
        if is_valid(grid, row, col, digit) {
            grid[row][col] = digit;
            proof {
                lemma_cells_update(start, *grid, row as int, col as int, digit);
                lemma_count_empty_update(puzzle, p as int, digit);
            }
            if search(grid, downward) {
                proof {
                    lemma_extreme_completion_extends(
                        downward,
                        puzzle,
                        cells(*grid),
                        p as int,
                        digit,
                    );
                    assert(completes(puzzle, cells(*grid)));
                }
                return true;
            }
            let ghost placed = *grid;
            grid[row][col] = 0;
            proof {
                lemma_cells_update(placed, *grid, row as int, col as int, 0);
                assert(cells(*grid) =~= puzzle);
                lemma_cells_injective(*grid, start);
            }
        }
        proof {
            assert forall|other: Seq<u8>| #[trigger] completes(puzzle, other) implies tried_by(
                downward,
                if downward {
                    10 - (turn + 1)
                } else {
                    turn + 1
                },
                other[p as int] as int,
            ) by {
                assert(tried_by(downward, digit as int, other[p as int] as int));
                if other[p as int] == digit {
                    lemma_completion_narrows(puzzle, other, p as int);
                }
            }
        }
        turn += 1;
    }
    proof {
        assert forall|other: Seq<u8>| !completes(puzzle, other) by {
            if completes(puzzle, other) {
                assert(tried_by(
                    downward,
                    if downward {
                        0
                    } else {
                        10
                    },
                    other[p as int] as int,
                ));
                assert(1 <= other[p as int] <= 9);
            }
        }
    }
    false
}

/// Completes `grid` by backtracking: it takes the first empty cell in
/// row-major order, tries the digits 1 to 9 there in ascending order, keeps
/// the first that the checker accepts and with which the rest can be
/// completed, and gives up on the cell when none is left.
///
/// Returns whether the board can be filled in at all. If it can, `grid` ends
/// as the first of the boards that fill it in; if it cannot, `grid` ends as it
/// began.
pub fn solve(grid: &mut Grid) -> (solved: bool)
    ensures
        solved == solvable(cells(*old(grid))),
        solved ==> first_completion(cells(*old(grid)), cells(*final(grid))),
        !solved ==> *final(grid) == *old(grid),
{
    search(grid, false)
}

/// Completes `grid` as [`solve`] does, but tries the digits 9 to 1 in
/// descending order, and so ends on the last of the boards that fill `grid`
/// in where [`solve`] ends on the first.
pub fn solve_last(grid: &mut Grid) -> (solved: bool)
    ensures
        solved == solvable(cells(*old(grid))),
        solved ==> last_completion(cells(*old(grid)), cells(*final(grid))),
        !solved ==> *final(grid) == *old(grid),
{
    search(grid, true)
}

/// Tells whether exactly one board fills `grid` in: it solves one copy from
/// the least digits up and one from the greatest down, and compares what
/// comes out. `grid` itself is left alone.
pub fn has_one_completion(grid: &Grid) -> (single: bool)
    ensures
        single == one_completion(cells(*grid)),
{
    let mut first = *grid;
    if !solve(&mut first) {
        assert(!one_completion(cells(*grid))) by {
            if one_completion(cells(*grid)) {
                let solution = choose|solution: Seq<u8>| only_completion(cells(*grid), solution);
                assert(completes(cells(*grid), solution));
            }
        }
        return false;
    }
    let mut last = *grid;
    solve_last(&mut last);
    proof {
        lemma_one_completion(cells(*grid), cells(first), cells(last));
        if cells(first) == cells(last) {
            lemma_cells_injective(first, last);
        }
    }
    same_grid(&first, &last)
}

/// The test by which a board counts as settled: the solver completes it and
/// ends on the very board it was given.
pub open spec fn unique_by_solver(cells: Seq<u8>) -> bool {
    first_completion(cells, cells)
}

/// The solver only ends on full boards, so the test holds of the full boards
/// and of no other: a board with an empty cell is never what comes back.
pub proof fn lemma_unique_by_solver_is_full(cells: Seq<u8>)
    requires
        cells.len() == 81,
    ensures
        unique_by_solver(cells) == full(cells),
{
    if full(cells) {
        lemma_full_is_own_completion(cells);
    }
    if unique_by_solver(cells) {
        assert forall|p: int| 0 <= p < 81 implies #[trigger] cells[p] != 0 by {
            if cells[p] == 0 {
                assert(1 <= cells[p]);
            }
        }
    }
}

/// Compares two boards cell by cell.
pub fn same_grid(a: &Grid, b: &Grid) -> (same: bool)
    ensures
        same == (*a == *b),
{
    for i in 0..81usize
        invariant
            forall|q: int| 0 <= q < i ==> #[trigger] cells(*a)[q] == cells(*b)[q],
    {
        if a[i / 9][i % 9] != b[i / 9][i % 9] {
            assert(cells(*a)[i as int] != cells(*b)[i as int]);
            return false;
        }
    }
    proof {
        assert(cells(*a) =~= cells(*b));
        lemma_cells_injective(*a, *b);
    }
    true
}

/// Solves a copy of `grid` and tells whether the solver succeeded and ended
/// on `grid` itself. That is so of the full boards and of no other; whether a
/// puzzle has one solution is what [`has_one_completion`] tells.
pub fn has_unique_solution(grid: &Grid) -> (unique: bool)
    ensures
        unique == unique_by_solver(cells(*grid)),
        unique == full(cells(*grid)),
{
    let mut copy = *grid;
    let solved = solve(&mut copy);
    proof {
        lemma_unique_by_solver_is_full(cells(*grid));
        if full(cells(*grid)) {
            lemma_full_is_own_completion(cells(*grid));
            assert(completes(cells(*grid), cells(*grid)));
            assert(solved);
            assert(cells(copy) == cells(*grid));
            lemma_cells_injective(copy, *grid);
        }
    }
    solved && same_grid(&copy, grid)
}

} // verus!
