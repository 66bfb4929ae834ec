//! The constraint checker: may a digit stand in a cell?

use crate::grid::{
    cell_at, cells, conflicts, consistent, lemma_coordinates, lemma_position, peers, position,
    sees, Grid,
};
use vstd::prelude::*;

verus! {

/// The `k`-th cell of the box whose upper left corner is (`box_row`,
/// `box_col`) is the cell (`row`, `col`) itself or holds another digit than
/// `digit`.
spec fn box_cell_free(
    grid: Grid,
    box_row: int,
    box_col: int,
    row: int,
    col: int,
    digit: u8,
    k: int,
) -> bool {
    (box_row + k / 3 == row && box_col + k % 3 == col) || cell_at(
        grid,
        box_row + k / 3,
        box_col + k % 3,
    ) != digit
}

/// A cell that (`row`, `col`) sees and that holds `digit` is a conflict.
proof fn lemma_conflict_found(grid: Grid, row: int, col: int, r: int, c: int, digit: u8)
    requires
        0 <= row < 9,
        0 <= col < 9,
        0 <= r < 9,
        0 <= c < 9,
        sees(row, col, r, c),
        cell_at(grid, r, c) == digit,
    ensures
        conflicts(cells(grid), position(row, col), digit),
{
    lemma_position(row, col);
    lemma_position(r, c);
    let q = position(r, c);
    assert(peers(position(row, col), q));
    assert(cells(grid)[q] == digit);
}

/// Nine steps along the row, the column and the box cover every cell that
/// (`row`, `col`) sees.
proof fn lemma_no_conflict(grid: Grid, row: int, col: int, digit: u8)
    requires
        0 <= row < 9,
        0 <= col < 9,
        forall|k: int| 0 <= k < 9 && k != col ==> #[trigger] cell_at(grid, row, k) != digit,
        forall|k: int| 0 <= k < 9 && k != row ==> #[trigger] cell_at(grid, k, col) != digit,
        forall|k: int|
            0 <= k < 9 ==> #[trigger] box_cell_free(
                grid,
                row - row % 3,
                col - col % 3,
                row,
                col,
                digit,
                k,
            ),
    ensures
        !conflicts(cells(grid), position(row, col), digit),
{
    let p = position(row, col);
    lemma_position(row, col);
    assert forall|q: int| 0 <= q < 81 && peers(p, q) implies cells(grid)[q] != digit by {
        lemma_coordinates(q);
        let r = q / 9;
        let c = q % 9;
        assert(cells(grid)[q] == cell_at(grid, r, c));
        if r == row {
            assert(cell_at(grid, row, c) != digit);
        } else if c == col {
            assert(cell_at(grid, r, col) != digit);
        } else {
            let box_row = row - row % 3;
            let box_col = col - col % 3;
            let k = (r - box_row) * 3 + (c - box_col);
            assert(0 <= r - box_row < 3 && 0 <= c - box_col < 3);
            assert(k / 3 == r - box_row && k % 3 == c - box_col);
            assert(box_cell_free(grid, box_row, box_col, row, col, digit, k));
        }
    }
}

/// Tells whether `digit` may stand at (`row`, `col`): no other cell of that
/// row, of that column or of the 3×3 box around it holds `digit`. What the
/// cell itself holds does not matter, so a digit already written there can be
/// checked again.
pub fn is_valid(grid: &Grid, row: usize, col: usize, digit: u8) -> (valid: bool)
    requires
        row < 9,
        col < 9,
    ensures
        valid == !conflicts(cells(*grid), position(row as int, col as int), digit),
{
    let box_row = row - row % 3;
    let box_col = col - col % 3;
    for k in 0..9usize
        invariant
            row < 9,
            col < 9,
            box_row == row - row % 3,
            box_col == col - col % 3,
            forall|m: int|
                0 <= m < k && m != col ==> #[trigger] cell_at(*grid, row as int, m) != digit,
            forall|m: int|
                0 <= m < k && m != row ==> #[trigger] cell_at(*grid, m, col as int) != digit,
            forall|m: int|
                0 <= m < k ==> #[trigger] box_cell_free(
                    *grid,
                    box_row as int,
                    box_col as int,
                    row as int,
                    col as int,
                    digit,
                    m,
                ),
    {
        let r = box_row + k / 3;
        let c = box_col + k % 3;
        if grid[r][c] == digit && !(r == row && c == col) {
            proof {
                lemma_conflict_found(*grid, row as int, col as int, r as int, c as int, digit);
            }
            return false;
        }
        if grid[row][k] == digit && col != k {
            proof {
                lemma_conflict_found(*grid, row as int, col as int, row as int, k as int, digit);
            }
            return false;
        }
        if grid[k][col] == digit && row != k {
            proof {
                lemma_conflict_found(*grid, row as int, col as int, k as int, col as int, digit);
            }
            return false;
        }
        assert(box_cell_free(
            *grid,
            box_row as int,
            box_col as int,
            row as int,
            col as int,
            digit,
            k as int,
        ));
    }
    proof {
        lemma_no_conflict(*grid, row as int, col as int, digit);
    }
    true
}

/// A board is in a legal state exactly when each digit on it passes the
/// check at the cell where it stands: the check leaves the cell itself out,
/// so a digit is never in its own way.
pub proof fn lemma_placed_digits_are_valid(cells: Seq<u8>)
    ensures
        consistent(cells) == (forall|p: int|
            0 <= p < 81 && #[trigger] cells[p] != 0 ==> !conflicts(cells, p, cells[p])),
{
    if consistent(cells) {
        assert forall|p: int| 0 <= p < 81 && #[trigger] cells[p] != 0 implies !conflicts(
            cells,
            p,
            cells[p],
        ) by {
            assert forall|q: int| 0 <= q < 81 && peers(p, q) implies cells[q] != cells[p] by {}
        }
    }
    if forall|p: int| 0 <= p < 81 && #[trigger] cells[p] != 0 ==> !conflicts(cells, p, cells[p]) {
        assert forall|p: int, q: int|
            0 <= p < 81 && 0 <= q < 81 && #[trigger] peers(p, q) && cells[p] != 0 implies cells[p]
            != cells[q] by {
            assert(!conflicts(cells, p, cells[p]));
        }
    }
}

} // verus!
