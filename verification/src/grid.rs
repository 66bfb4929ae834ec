//! The board and its mathematical model.
//!
//! A board is a 9×9 array of digits, 0 standing for an empty cell. Contracts
//! speak of it through [`cells`], the 81 digits in row-major order, and name a
//! cell by its position `row * 9 + col`.

use vstd::prelude::*;

verus! {

/// Nine rows of nine digits; 0 marks an empty cell.
pub type Grid = [[u8; 9]; 9];

/// What a cell of a puzzle is to the player.
#[derive(Clone, Copy, Debug, PartialEq, Eq, Structural)]
pub enum Condition {
    /// A clue of the puzzle, never editable.
    PreDetermined,
    /// Empty, or filled by the player without breaking a rule.
    Neutral,
    /// Filled by the player with a digit that a cell it sees already holds.
    Wrong,
}

/// One [`Condition`] per cell, indexed as the [`Grid`] is.
pub type CellStateGrid = [[Condition; 9]; 9];

/// What `grid` holds in row `row` and column `col`.
pub open spec fn cell_at<T>(grid: [[T; 9]; 9], row: int, col: int) -> T {
    grid[row][col]
}

/// The 81 cells of `grid` in row-major order.
pub open spec fn cells<T>(grid: [[T; 9]; 9]) -> Seq<T> {
    Seq::new(81, |p: int| cell_at(grid, p / 9, p % 9))
}

/// The position of the cell in row `row` and column `col`.
pub open spec fn position(row: int, col: int) -> int {
    row * 9 + col
}

/// Two different cells, given by row and column, that share a row, a column
/// or a 3×3 box.
pub open spec fn sees(row: int, col: int, other_row: int, other_col: int) -> bool {
    &&& (row != other_row || col != other_col)
    &&& (row == other_row || col == other_col || (row / 3 == other_row / 3 && col / 3
        == other_col / 3))
}

/// Two different cells, given by position, that share a row, a column or a
/// 3×3 box.
pub open spec fn peers(p: int, q: int) -> bool {
    sees(p / 9, p % 9, q / 9, q % 9)
}

/// Some cell that the cell at `p` sees holds `digit`.
pub open spec fn conflicts(cells: Seq<u8>, p: int, digit: u8) -> bool {
    exists|q: int| 0 <= q < 81 && peers(p, q) && #[trigger] cells[q] == digit
}

/// The board is in a legal state: no filled cell sees a cell with the same
/// digit.
pub open spec fn consistent(cells: Seq<u8>) -> bool {
    forall|p: int, q: int|
        0 <= p < 81 && 0 <= q < 81 && #[trigger] peers(p, q) && cells[p] != 0 ==> cells[p]
            != cells[q]
}

/// The board without a digit.
pub open spec fn blank() -> Seq<u8> {
    Seq::new(81, |p: int| 0u8)
}

/// No cell is empty.
pub open spec fn full(cells: Seq<u8>) -> bool {
    forall|p: int| 0 <= p < 81 ==> #[trigger] cells[p] != 0
}

/// Every cell holds a digit from 0 to 9.
pub open spec fn digits_in_range(cells: Seq<u8>) -> bool {
    forall|p: int| 0 <= p < 81 ==> #[trigger] cells[p] <= 9
}

/// Seeing is mutual.
pub proof fn lemma_peers_symmetric(p: int, q: int)
    ensures
        peers(p, q) == peers(q, p),
{
}

/// Row and column of a position, and back.
pub proof fn lemma_position(row: int, col: int)
    requires
        0 <= row < 9,
        0 <= col < 9,
    ensures
        0 <= position(row, col) < 81,
        position(row, col) / 9 == row,
        position(row, col) % 9 == col,
{
}

/// Every position is the position of its row and column.
pub proof fn lemma_coordinates(p: int)
    requires
        0 <= p < 81,
    ensures
        0 <= p / 9 < 9,
        0 <= p % 9 < 9,
        position(p / 9, p % 9) == p,
{
}

/// Writing one cell of a board changes one entry of its model.
pub proof fn lemma_cells_update<T>(
    before: [[T; 9]; 9],
    after: [[T; 9]; 9],
    row: int,
    col: int,
    value: T,
)
    requires
        0 <= row < 9,
        0 <= col < 9,
        cell_at(after, row, col) == value,
        forall|r: int, c: int|
            0 <= r < 9 && 0 <= c < 9 && !(r == row && c == col) ==> #[trigger] cell_at(
                after,
                r,
                c,
            ) == cell_at(before, r, c),
    ensures
        cells(after) == cells(before).update(position(row, col), value),
{
    let p = position(row, col);
    lemma_position(row, col);
    assert forall|q: int| 0 <= q < 81 implies cells(after)[q] == cells(before).update(
        p,
        value,
    )[q] by {
        lemma_coordinates(q);
    }
    assert(cells(after) =~= cells(before).update(p, value));
}

/// Boards with the same model are the same board.
pub proof fn lemma_cells_injective<T>(a: [[T; 9]; 9], b: [[T; 9]; 9])
    requires
        cells(a) == cells(b),
    ensures
        a == b,
{
    assert forall|r: int| 0 <= r < 9 implies a[r] == b[r] by {
        assert forall|c: int| 0 <= c < 9 implies a[r][c] == b[r][c] by {
            let p = position(r, c);
            lemma_position(r, c);
            assert(cells(a)[p] == cell_at(a, r, c));
            assert(cells(b)[p] == cell_at(b, r, c));
        }
        assert(a[r] =~= b[r]);
    }
    assert(a =~= b);
}

} // verus!
