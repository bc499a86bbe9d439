//! The mathematical model of a Sudoku grid: nine rows of nine cells, each
//! holding 0 (empty) or a digit 1 to 9, addressed by 1-based column and row.

use vstd::prelude::*;

verus! {

/// Nine rows of nine cells, every cell at most 9.
pub open spec fn is_grid(g: Seq<Seq<u8>>) -> bool {
    &&& g.len() == 9
    &&& forall|r: int| 0 <= r < 9 ==> (#[trigger] g[r]).len() == 9
    &&& forall|col: int, row: int|
        1 <= col <= 9 && 1 <= row <= 9 ==> #[trigger] cell_at(g, col, row) <= 9
}

/// The cells of `cells` as a sequence of rows.
pub open spec fn grid_view(cells: Vec<Vec<u8>>) -> Seq<Seq<u8>> {
    Seq::new(cells@.len(), |r: int| cells@[r]@)
}

/// The cell in column `col` of row `row`, both counted from 1.
pub open spec fn cell_at(g: Seq<Seq<u8>>, col: int, row: int) -> u8 {
    g[row - 1][col - 1]
}

/// The grid `g` with the cell in column `col` of row `row` holding `value`.
pub open spec fn set_cell(g: Seq<Seq<u8>>, col: int, row: int, value: u8) -> Seq<Seq<u8>> {
    g.update(row - 1, g[row - 1].update(col - 1, value))
}

/// The grid with every cell empty.
pub open spec fn blank_grid() -> Seq<Seq<u8>> {
    Seq::new(9, |r: int| Seq::new(9, |c: int| 0u8))
}

/// The number, from 0 to 8, of the 3×3 box that holds the cell: boxes are
/// counted left to right, then top to bottom.
pub open spec fn box_index(col: int, row: int) -> int {
    (col - 1) / 3 + 3 * ((row - 1) / 3)
}

/// Whether some cell of row `row` holds `digit`.
pub open spec fn row_has(g: Seq<Seq<u8>>, row: int, digit: u8) -> bool {
    exists|col: int| 1 <= col <= 9 && #[trigger] cell_at(g, col, row) == digit
}

/// Whether some cell of column `col` holds `digit`.
pub open spec fn col_has(g: Seq<Seq<u8>>, col: int, digit: u8) -> bool {
    exists|row: int| 1 <= row <= 9 && #[trigger] cell_at(g, col, row) == digit
}

/// Whether some cell of box `index` holds `digit`.
pub open spec fn box_has(g: Seq<Seq<u8>>, index: int, digit: u8) -> bool {
    exists|col: int, row: int|
        1 <= col <= 9 && 1 <= row <= 9 && box_index(col, row) == index && #[trigger] cell_at(
            g,
            col,
            row,
        ) == digit
}

/// Whether `digit` occurs neither in the row, nor in the column, nor in the
/// box of the cell in column `col` of row `row`.
pub open spec fn placeable(g: Seq<Seq<u8>>, col: int, row: int, digit: u8) -> bool {
    &&& !row_has(g, row, digit)
    &&& !col_has(g, col, digit)
    &&& !box_has(g, box_index(col, row), digit)
}

/// Two different cells that share a row, a column or a box.
pub open spec fn peers(col1: int, row1: int, col2: int, row2: int) -> bool {
    &&& col1 != col2 || row1 != row2
    &&& row1 == row2 || col1 == col2 || box_index(col1, row1) == box_index(col2, row2)
}

/// No digit occurs twice in a row, a column or a box.
pub open spec fn consistent(g: Seq<Seq<u8>>) -> bool {
    forall|col1: int, row1: int, col2: int, row2: int|
        #![trigger cell_at(g, col1, row1), cell_at(g, col2, row2)]
        1 <= col1 <= 9 && 1 <= row1 <= 9 && 1 <= col2 <= 9 && 1 <= row2 <= 9 && peers(
            col1,
            row1,
            col2,
            row2,
        ) && cell_at(g, col1, row1) != 0 ==> cell_at(g, col1, row1) != cell_at(g, col2, row2)
}

/// No cell is empty.
pub open spec fn complete(g: Seq<Seq<u8>>) -> bool {
    forall|col: int, row: int|
        1 <= col <= 9 && 1 <= row <= 9 ==> #[trigger] cell_at(g, col, row) != 0
}

/// Every digit of `g` stands in the same cell of `h`.
pub open spec fn extends(h: Seq<Seq<u8>>, g: Seq<Seq<u8>>) -> bool {
    forall|col: int, row: int|
        1 <= col <= 9 && 1 <= row <= 9 && cell_at(g, col, row) != 0 ==> #[trigger] cell_at(
            h,
            col,
            row,
        ) == cell_at(g, col, row)
}

/// `h` is the puzzle `g` filled in: a full grid that keeps the digits of `g`
/// and repeats none in a row, a column or a box.
pub open spec fn is_solution(h: Seq<Seq<u8>>, g: Seq<Seq<u8>>) -> bool {
    &&& is_grid(h)
    &&& complete(h)
    &&& consistent(h)
    &&& extends(h, g)
}

/// Whether the puzzle `g` can be filled in at all.
pub open spec fn has_solution(g: Seq<Seq<u8>>) -> bool {
    exists|h: Seq<Seq<u8>>| is_solution(h, g)
}

/// The cell number `k`, from 0 to 80, in reading order: row by row from the
/// top, each row from the left.
pub open spec fn nth_cell(g: Seq<Seq<u8>>, k: int) -> u8 {
    cell_at(g, k % 9 + 1, k / 9 + 1)
}

/// `a` and `b` hold the same values in the first `k` cells in reading order.
pub open spec fn agree_before(a: Seq<Seq<u8>>, b: Seq<Seq<u8>>, k: int) -> bool {
    forall|j: int| 0 <= j < k ==> nth_cell(a, j) == #[trigger] nth_cell(b, j)
}

/// `a` comes no later than `b` when grids are ordered by their cells in
/// reading order: at the first cell where they differ, `a` holds the smaller
/// value.
pub open spec fn lex_le(a: Seq<Seq<u8>>, b: Seq<Seq<u8>>) -> bool {
    forall|k: int| 0 <= k < 81 && #[trigger] agree_before(a, b, k) ==> nth_cell(a, k) <= nth_cell(b, k)
}

/// `h` is the solution of `g` that comes first in reading order.
pub open spec fn is_first_solution(h: Seq<Seq<u8>>, g: Seq<Seq<u8>>) -> bool {
    &&& is_solution(h, g)
    &&& forall|other: Seq<Seq<u8>>| #[trigger] is_solution(other, g) ==> lex_le(h, other)
}

/// What the cells of `set_cell(g, col, row, value)` hold: `value` in the
/// cell that was set, and what `g` holds everywhere else.
pub proof fn lemma_set_cell(g: Seq<Seq<u8>>, col: int, row: int, value: u8)
    requires
        is_grid(g),
        1 <= col <= 9,
        1 <= row <= 9,
        value <= 9,
    ensures
        is_grid(set_cell(g, col, row, value)),
        forall|col2: int, row2: int|
            1 <= col2 <= 9 && 1 <= row2 <= 9 ==> #[trigger] cell_at(
                set_cell(g, col, row, value),
                col2,
                row2,
            ) == (if col2 == col && row2 == row {
                value
            } else {
                cell_at(g, col2, row2)
            }),
{
    let h = set_cell(g, col, row, value);
    assert forall|col2: int, row2: int| 1 <= col2 <= 9 && 1 <= row2 <= 9 implies #[trigger] cell_at(
        h,
        col2,
        row2,
    ) == (if col2 == col && row2 == row {
        value
    } else {
        cell_at(g, col2, row2)
    }) by {
        assert(g[row2 - 1].len() == 9);
        assert(g[row - 1].len() == 9);
    }
    assert forall|r: int| 0 <= r < 9 implies (#[trigger] h[r]).len() == 9 by {
        assert(g[r].len() == 9);
        assert(g[row - 1].len() == 9);
    }
    assert forall|col2: int, row2: int| 1 <= col2 <= 9 && 1 <= row2 <= 9 implies #[trigger] cell_at(
        h,
        col2,
        row2,
    ) <= 9 by {
        assert(cell_at(g, col2, row2) <= 9);
    }
}

/// Placing a digit that is free in the row, column and box of an empty cell
/// keeps the grid free of repeats, and adds that digit, and nothing else, to
/// what the cell's row, column and box hold.
pub proof fn lemma_place(g: Seq<Seq<u8>>, col: int, row: int, value: u8)
    requires
        is_grid(g),
        consistent(g),
        1 <= col <= 9,
        1 <= row <= 9,
        1 <= value <= 9,
        cell_at(g, col, row) == 0,
        placeable(g, col, row, value),
    ensures
        is_grid(set_cell(g, col, row, value)),
        consistent(set_cell(g, col, row, value)),
        forall|i: int, d: u8|
            1 <= i <= 9 && d != 0 ==> (#[trigger] row_has(set_cell(g, col, row, value), i, d)
                <==> row_has(g, i, d) || (i == row && d == value)),
        forall|i: int, d: u8|
            1 <= i <= 9 && d != 0 ==> (#[trigger] col_has(set_cell(g, col, row, value), i, d)
                <==> col_has(g, i, d) || (i == col && d == value)),
        forall|i: int, d: u8|
            0 <= i <= 8 && d != 0 ==> (#[trigger] box_has(set_cell(g, col, row, value), i, d)
                <==> box_has(g, i, d) || (i == box_index(col, row) && d == value)),
{
    let h = set_cell(g, col, row, value);
    lemma_set_cell(g, col, row, value);
    assert forall|col1: int, row1: int, col2: int, row2: int|
        #![trigger cell_at(h, col1, row1), cell_at(h, col2, row2)]
        1 <= col1 <= 9 && 1 <= row1 <= 9 && 1 <= col2 <= 9 && 1 <= row2 <= 9 && peers(
            col1,
            row1,
            col2,
            row2,
        ) && cell_at(h, col1, row1) != 0 implies cell_at(h, col1, row1) != cell_at(
        h,
        col2,
        row2,
    ) by {
        if col1 == col && row1 == row {
            assert(cell_at(g, col2, row2) != value);
        } else if col2 == col && row2 == row {
            assert(cell_at(g, col1, row1) != value);
        } else {
            assert(cell_at(g, col1, row1) != cell_at(g, col2, row2));
        }
    }
    assert forall|i: int, d: u8| 1 <= i <= 9 && d != 0 implies (#[trigger] row_has(h, i, d)
        <==> row_has(g, i, d) || (i == row && d == value)) by {
        if row_has(h, i, d) {
            let c = choose|c: int| 1 <= c <= 9 && #[trigger] cell_at(h, c, i) == d;
            if !(c == col && i == row) {
                assert(cell_at(g, c, i) == d);
            }
        }
        if row_has(g, i, d) {
            let c = choose|c: int| 1 <= c <= 9 && #[trigger] cell_at(g, c, i) == d;
            assert(cell_at(h, c, i) == d);
        }
        if i == row && d == value {
            assert(cell_at(h, col, row) == d);
        }
    }
    assert forall|i: int, d: u8| 1 <= i <= 9 && d != 0 implies (#[trigger] col_has(h, i, d)
        <==> col_has(g, i, d) || (i == col && d == value)) by {
        if col_has(h, i, d) {
            let r = choose|r: int| 1 <= r <= 9 && #[trigger] cell_at(h, i, r) == d;
            if !(i == col && r == row) {
                assert(cell_at(g, i, r) == d);
            }
        }
        if col_has(g, i, d) {
            let r = choose|r: int| 1 <= r <= 9 && #[trigger] cell_at(g, i, r) == d;
            assert(cell_at(h, i, r) == d);
        }
        if i == col && d == value {
            assert(cell_at(h, col, row) == d);
        }
    }
    assert forall|i: int, d: u8| 0 <= i <= 8 && d != 0 implies (#[trigger] box_has(h, i, d)
        <==> box_has(g, i, d) || (i == box_index(col, row) && d == value)) by {
        if box_has(h, i, d) {
            let (c, r) = choose|c: int, r: int|
                1 <= c <= 9 && 1 <= r <= 9 && box_index(c, r) == i && #[trigger] cell_at(h, c, r)
                    == d;
            if !(c == col && r == row) {
                assert(cell_at(g, c, r) == d);
            }
        }
        if box_has(g, i, d) {
            let (c, r) = choose|c: int, r: int|
                1 <= c <= 9 && 1 <= r <= 9 && box_index(c, r) == i && #[trigger] cell_at(g, c, r)
                    == d;
            assert(cell_at(h, c, r) == d);
        }
        if i == box_index(col, row) && d == value {
            assert(cell_at(h, col, row) == d);
        }
    }
}

/// Emptying a cell of a grid without repeats keeps the grid free of repeats,
/// and takes the cell's digit, and nothing else, out of what the cell's row,
/// column and box hold.
pub proof fn lemma_clear(g: Seq<Seq<u8>>, col: int, row: int)
    requires
        is_grid(g),
        consistent(g),
        1 <= col <= 9,
        1 <= row <= 9,
    ensures
        is_grid(set_cell(g, col, row, 0)),
        consistent(set_cell(g, col, row, 0)),
        forall|i: int, d: u8|
            1 <= i <= 9 && d != 0 ==> (#[trigger] row_has(set_cell(g, col, row, 0), i, d)
                <==> row_has(g, i, d) && !(i == row && d == cell_at(g, col, row))),
        forall|i: int, d: u8|
            1 <= i <= 9 && d != 0 ==> (#[trigger] col_has(set_cell(g, col, row, 0), i, d)
                <==> col_has(g, i, d) && !(i == col && d == cell_at(g, col, row))),
        forall|i: int, d: u8|
            0 <= i <= 8 && d != 0 ==> (#[trigger] box_has(set_cell(g, col, row, 0), i, d)
                <==> box_has(g, i, d) && !(i == box_index(col, row) && d == cell_at(
                g,
                col,
                row,
            ))),
{
    let h = set_cell(g, col, row, 0);
    let old_value = cell_at(g, col, row);
    lemma_set_cell(g, col, row, 0);
    assert forall|col1: int, row1: int, col2: int, row2: int|
        #![trigger cell_at(h, col1, row1), cell_at(h, col2, row2)]
        1 <= col1 <= 9 && 1 <= row1 <= 9 && 1 <= col2 <= 9 && 1 <= row2 <= 9 && peers(
            col1,
            row1,
            col2,
            row2,
        ) && cell_at(h, col1, row1) != 0 implies cell_at(h, col1, row1) != cell_at(
        h,
        col2,
        row2,
    ) by {
        assert(cell_at(g, col1, row1) == cell_at(h, col1, row1));
        if !(col2 == col && row2 == row) {
            assert(cell_at(g, col1, row1) != cell_at(g, col2, row2));
        }
    }
    assert forall|i: int, d: u8| 1 <= i <= 9 && d != 0 implies (#[trigger] row_has(h, i, d)
        <==> row_has(g, i, d) && !(i == row && d == old_value)) by {
        if row_has(h, i, d) {
            let c = choose|c: int| 1 <= c <= 9 && #[trigger] cell_at(h, c, i) == d;
            assert(cell_at(g, c, i) == d);
            if i == row && d == old_value {
                assert(cell_at(g, col, row) != cell_at(g, c, i));
            }
        }
        if row_has(g, i, d) && !(i == row && d == old_value) {
            let c = choose|c: int| 1 <= c <= 9 && #[trigger] cell_at(g, c, i) == d;
            assert(cell_at(h, c, i) == d);
        }
    }
    assert forall|i: int, d: u8| 1 <= i <= 9 && d != 0 implies (#[trigger] col_has(h, i, d)
        <==> col_has(g, i, d) && !(i == col && d == old_value)) by {
        if col_has(h, i, d) {
            let r = choose|r: int| 1 <= r <= 9 && #[trigger] cell_at(h, i, r) == d;
            assert(cell_at(g, i, r) == d);
            if i == col && d == old_value {
                assert(cell_at(g, col, row) != cell_at(g, i, r));
            }
        }
        if col_has(g, i, d) && !(i == col && d == old_value) {
            let r = choose|r: int| 1 <= r <= 9 && #[trigger] cell_at(g, i, r) == d;
            assert(cell_at(h, i, r) == d);
        }
    }
    assert forall|i: int, d: u8| 0 <= i <= 8 && d != 0 implies (#[trigger] box_has(h, i, d)
        <==> box_has(g, i, d) && !(i == box_index(col, row) && d == old_value)) by {
        if box_has(h, i, d) {
            let (c, r) = choose|c: int, r: int|
                1 <= c <= 9 && 1 <= r <= 9 && box_index(c, r) == i && #[trigger] cell_at(h, c, r)
                    == d;
            assert(cell_at(g, c, r) == d);
            if i == box_index(col, row) && d == old_value {
                assert(cell_at(g, col, row) != cell_at(g, c, r));
            }
        }
        if box_has(g, i, d) && !(i == box_index(col, row) && d == old_value) {
            let (c, r) = choose|c: int, r: int|
                1 <= c <= 9 && 1 <= r <= 9 && box_index(c, r) == i && #[trigger] cell_at(g, c, r)
                    == d;
            assert(cell_at(h, c, r) == d);
        }
    }
}

/// The first `k` cells of `g` in reading order, on an otherwise empty grid.
pub open spec fn first_cells(g: Seq<Seq<u8>>, k: int) -> Seq<Seq<u8>> {
    Seq::new(
        9,
        |r: int|
            Seq::new(
                9,
                |c: int|
                    if 9 * r + c < k {
                        g[r][c]
                    } else {
                        0u8
                    },
            ),
    )
}

/// If the digit in cell number `k` of `g` already stands, among the cells
/// before it, in the same row, column or box, then `g` repeats a digit.
pub proof fn lemma_clash(g: Seq<Seq<u8>>, k: int)
    requires
        is_grid(g),
        0 <= k < 81,
        nth_cell(g, k) != 0,
        !placeable(first_cells(g, k), k % 9 + 1, k / 9 + 1, nth_cell(g, k)),
    ensures
        !consistent(g),
{
    let col = k % 9 + 1;
    let row = k / 9 + 1;
    let d = nth_cell(g, k);
    let f = first_cells(g, k);
    if row_has(f, row, d) {
        let col2 = choose|col2: int| 1 <= col2 <= 9 && #[trigger] cell_at(f, col2, row) == d;
        assert(cell_at(g, col2, row) == d);
        assert(cell_at(g, col, row) == cell_at(g, col2, row));
    } else if col_has(f, col, d) {
        let row2 = choose|row2: int| 1 <= row2 <= 9 && #[trigger] cell_at(f, col, row2) == d;
        assert(cell_at(g, col, row2) == d);
        assert(cell_at(g, col, row) == cell_at(g, col, row2));
    } else {
        assert(box_has(f, box_index(col, row), d));
        let (col2, row2) = choose|col2: int, row2: int|
            1 <= col2 <= 9 && 1 <= row2 <= 9 && box_index(col2, row2) == box_index(col, row)
                && #[trigger] cell_at(f, col2, row2) == d;
        assert(cell_at(g, col2, row2) == d);
        assert(cell_at(g, col, row) == cell_at(g, col2, row2));
    }
}

} // verus!
