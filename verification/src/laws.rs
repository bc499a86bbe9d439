//! What holds of the board's operations taken together.

use crate::board::Board;
use crate::grid::{
    blank_grid, box_has, box_index, cell_at, col_has, complete, consistent, has_solution,
    is_grid, is_solution, lemma_place, lemma_set_cell, peers, placeable, row_has, set_cell,
};
use vstd::prelude::*;
use vstd::set_lib::{lemma_int_range, lemma_len_subset, set_int_range};

verus! {

/// Every cell has one box: `box_index` names one of the nine, and two cells
/// have the same box exactly when they lie in the same band of three columns
/// and the same band of three rows.
pub proof fn law_box_of_cell(col: int, row: int)
    requires
        1 <= col <= 9,
        1 <= row <= 9,
    ensures
        0 <= box_index(col, row) <= 8,
        box_index(col, row) % 3 == (col - 1) / 3,
        box_index(col, row) / 3 == (row - 1) / 3,
        forall|col2: int, row2: int|
            1 <= col2 <= 9 && 1 <= row2 <= 9 ==> (#[trigger] box_index(col2, row2) == box_index(
                col,
                row,
            ) <==> (col2 - 1) / 3 == (col - 1) / 3 && (row2 - 1) / 3 == (row - 1) / 3),
{
}

/// A digit that is alone on the board is in exactly one row set, one column
/// set and one box set: those of its cell. The box is the one that
/// `box_index` names.
pub proof fn law_group_partition(b: Board, col: int, row: int, digit: u8)
    requires
        b.wf(),
        1 <= col <= 9,
        1 <= row <= 9,
        1 <= digit <= 9,
        b.grid() == set_cell(blank_grid(), col, row, digit),
    ensures
        0 <= box_index(col, row) <= 8,
        forall|i: int| 0 <= i < 9 ==> (#[trigger] b.col_groups()[i].contains(digit) <==> i == col - 1),
        forall|i: int| 0 <= i < 9 ==> (#[trigger] b.row_groups()[i].contains(digit) <==> i == row - 1),
        forall|i: int|
            0 <= i < 9 ==> (#[trigger] b.box_groups()[i].contains(digit) <==> i == box_index(
                col,
                row,
            )),
{
    let blank = blank_grid();
    assert(is_grid(blank));
    assert(consistent(blank));
    assert(placeable(blank, col, row, digit));
    lemma_place(blank, col, row, digit);
    assert forall|i: int| 0 <= i < 9 implies (#[trigger] b.col_groups()[i].contains(digit) <==> i
        == col - 1) by {
        assert(col_has(b.grid(), i + 1, digit) <==> col_has(blank, i + 1, digit) || i + 1 == col);
    }
    assert forall|i: int| 0 <= i < 9 implies (#[trigger] b.row_groups()[i].contains(digit) <==> i
        == row - 1) by {
        assert(row_has(b.grid(), i + 1, digit) <==> row_has(blank, i + 1, digit) || i + 1 == row);
    }
    assert forall|i: int| 0 <= i < 9 implies (#[trigger] b.box_groups()[i].contains(digit) <==> i
        == box_index(col, row)) by {
        assert(box_has(b.grid(), i, digit) <==> box_has(blank, i, digit) || i == box_index(
            col,
            row,
        ));
    }
}

/// Setting a digit in an empty cell and clearing the cell again gives back
/// the grid and the digit sets from before, whether the digit was placed or
/// refused; the cell is empty, and where the digit was placed it has left the
/// sets of the cell's row, column and box.
pub proof fn law_set_then_clear(
    before: Board,
    set: Board,
    cleared: Board,
    col: int,
    row: int,
    value: u8,
)
    requires
        before.wf(),
        set.wf(),
        cleared.wf(),
        1 <= col <= 9,
        1 <= row <= 9,
        1 <= value <= 9,
        cell_at(before.grid(), col, row) == 0,
        set.grid() == (if placeable(before.grid(), col, row, value) {
            set_cell(before.grid(), col, row, value)
        } else {
            before.grid()
        }),
        cleared.grid() == set_cell(set.grid(), col, row, 0),
    ensures
        cell_at(cleared.grid(), col, row) == 0,
        cleared.grid() == before.grid(),
        cleared.col_groups() == before.col_groups(),
        cleared.row_groups() == before.row_groups(),
        cleared.box_groups() == before.box_groups(),
        placeable(before.grid(), col, row, value) ==> !cleared.col_groups()[col - 1].contains(value)
            && !cleared.row_groups()[row - 1].contains(value) && !cleared.box_groups()[box_index(
            col,
            row,
        )].contains(value),
{
    lemma_set_cell(before.grid(), col, row, value);
    lemma_set_cell(set.grid(), col, row, 0);
    assert(cleared.grid() =~~= before.grid());
    Board::lemma_groups_follow_grid(cleared, before);
    assert(before.col_groups()[col - 1].contains(value) <==> col_has(before.grid(), col, value));
    assert(before.row_groups()[row - 1].contains(value) <==> row_has(before.grid(), row, value));
    assert(before.box_groups()[box_index(col, row)].contains(value) <==> box_has(
        before.grid(),
        box_index(col, row),
        value,
    ));
}

/// On a board that holds one digit and nothing else, the same digit is
/// refused in every cell of that digit's row, column and box, and accepted
/// in every other cell.
pub proof fn law_second_placement(col1: int, row1: int, col2: int, row2: int, value: u8)
    requires
        1 <= col1 <= 9,
        1 <= row1 <= 9,
        1 <= col2 <= 9,
        1 <= row2 <= 9,
        1 <= value <= 9,
    ensures
        placeable(set_cell(blank_grid(), col1, row1, value), col2, row2, value) <==> row2 != row1
            && col2 != col1 && box_index(col2, row2) != box_index(col1, row1),
{
    let blank = blank_grid();
    assert(is_grid(blank));
    assert(consistent(blank));
    assert(placeable(blank, col1, row1, value));
    lemma_place(blank, col1, row1, value);
    let g = set_cell(blank, col1, row1, value);
    assert(row_has(g, row2, value) <==> row_has(blank, row2, value) || row2 == row1);
    assert(col_has(g, col2, value) <==> col_has(blank, col2, value) || col2 == col1);
    assert(box_has(g, box_index(col2, row2), value) <==> box_has(
        blank,
        box_index(col2, row2),
        value,
    ) || box_index(col2, row2) == box_index(col1, row1));
}

/// Nine different numbers from 1 to 9 are all of them.
proof fn lemma_nine_different(s: Seq<int>, d: int)
    requires
        s.len() == 9,
        s.no_duplicates(),
        forall|i: int| 0 <= i < 9 ==> 1 <= #[trigger] s[i] <= 9,
        1 <= d <= 9,
    ensures
        s.contains(d),
{
    if !s.contains(d) {
        s.unique_seq_to_set();
        lemma_int_range(1, 10);
        let rest = set_int_range(1, 10).remove(d);
        assert(s.to_set().subset_of(rest));
        lemma_len_subset(s.to_set(), rest);
    }
}

/// The digit stands in exactly one cell of the row.
pub open spec fn once_in_row(g: Seq<Seq<u8>>, row: int, digit: u8) -> bool {
    exists|col: int|
        1 <= col <= 9 && #[trigger] cell_at(g, col, row) == digit && forall|other: int|
            1 <= other <= 9 && #[trigger] cell_at(g, other, row) == digit ==> other == col
}

/// The digit stands in exactly one cell of the column.
pub open spec fn once_in_col(g: Seq<Seq<u8>>, col: int, digit: u8) -> bool {
    exists|row: int|
        1 <= row <= 9 && #[trigger] cell_at(g, col, row) == digit && forall|other: int|
            1 <= other <= 9 && #[trigger] cell_at(g, col, other) == digit ==> other == row
}

/// The digit stands in exactly one cell of the box.
pub open spec fn once_in_box(g: Seq<Seq<u8>>, index: int, digit: u8) -> bool {
    exists|col: int, row: int|
        1 <= col <= 9 && 1 <= row <= 9 && box_index(col, row) == index && #[trigger] cell_at(
            g,
            col,
            row,
        ) == digit && forall|col2: int, row2: int|
            1 <= col2 <= 9 && 1 <= row2 <= 9 && box_index(col2, row2) == index && #[trigger] cell_at(
                g,
                col2,
                row2,
            ) == digit ==> col2 == col && row2 == row
}

/// In a full grid without repeats every row, every column and every box
/// holds each of the digits 1 to 9 exactly once.
pub proof fn law_full_grid_units(g: Seq<Seq<u8>>)
    requires
        is_grid(g),
        complete(g),
        consistent(g),
    ensures
        forall|row: int, digit: u8|
            1 <= row <= 9 && 1 <= digit <= 9 ==> #[trigger] once_in_row(g, row, digit),
        forall|col: int, digit: u8|
            1 <= col <= 9 && 1 <= digit <= 9 ==> #[trigger] once_in_col(g, col, digit),
        forall|index: int, digit: u8|
            0 <= index <= 8 && 1 <= digit <= 9 ==> #[trigger] once_in_box(g, index, digit),
{
    assert forall|row: int, digit: u8| 1 <= row <= 9 && 1 <= digit <= 9 implies #[trigger] once_in_row(
        g,
        row,
        digit,
    ) by {
        let s = Seq::new(9, |i: int| cell_at(g, i + 1, row) as int);
        assert forall|i: int, j: int| 0 <= i < 9 && 0 <= j < 9 && i != j implies s[i] != s[j] by {
            assert(cell_at(g, i + 1, row) != cell_at(g, j + 1, row));
        }
        assert forall|i: int| 0 <= i < 9 implies 1 <= #[trigger] s[i] <= 9 by {
            assert(cell_at(g, i + 1, row) != 0);
        }
        lemma_nine_different(s, digit as int);
        let i = choose|i: int| 0 <= i < 9 && s[i] == digit as int;
        let col = i + 1;
        assert(cell_at(g, col, row) == digit);
        assert forall|other: int|
            1 <= other <= 9 && #[trigger] cell_at(g, other, row) == digit implies other == col by {
            if other != col {
                assert(cell_at(g, col, row) != cell_at(g, other, row));
            }
        }
    }
    assert forall|col: int, digit: u8| 1 <= col <= 9 && 1 <= digit <= 9 implies #[trigger] once_in_col(
        g,
        col,
        digit,
    ) by {
        let s = Seq::new(9, |i: int| cell_at(g, col, i + 1) as int);
        assert forall|i: int, j: int| 0 <= i < 9 && 0 <= j < 9 && i != j implies s[i] != s[j] by {
            assert(cell_at(g, col, i + 1) != cell_at(g, col, j + 1));
        }
        assert forall|i: int| 0 <= i < 9 implies 1 <= #[trigger] s[i] <= 9 by {
            assert(cell_at(g, col, i + 1) != 0);
        }
        lemma_nine_different(s, digit as int);
        let i = choose|i: int| 0 <= i < 9 && s[i] == digit as int;
        let row = i + 1;
        assert(cell_at(g, col, row) == digit);
        assert forall|other: int|
            1 <= other <= 9 && #[trigger] cell_at(g, col, other) == digit implies other == row by {
            if other != row {
                assert(cell_at(g, col, row) != cell_at(g, col, other));
            }
        }
    }
    assert forall|index: int, digit: u8|
        0 <= index <= 8 && 1 <= digit <= 9 implies #[trigger] once_in_box(g, index, digit) by {
        let left = 3 * (index % 3);
        let top = 3 * (index / 3);
        let s = Seq::new(9, |i: int| cell_at(g, left + i % 3 + 1, top + i / 3 + 1) as int);
        assert forall|i: int, j: int| 0 <= i < 9 && 0 <= j < 9 && i != j implies s[i] != s[j] by {
            assert(cell_at(g, left + i % 3 + 1, top + i / 3 + 1) != cell_at(
                g,
                left + j % 3 + 1,
                top + j / 3 + 1,
            ));
        }
        assert forall|i: int| 0 <= i < 9 implies 1 <= #[trigger] s[i] <= 9 by {
            assert(cell_at(g, left + i % 3 + 1, top + i / 3 + 1) != 0);
        }
        lemma_nine_different(s, digit as int);
        let i = choose|i: int| 0 <= i < 9 && s[i] == digit as int;
        let col = left + i % 3 + 1;
        let row = top + i / 3 + 1;
        assert(cell_at(g, col, row) == digit);
        assert forall|col2: int, row2: int|
            1 <= col2 <= 9 && 1 <= row2 <= 9 && box_index(col2, row2) == index && #[trigger] cell_at(
                g,
                col2,
                row2,
            ) == digit implies col2 == col && row2 == row by {
            if col2 != col || row2 != row {
                assert(cell_at(g, col, row) != cell_at(g, col2, row2));
            }
        }
    }
}

/// A full grid without repeats: each row is the row above shifted by three
/// cells, and after every third row by one cell more.
pub open spec fn shifted_rows() -> Seq<Seq<u8>> {
    Seq::new(9, |r: int| Seq::new(9, |c: int| ((3 * (r % 3) + r / 3 + c) % 9 + 1) as u8))
}

/// The empty grid has a solution.
pub proof fn law_blank_grid_has_solution()
    ensures
        is_solution(shifted_rows(), blank_grid()),
        has_solution(blank_grid()),
{
    let h = shifted_rows();
    assert forall|col: int, row: int| 1 <= col <= 9 && 1 <= row <= 9 implies #[trigger] cell_at(
        h,
        col,
        row,
    ) == (3 * ((row - 1) % 3) + (row - 1) / 3 + (col - 1)) % 9 + 1 by {}
    assert forall|col1: int, row1: int, col2: int, row2: int|
        #![trigger cell_at(h, col1, row1), cell_at(h, col2, row2)]
        1 <= col1 <= 9 && 1 <= row1 <= 9 && 1 <= col2 <= 9 && 1 <= row2 <= 9 && peers(
            col1,
            row1,
            col2,
            row2,
        ) implies cell_at(h, col1, row1) != cell_at(h, col2, row2) by {
        let a1 = 3 * ((row1 - 1) % 3) + (row1 - 1) / 3 + (col1 - 1);
        let a2 = 3 * ((row2 - 1) % 3) + (row2 - 1) / 3 + (col2 - 1);
        assert(cell_at(h, col1, row1) == a1 % 9 + 1);
        assert(cell_at(h, col2, row2) == a2 % 9 + 1);
        assert(a1 % 9 != a2 % 9);
    }
    assert(is_solution(h, blank_grid()));
}

} // verus!
