//! Why the backtracking search is right: the facts that carry a step of the
//! search from one candidate digit to the next and from one cell to the rest
//! of the grid.

use crate::grid::{
    agree_before, box_has, box_index, cell_at, col_has, consistent, has_solution,
    is_first_solution, is_grid, is_solution, lemma_set_cell, lex_le, nth_cell, placeable,
    row_has, set_cell,
};
use vstd::prelude::*;

verus! {

/// A full grid without repeats has itself as its only solution.
pub proof fn lemma_full_grid_solves_itself(g: Seq<Seq<u8>>)
    requires
        is_grid(g),
        consistent(g),
        forall|k: int| 0 <= k < 81 ==> #[trigger] nth_cell(g, k) != 0,
    ensures
        is_first_solution(g, g),
{
    assert forall|col: int, row: int| 1 <= col <= 9 && 1 <= row <= 9 implies #[trigger] cell_at(
        g,
        col,
        row,
    ) != 0 by {
        assert(nth_cell(g, 9 * (row - 1) + (col - 1)) != 0);
    }
    assert forall|other: Seq<Seq<u8>>| #[trigger] is_solution(other, g) implies lex_le(
        g,
        other,
    ) by {
        assert forall|k: int| 0 <= k < 81 && #[trigger] agree_before(g, other, k) implies nth_cell(
            g,
            k,
        ) <= nth_cell(other, k) by {
            assert(cell_at(other, k % 9 + 1, k / 9 + 1) == cell_at(g, k % 9 + 1, k / 9 + 1));
        }
    }
}

/// A digit that already stands in the row, column or box of an empty cell is
/// in that cell in no solution.
pub proof fn lemma_refused_digit(g: Seq<Seq<u8>>, k: int, value: u8, h: Seq<Seq<u8>>)
    requires
        is_grid(g),
        0 <= k < 81,
        1 <= value <= 9,
        nth_cell(g, k) == 0,
        !placeable(g, k % 9 + 1, k / 9 + 1, value),
        is_solution(h, g),
    ensures
        nth_cell(h, k) != value,
{
    let col = k % 9 + 1;
    let row = k / 9 + 1;
    if nth_cell(h, k) == value {
        if row_has(g, row, value) {
            let col2 = choose|col2: int| 1 <= col2 <= 9 && #[trigger] cell_at(g, col2, row) == value;
            assert(cell_at(h, col2, row) == value);
            assert(cell_at(h, col, row) != cell_at(h, col2, row));
        } else if col_has(g, col, value) {
            let row2 = choose|row2: int| 1 <= row2 <= 9 && #[trigger] cell_at(g, col, row2) == value;
            assert(cell_at(h, col, row2) == value);
            assert(cell_at(h, col, row) != cell_at(h, col, row2));
        } else {
            assert(box_has(g, box_index(col, row), value));
            let (col2, row2) = choose|col2: int, row2: int|
                1 <= col2 <= 9 && 1 <= row2 <= 9 && box_index(col2, row2) == box_index(col, row)
                    && #[trigger] cell_at(g, col2, row2) == value;
            assert(cell_at(h, col2, row2) == value);
            assert(cell_at(h, col, row) != cell_at(h, col2, row2));
        }
    }
}

/// A solution of `g` that holds `value` in an empty cell of `g` is a
/// solution of `g` with `value` placed there.
pub proof fn lemma_solution_of_placed(g: Seq<Seq<u8>>, k: int, value: u8, h: Seq<Seq<u8>>)
    requires
        is_grid(g),
        0 <= k < 81,
        1 <= value <= 9,
        is_solution(h, g),
        nth_cell(h, k) == value,
    ensures
        is_solution(h, set_cell(g, k % 9 + 1, k / 9 + 1, value)),
{
    lemma_set_cell(g, k % 9 + 1, k / 9 + 1, value);
}

/// The first solution of `g` with `value` placed in its first empty cell is
/// the first solution of `g`, if no solution of `g` holds a smaller digit in
/// that cell.
pub proof fn lemma_first_solution_of_placed(
    g: Seq<Seq<u8>>,
    k: int,
    value: u8,
    best: Seq<Seq<u8>>,
)
    requires
        is_grid(g),
        0 <= k < 81,
        1 <= value <= 9,
        forall|j: int| 0 <= j < k ==> #[trigger] nth_cell(g, j) != 0,
        nth_cell(g, k) == 0,
        forall|h: Seq<Seq<u8>>| #[trigger] is_solution(h, g) ==> nth_cell(h, k) >= value,
        is_first_solution(best, set_cell(g, k % 9 + 1, k / 9 + 1, value)),
    ensures
        is_first_solution(best, g),
{
    let col = k % 9 + 1;
    let row = k / 9 + 1;
    let placed = set_cell(g, col, row, value);
    lemma_set_cell(g, col, row, value);
    assert(cell_at(placed, col, row) == value);
    assert(cell_at(best, col, row) == value);
    assert forall|col2: int, row2: int|
        1 <= col2 <= 9 && 1 <= row2 <= 9 && cell_at(g, col2, row2) != 0 implies #[trigger] cell_at(
        best,
        col2,
        row2,
    ) == cell_at(g, col2, row2) by {
        assert(cell_at(placed, col2, row2) == cell_at(g, col2, row2));
    }
    assert(is_solution(best, g));
    assert forall|other: Seq<Seq<u8>>| #[trigger] is_solution(other, g) implies lex_le(
        best,
        other,
    ) by {
        if nth_cell(other, k) == value {
            lemma_solution_of_placed(g, k, value, other);
        } else {
            assert forall|m: int| 0 <= m < 81 && #[trigger] agree_before(best, other, m) implies nth_cell(
                best,
                m,
            ) <= nth_cell(other, m) by {
                if m < k {
                    assert(nth_cell(g, m) != 0);
                    assert(cell_at(best, m % 9 + 1, m / 9 + 1) == cell_at(g, m % 9 + 1, m / 9 + 1));
                    assert(cell_at(other, m % 9 + 1, m / 9 + 1) == cell_at(
                        g,
                        m % 9 + 1,
                        m / 9 + 1,
                    ));
                } else if m > k {
                    assert(nth_cell(best, k) == nth_cell(other, k));
                }
            }
        }
    }
}

/// A grid whose solutions would all hold more than 9 in some cell has none.
pub proof fn lemma_no_digit_left(g: Seq<Seq<u8>>, k: int)
    requires
        0 <= k < 81,
        forall|h: Seq<Seq<u8>>| #[trigger] is_solution(h, g) ==> nth_cell(h, k) >= 10,
    ensures
        !has_solution(g),
{
    if has_solution(g) {
        let h = choose|h: Seq<Seq<u8>>| is_solution(h, g);
        assert(cell_at(h, k % 9 + 1, k / 9 + 1) <= 9);
    }
}

/// Two grids of which each comes no later than the other hold the same
/// values in their first `k` cells.
proof fn lemma_same_cells(a: Seq<Seq<u8>>, b: Seq<Seq<u8>>, k: int)
    requires
        lex_le(a, b),
        lex_le(b, a),
        0 <= k <= 81,
    ensures
        agree_before(a, b, k),
        agree_before(b, a, k),
    decreases k,
{
    if k > 0 {
        lemma_same_cells(a, b, k - 1);
        assert(nth_cell(a, k - 1) <= nth_cell(b, k - 1));
        assert(nth_cell(b, k - 1) <= nth_cell(a, k - 1));
    }
}

/// A puzzle has at most one first solution.
pub proof fn lemma_first_solution_is_unique(a: Seq<Seq<u8>>, b: Seq<Seq<u8>>, g: Seq<Seq<u8>>)
    requires
        is_first_solution(a, g),
        is_first_solution(b, g),
    ensures
        a == b,
{
    lemma_same_cells(a, b, 81);
    assert forall|r: int| 0 <= r < 9 implies a[r] =~= b[r] by {
        assert(a[r].len() == 9 && b[r].len() == 9);
        assert forall|c: int| 0 <= c < 9 implies a[r][c] == b[r][c] by {
            assert(nth_cell(a, 9 * r + c) == nth_cell(b, 9 * r + c));
        }
    }
    assert(a =~= b);
}

} // verus!
