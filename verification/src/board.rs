//! The Sudoku board: the grid of cells, the digit sets of its rows, columns
//! and boxes, and the operations that keep the two in step.

use crate::cell_group::CellGroup;
use crate::grid::{
    blank_grid, box_has, box_index, cell_at, col_has, consistent, first_cells, grid_view,
    has_solution, is_first_solution, is_grid, is_solution, lemma_clash, lemma_clear, lemma_place,
    lemma_set_cell, nth_cell, placeable, row_has, set_cell,
};
use crate::search::{
    lemma_first_solution_of_placed, lemma_full_grid_solves_itself, lemma_no_digit_left,
    lemma_refused_digit, lemma_solution_of_placed,
};
use crate::text::{is_puzzle_text, join_numbers, parse_cells, rendered, text_grid};
use vstd::prelude::*;
use vstd::string::StringExecFns;

verus! {

/// A Sudoku board: the live grid, the digit sets that mirror it, and the
/// solution that was found last. [`Board::wf`] says what a board in order
/// looks like.
pub struct Board {
    /// The digits in each column, leftmost column first.
    pub cols: Vec<CellGroup>,
    /// The digits in each row, top row first.
    pub rows: Vec<CellGroup>,
    /// The digits in each 3×3 box, left to right, then top to bottom.
    pub squares: Vec<CellGroup>,
    /// The live grid, row by row; 0 is an empty cell.
    pub board: Vec<Vec<u8>>,
    /// The solution that the last successful `solve` found.
    pub solved_board: Vec<Vec<u8>>,
}

impl Board {
    /// The live grid.
    pub open spec fn grid(&self) -> Seq<Seq<u8>> {
        grid_view(self.board)
    }

    /// The grid that the last successful `solve` left.
    pub open spec fn solved(&self) -> Seq<Seq<u8>> {
        grid_view(self.solved_board)
    }

    /// The digit sets of the columns, leftmost first.
    pub open spec fn col_groups(&self) -> Seq<Set<u8>> {
        Seq::new(self.cols@.len(), |i: int| self.cols@[i]@)
    }

    /// The digit sets of the rows, topmost first.
    pub open spec fn row_groups(&self) -> Seq<Set<u8>> {
        Seq::new(self.rows@.len(), |i: int| self.rows@[i]@)
    }

    /// The digit sets of the boxes, in the order of `box_index`.
    pub open spec fn box_groups(&self) -> Seq<Set<u8>> {
        Seq::new(self.squares@.len(), |i: int| self.squares@[i]@)
    }

    /// The board is in order: the live grid is a grid in which no digit
    /// repeats in a row, a column or a box, and each digit set holds exactly
    /// the digits 1 to 9 that stand in its row, column or box.
    pub open spec fn wf(&self) -> bool {
        &&& is_grid(self.grid())
        &&& consistent(self.grid())
        &&& self.col_groups().len() == 9
        &&& self.row_groups().len() == 9
        &&& self.box_groups().len() == 9
        &&& forall|i: int, d: u8|
            0 <= i < 9 ==> (#[trigger] self.col_groups()[i].contains(d) <==> d != 0 && col_has(
                self.grid(),
                i + 1,
                d,
            ))
        &&& forall|i: int, d: u8|
            0 <= i < 9 ==> (#[trigger] self.row_groups()[i].contains(d) <==> d != 0 && row_has(
                self.grid(),
                i + 1,
                d,
            ))
        &&& forall|i: int, d: u8|
            0 <= i < 9 ==> (#[trigger] self.box_groups()[i].contains(d) <==> d != 0 && box_has(
                self.grid(),
                i,
                d,
            ))
    }

    /// Two boards in order with the same live grid have the same digit sets.
    pub proof fn lemma_groups_follow_grid(a: Board, b: Board)
        requires
            a.wf(),
            b.wf(),
            a.grid() == b.grid(),
        ensures
            a.col_groups() == b.col_groups(),
            a.row_groups() == b.row_groups(),
            a.box_groups() == b.box_groups(),
    {
        assert forall|i: int| 0 <= i < 9 implies a.col_groups()[i] =~= b.col_groups()[i] by {
            assert forall|d: u8| a.col_groups()[i].contains(d) == b.col_groups()[i].contains(d) by {
                assert(a.col_groups()[i].contains(d) <==> d != 0 && col_has(a.grid(), i + 1, d));
                assert(b.col_groups()[i].contains(d) <==> d != 0 && col_has(b.grid(), i + 1, d));
            }
        }
        assert forall|i: int| 0 <= i < 9 implies a.row_groups()[i] =~= b.row_groups()[i] by {
            assert forall|d: u8| a.row_groups()[i].contains(d) == b.row_groups()[i].contains(d) by {
                assert(a.row_groups()[i].contains(d) <==> d != 0 && row_has(a.grid(), i + 1, d));
                assert(b.row_groups()[i].contains(d) <==> d != 0 && row_has(b.grid(), i + 1, d));
            }
        }
        assert forall|i: int| 0 <= i < 9 implies a.box_groups()[i] =~= b.box_groups()[i] by {
            assert forall|d: u8| a.box_groups()[i].contains(d) == b.box_groups()[i].contains(d) by {
                assert(a.box_groups()[i].contains(d) <==> d != 0 && box_has(a.grid(), i, d));
                assert(b.box_groups()[i].contains(d) <==> d != 0 && box_has(b.grid(), i, d));
            }
        }
        assert(a.col_groups() =~= b.col_groups());
        assert(a.row_groups() =~= b.row_groups());
        assert(a.box_groups() =~= b.box_groups());
    }

    /// A board with every cell empty.
    pub fn new() -> (fresh: Board)
        ensures
            fresh.wf(),
            fresh.grid() == blank_grid(),
            fresh.solved() == blank_grid(),
    {
        let fresh = Board {
            cols: Self::initialise_empty_cell_groups(),
            rows: Self::initialise_empty_cell_groups(),
            squares: Self::initialise_empty_cell_groups(),
            board: empty_cells(),
            solved_board: empty_cells(),
        };
        proof {
            assert(fresh.grid() =~~= blank_grid());
            assert(fresh.solved() =~~= blank_grid());
        }
        fresh
    }

    /// A board whose live grid holds the digits of `cells`, row by row, if
    /// `cells` is a grid in which no digit repeats in a row, a column or a
    /// box; `None` for anything else.
    pub fn from_grid(cells: &Vec<Vec<u8>>) -> (loaded: Option<Board>)
        ensures
            loaded is Some <==> is_grid(grid_view(*cells)) && consistent(grid_view(*cells)),
            loaded matches Some(b) ==> b.wf() && b.grid() == grid_view(*cells) && b.solved()
                == blank_grid(),
    {
        if !is_grid_shape(cells) {
            return None;
        }
        let ghost target = grid_view(*cells);
        let mut loaded = Board::new();
        assert(loaded.grid() =~~= first_cells(target, 0));
        let mut k: usize = 0;
        while k < 81
            invariant
                k <= 81,
                is_grid(target),
                target == grid_view(*cells),
                loaded.wf(),
                loaded.grid() == first_cells(target, k as int),
                loaded.solved() == blank_grid(),
            decreases 81 - k,
        {
            let col: usize = k % 9 + 1;
            let row: usize = k / 9 + 1;
            assert(target[row - 1] == cells@[row - 1]@);
            let digit: u8 = cells[row - 1][col - 1];
            assert(digit == cell_at(target, col as int, row as int));
            if digit != 0 {
                let ghost before = loaded.grid();
                if !loaded.set_value_at(&col, &row, digit) {
                    proof {
                        lemma_clash(target, k as int);
                    }
                    return None;
                }
                proof {
                    lemma_set_cell(before, col as int, row as int, digit);
                }
            }
            assert(loaded.grid() =~~= first_cells(target, k + 1));
            k += 1;
        }
        assert(loaded.grid() =~~= target);
        Some(loaded)
    }

    /// A board whose live grid is the one that `board_str` spells: its first
    /// 81 characters are the cells in reading order, `0` for an empty cell.
    /// `None` if the text is shorter, if one of those characters is no
    /// digit, or if a digit repeats in a row, a column or a box.
    pub fn from_string(board_str: &str) -> (loaded: Option<Board>)
        ensures
            loaded is Some <==> is_puzzle_text(board_str@) && consistent(text_grid(board_str@)),
            loaded matches Some(b) ==> b.wf() && b.grid() == text_grid(board_str@) && b.solved()
                == blank_grid(),
    {
        match parse_cells(board_str) {
            None => None,
            Some(cells) => {
                assert(is_grid(text_grid(board_str@)));
                Board::from_grid(&cells)
            },
        }
    }

    /// The grid in `solved_board` as text, one line for each row.
    pub fn print(&self) -> (text: String)
        ensures
            text@ == rendered(self.solved()),
    {
        let mut result = String::new();
        let ghost g = self.solved();
        assert(g.take(0) =~= Seq::<Seq<u8>>::empty());
        for i in 0..self.solved_board.len()
            invariant
                g == self.solved(),
                result@ == rendered(g.take(i as int)),
        {
            proof {
                reveal_strlit("[");
                reveal_strlit(", ");
                reveal_strlit("],\n");
                assert(g.take(i + 1).drop_last() =~= g.take(i as int));
                assert(g.take(i + 1).last() == self.solved_board@[i as int]@);
                assert(", "@ =~= seq![',', ' ']);
                assert("],\n"@ =~= seq![']', ',', '\n']);
            }
            result.append("[");
            let line = join_numbers(&self.solved_board[i], ", ");
            result.append(line.as_str());
            result.append("],\n");
        }
        assert(g.take(self.solved_board@.len() as int) =~= g);
        result
    }

    fn initialise_empty_cell_groups() -> (groups: Vec<CellGroup>)
        ensures
            groups@.len() == 9,
            forall|i: int| 0 <= i < 9 ==> (#[trigger] groups@[i])@ == Set::<u8>::empty(),
    {
        let mut groups: Vec<CellGroup> = Vec::new();
        for n in 0usize..9
            invariant
                groups@.len() == n,
                forall|i: int| 0 <= i < n ==> (#[trigger] groups@[i])@ == Set::<u8>::empty(),
        {
            groups.push(CellGroup::new());
        }
        groups
    }

    /// Whether the cell in column `col_idx` of row `row_idx` is empty.
    pub fn is_empty_at(&self, col_idx: &usize, row_idx: &usize) -> (empty: bool)
        requires
            is_grid(self.grid()),
            1 <= *col_idx <= 9,
            1 <= *row_idx <= 9,
        ensures
            empty == (cell_at(self.grid(), *col_idx as int, *row_idx as int) == 0),
    {
        assert(self.grid()[*row_idx - 1] == self.board@[*row_idx - 1]@);
        self.board[*row_idx - 1][*col_idx - 1] == 0
    }

    /// Puts `value` into the cell in column `col_idx` of row `row_idx`,
    /// unless the digit already stands in the cell's row, column or box: then
    /// nothing changes and the result is `false`.
    ///
    /// A digit that the cell held before is overwritten and leaves the sets
    /// of the cell's row, column and box, so that the sets go on mirroring
    /// the grid.
    pub fn set_value_at(&mut self, col_idx: &usize, row_idx: &usize, value: u8) -> (placed: bool)
        requires
            old(self).wf(),
            1 <= *col_idx <= 9,
            1 <= *row_idx <= 9,
            1 <= value <= 9,
        ensures
            placed == placeable(old(self).grid(), *col_idx as int, *row_idx as int, value),
            !placed ==> *final(self) == *old(self),
            placed ==> final(self).grid() == set_cell(
                old(self).grid(),
                *col_idx as int,
                *row_idx as int,
                value,
            ),
            placed ==> final(self).col_groups() == old(self).col_groups().update(
                *col_idx - 1,
                old(self).col_groups()[*col_idx - 1].remove(
                    cell_at(old(self).grid(), *col_idx as int, *row_idx as int),
                ).insert(value),
            ),
            placed ==> final(self).row_groups() == old(self).row_groups().update(
                *row_idx - 1,
                old(self).row_groups()[*row_idx - 1].remove(
                    cell_at(old(self).grid(), *col_idx as int, *row_idx as int),
                ).insert(value),
            ),
            placed ==> final(self).box_groups() == old(self).box_groups().update(
                box_index(*col_idx as int, *row_idx as int),
                old(self).box_groups()[box_index(*col_idx as int, *row_idx as int)].remove(
                    cell_at(old(self).grid(), *col_idx as int, *row_idx as int),
                ).insert(value),
            ),
            final(self).solved_board == old(self).solved_board,
            final(self).wf(),
    {
        let c: usize = *col_idx - 1;
        let r: usize = *row_idx - 1;
        let b: usize = c / 3 + 3 * (r / 3);
        proof {
            let g = self.grid();
            assert(self.col_groups()[c as int].contains(value) <==> col_has(g, c + 1, value));
            assert(self.row_groups()[r as int].contains(value) <==> row_has(g, r + 1, value));
            assert(self.box_groups()[b as int].contains(value) <==> box_has(g, b as int, value));
        }
        if self.cols[c].contains(value) || self.rows[r].contains(value) || self.squares[b].contains(
            value,
        ) {
            return false;
        }
        self.clear_value_at(col_idx, row_idx);
        let ghost emptied = *self;
        proof {
            lemma_clear(old(self).grid(), *col_idx as int, *row_idx as int);
            lemma_set_cell(old(self).grid(), *col_idx as int, *row_idx as int, 0);
            lemma_place(emptied.grid(), *col_idx as int, *row_idx as int, value);
        }
        self.cols[c].insert(value);
        self.rows[r].insert(value);
        self.squares[b].insert(value);
        self.board[r][c] = value;
        proof {
            assert(self.grid() =~~= set_cell(
                emptied.grid(),
                *col_idx as int,
                *row_idx as int,
                value,
            ));
            assert(self.grid() =~~= set_cell(
                old(self).grid(),
                *col_idx as int,
                *row_idx as int,
                value,
            ));
            assert(self.col_groups() =~~= emptied.col_groups().update(
                c as int,
                emptied.col_groups()[c as int].insert(value),
            ));
            assert(self.row_groups() =~~= emptied.row_groups().update(
                r as int,
                emptied.row_groups()[r as int].insert(value),
            ));
            assert(self.box_groups() =~~= emptied.box_groups().update(
                b as int,
                emptied.box_groups()[b as int].insert(value),
            ));
            Self::lemma_sets_mirror_grid(
                emptied,
                *self,
                *col_idx as int,
                *row_idx as int,
                value,
                true,
            );
        }
        true
    }

    /// Empties the cell in column `col_idx` of row `row_idx`, and takes its
    /// digit out of the sets of the cell's row, column and box. An empty cell
    /// stays empty, and nothing else changes.
    pub fn clear_value_at(&mut self, col_idx: &usize, row_idx: &usize)
        requires
            old(self).wf(),
            1 <= *col_idx <= 9,
            1 <= *row_idx <= 9,
        ensures
            final(self).grid() == set_cell(old(self).grid(), *col_idx as int, *row_idx as int, 0),
            final(self).col_groups() == old(self).col_groups().update(
                *col_idx - 1,
                old(self).col_groups()[*col_idx - 1].remove(
                    cell_at(old(self).grid(), *col_idx as int, *row_idx as int),
                ),
            ),
            final(self).row_groups() == old(self).row_groups().update(
                *row_idx - 1,
                old(self).row_groups()[*row_idx - 1].remove(
                    cell_at(old(self).grid(), *col_idx as int, *row_idx as int),
                ),
            ),
            final(self).box_groups() == old(self).box_groups().update(
                box_index(*col_idx as int, *row_idx as int),
                old(self).box_groups()[box_index(*col_idx as int, *row_idx as int)].remove(
                    cell_at(old(self).grid(), *col_idx as int, *row_idx as int),
                ),
            ),
            final(self).solved_board == old(self).solved_board,
            final(self).wf(),
    {
        let c: usize = *col_idx - 1;
        let r: usize = *row_idx - 1;
        let b: usize = c / 3 + 3 * (r / 3);
        assert(old(self).grid()[r as int] == old(self).board@[r as int]@);
        let value: u8 = self.board[r][c];
        if value != 0 {
            self.cols[c].remove(value);
            self.rows[r].remove(value);
            self.squares[b].remove(value);
            self.board[r][c] = 0;
        }
        proof {
            let before = *old(self);
            assert(!before.col_groups()[c as int].contains(0));
            assert(!before.row_groups()[r as int].contains(0));
            assert(!before.box_groups()[b as int].contains(0));
            assert(self.col_groups() =~~= before.col_groups().update(
                c as int,
                before.col_groups()[c as int].remove(value),
            ));
            assert(self.row_groups() =~~= before.row_groups().update(
                r as int,
                before.row_groups()[r as int].remove(value),
            ));
            assert(self.box_groups() =~~= before.box_groups().update(
                b as int,
                before.box_groups()[b as int].remove(value),
            ));
            lemma_clear(before.grid(), *col_idx as int, *row_idx as int);
            assert(self.grid() =~~= set_cell(before.grid(), *col_idx as int, *row_idx as int, 0));
            Self::lemma_sets_mirror_grid(
                before,
                *self,
                *col_idx as int,
                *row_idx as int,
                value,
                false,
            );
        }
    }

    /// A board stays in order when one digit enters or leaves the grid and
    /// the sets of its cell's row, column and box together: `enters` says
    /// which. The grid after the change holds no repeat, and its rows,
    /// columns and boxes hold what they held before but for `digit` in those
    /// of the cell.
    proof fn lemma_sets_mirror_grid(
        before: Board,
        after: Board,
        col: int,
        row: int,
        digit: u8,
        enters: bool,
    )
        requires
            before.wf(),
            1 <= col <= 9,
            1 <= row <= 9,
            enters ==> digit != 0,
            is_grid(after.grid()),
            consistent(after.grid()),
            after.col_groups() == before.col_groups().update(
                col - 1,
                if enters {
                    before.col_groups()[col - 1].insert(digit)
                } else {
                    before.col_groups()[col - 1].remove(digit)
                },
            ),
            after.row_groups() == before.row_groups().update(
                row - 1,
                if enters {
                    before.row_groups()[row - 1].insert(digit)
                } else {
                    before.row_groups()[row - 1].remove(digit)
                },
            ),
            after.box_groups() == before.box_groups().update(
                box_index(col, row),
                if enters {
                    before.box_groups()[box_index(col, row)].insert(digit)
                } else {
                    before.box_groups()[box_index(col, row)].remove(digit)
                },
            ),
            forall|i: int, d: u8|
                1 <= i <= 9 && d != 0 ==> (#[trigger] col_has(after.grid(), i, d) <==> (if i
                    == col && d == digit {
                    enters
                } else {
                    col_has(before.grid(), i, d)
                })),
            forall|i: int, d: u8|
                1 <= i <= 9 && d != 0 ==> (#[trigger] row_has(after.grid(), i, d) <==> (if i
                    == row && d == digit {
                    enters
                } else {
                    row_has(before.grid(), i, d)
                })),
            forall|i: int, d: u8|
                0 <= i <= 8 && d != 0 ==> (#[trigger] box_has(after.grid(), i, d) <==> (if i
                    == box_index(col, row) && d == digit {
                    enters
                } else {
                    box_has(before.grid(), i, d)
                })),
        ensures
            after.wf(),
    {
        assert forall|i: int, d: u8| 0 <= i < 9 implies (#[trigger] after.col_groups()[i].contains(
            d,
        ) <==> d != 0 && col_has(after.grid(), i + 1, d)) by {
            assert(before.col_groups()[i].contains(d) <==> d != 0 && col_has(
                before.grid(),
                i + 1,
                d,
            ));
        }
        assert forall|i: int, d: u8| 0 <= i < 9 implies (#[trigger] after.row_groups()[i].contains(
            d,
        ) <==> d != 0 && row_has(after.grid(), i + 1, d)) by {
            assert(before.row_groups()[i].contains(d) <==> d != 0 && row_has(
                before.grid(),
                i + 1,
                d,
            ));
        }
        assert forall|i: int, d: u8| 0 <= i < 9 implies (#[trigger] after.box_groups()[i].contains(
            d,
        ) <==> d != 0 && box_has(after.grid(), i, d)) by {
            assert(before.box_groups()[i].contains(d) <==> d != 0 && box_has(
                before.grid(),
                i,
                d,
            ));
        }
    }

    /// Looks for the solution of the live grid that comes first in reading
    /// order: the search takes the empty cells row by row from the top, each
    /// row from the left, and tries the digits 1 to 9 in each, smallest
    /// first. The result says whether the grid has a solution; if it has,
    /// `solved_board` holds the first one afterwards, and else it is
    /// untouched. The live grid is the same after the search as before.
    pub fn solve(&mut self) -> (found: bool)
        requires
            old(self).wf(),
        ensures
            final(self).wf(),
            final(self).grid() == old(self).grid(),
            final(self).col_groups() == old(self).col_groups(),
            final(self).row_groups() == old(self).row_groups(),
            final(self).box_groups() == old(self).box_groups(),
            found == has_solution(old(self).grid()),
            found ==> is_first_solution(final(self).solved(), old(self).grid()),
            !found ==> final(self).solved_board == old(self).solved_board,
    {
        let found = self.solve_from(0);
        proof {
            Self::lemma_groups_follow_grid(*self, *old(self));
        }
        found
    }

    /// The search, for a grid whose cells before number `start` in reading
    /// order are all filled.
    fn solve_from(&mut self, start: usize) -> (found: bool)
        requires
            old(self).wf(),
            start <= 81,
            forall|j: int| 0 <= j < start ==> #[trigger] nth_cell(old(self).grid(), j) != 0,
        ensures
            final(self).wf(),
            final(self).grid() == old(self).grid(),
            found == has_solution(old(self).grid()),
            found ==> is_first_solution(final(self).solved(), old(self).grid()),
            !found ==> final(self).solved_board == old(self).solved_board,
        decreases 81 - start,
    {
        let ghost g = self.grid();
        let k: usize = self.first_empty_from(start);
        if k == 81 {
            self.solved_board = copy_cells(&self.board);
            proof {
                lemma_full_grid_solves_itself(g);
            }
            return true;
        }
        let col: usize = k % 9 + 1;
        let row: usize = k / 9 + 1;
        let mut value: u8 = 1;
        while value <= 9
            invariant
                1 <= value <= 10,
                start <= k < 81,
                col == k % 9 + 1,
                row == k / 9 + 1,
                self.wf(),
                self.grid() == g,
                g == old(self).grid(),
                self.solved_board == old(self).solved_board,
                nth_cell(g, k as int) == 0,
                forall|j: int| 0 <= j < k ==> #[trigger] nth_cell(g, j) != 0,
                forall|h: Seq<Seq<u8>>| #[trigger] is_solution(h, g) ==> nth_cell(h, k as int) >= value,
            decreases 10 - value,
        {
            if self.set_value_at(&col, &row, value) {
                proof {
                    lemma_set_cell(g, col as int, row as int, value);
                    assert forall|j: int| 0 <= j < k + 1 implies #[trigger] nth_cell(
                        self.grid(),
                        j,
                    ) != 0 by {
                        if j < k {
                            assert(nth_cell(g, j) != 0);
                        }
                    }
                }
                let found = self.solve_from(k + 1);
                let ghost placed = self.grid();
                self.clear_value_at(&col, &row);
                proof {
                    lemma_set_cell(placed, col as int, row as int, 0);
                    assert(self.grid() =~~= g);
                }
                if found {
                    proof {
                        lemma_first_solution_of_placed(g, k as int, value, self.solved());
                    }
                    return true;
                }
                proof {
                    assert forall|h: Seq<Seq<u8>>| #[trigger] is_solution(h, g) implies nth_cell(
                        h,
                        k as int,
                    ) != value by {
                        if nth_cell(h, k as int) == value {
                            lemma_solution_of_placed(g, k as int, value, h);
                        }
                    }
                }
            } else {
                proof {
                    assert forall|h: Seq<Seq<u8>>| #[trigger] is_solution(h, g) implies nth_cell(
                        h,
                        k as int,
                    ) != value by {
                        lemma_refused_digit(g, k as int, value, h);
                    }
                }
            }
            value += 1;
        }
        proof {
            lemma_no_digit_left(g, k as int);
        }
        false
    }

    /// The number in reading order of the first empty cell from number
    /// `start` on, or 81 if there is none.
    fn first_empty_from(&self, start: usize) -> (k: usize)
        requires
            is_grid(self.grid()),
            start <= 81,
        ensures
            start <= k <= 81,
            forall|j: int| start <= j < k ==> #[trigger] nth_cell(self.grid(), j) != 0,
            k < 81 ==> nth_cell(self.grid(), k as int) == 0,
    {
        let mut k: usize = start;
        while k < 81
            invariant
                is_grid(self.grid()),
                start <= k <= 81,
                forall|j: int| start <= j < k ==> #[trigger] nth_cell(self.grid(), j) != 0,
            decreases 81 - k,
        {
            let col: usize = k % 9 + 1;
            let row: usize = k / 9 + 1;
            if self.is_empty_at(&col, &row) {
                return k;
            }
            k += 1;
        }
        k
    }
}

/// Nine rows of nine empty cells.
fn empty_cells() -> (cells: Vec<Vec<u8>>)
    ensures
        grid_view(cells) == blank_grid(),
{
    let mut cells: Vec<Vec<u8>> = Vec::new();
    for r in 0usize..9
        invariant
            cells@.len() == r,
            forall|i: int| 0 <= i < r ==> (#[trigger] cells@[i])@ == Seq::new(9, |c: int| 0u8),
    {
        let mut row: Vec<u8> = Vec::new();
        for c in 0usize..9
            invariant
                row@.len() == c,
                forall|j: int| 0 <= j < c ==> #[trigger] row@[j] == 0,
        {
            row.push(0);
        }
        assert(row@ =~= Seq::new(9, |c: int| 0u8));
        cells.push(row);
    }
    assert(grid_view(cells) =~~= blank_grid());
    cells
}

/// A copy of `cells`.
fn copy_cells(cells: &Vec<Vec<u8>>) -> (copy: Vec<Vec<u8>>)
    ensures
        grid_view(copy) == grid_view(*cells),
{
    let copy = cells.clone();
    assert(grid_view(copy) =~~= grid_view(*cells));
    copy
}

/// Whether `cells` has nine rows of nine cells, none above 9.
fn is_grid_shape(cells: &Vec<Vec<u8>>) -> (ok: bool)
    ensures
        ok == is_grid(grid_view(*cells)),
{
    let ghost g = grid_view(*cells);
    if cells.len() != 9 {
        return false;
    }
    for r in 0usize..9
        invariant
            g == grid_view(*cells),
            cells@.len() == 9,
            forall|i: int| 0 <= i < r ==> (#[trigger] g[i]).len() == 9,
            forall|col: int, row: int|
                1 <= col <= 9 && 1 <= row <= r ==> #[trigger] cell_at(g, col, row) <= 9,
    {
        assert(g[r as int] == cells@[r as int]@);
        if cells[r].len() != 9 {
            return false;
        }
        for c in 0usize..9
            invariant
                g == grid_view(*cells),
                cells@.len() == 9,
                0 <= r < 9,
                g[r as int] == cells@[r as int]@,
                cells@[r as int]@.len() == 9,
                forall|col: int| 1 <= col <= c ==> #[trigger] cell_at(g, col, r + 1) <= 9,
        {
            if cells[r][c] > 9 {
                assert(cell_at(g, c + 1, r + 1) > 9);
                return false;
            }
        }
    }
    true
}

} // verus!
