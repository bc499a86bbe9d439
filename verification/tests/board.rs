use sudoku_solver::board::Board;

const PUZZLE: &str = "600003000\
    090867300\
    037250600\
    004130200\
    309000105\
    008029400\
    005041720\
    003796080\
    000500001";

fn blank() -> Vec<Vec<u8>> {
    vec![vec![0; 9]; 9]
}

fn groups_of(board: &Board) -> Vec<Vec<bool>> {
    let mut seen = Vec::new();
    for family in [&board.cols, &board.rows, &board.squares] {
        for group in family.iter() {
            seen.push((0..=9u8).map(|d| group.contains(d)).collect());
        }
    }
    seen
}

fn is_full_and_valid(grid: &Vec<Vec<u8>>) -> bool {
    for i in 0..9 {
        for digit in 1..=9u8 {
            let in_row = (0..9).filter(|&c| grid[i][c] == digit).count();
            let in_col = (0..9).filter(|&r| grid[r][i] == digit).count();
            let in_box = (0..9)
                .filter(|&n| grid[3 * (i / 3) + n / 3][3 * (i % 3) + n % 3] == digit)
                .count();
            if in_row != 1 || in_col != 1 || in_box != 1 {
                return false;
            }
        }
    }
    true
}

#[test]
fn test_new_board_has_nine_cols() {
    let board = Board::new();

    assert_eq!(board.cols.len(), 9);
}

#[test]
fn test_new_board_has_nine_rows() {
    let board = Board::new();

    assert_eq!(board.rows.len(), 9);
}

#[test]
fn test_new_board_has_nine_boxes() {
    let board = Board::new();

    assert_eq!(board.squares.len(), 9);
}

#[test]
fn test_setting_value_puts_value_in_correct_groups() {
    let test_data: [(usize, usize, usize); 9] = [
        // (col, row, square),
        (3, 3, 1),
        (5, 2, 2),
        (7, 3, 3),
        (2, 6, 4),
        (6, 4, 5),
        (8, 5, 6),
        (2, 8, 7),
        (4, 7, 8),
        (9, 8, 9),
    ];

    for item in test_data.iter() {
        let mut board = Board::new();

        let col_idx = item.0;
        let row_idx = item.1;
        let box_idx = item.2;
        board.set_value_at(&col_idx, &row_idx, 9);

        assert!(board.cols[col_idx - 1].contains(9));
        assert!(board.rows[row_idx - 1].contains(9));
        assert!(board.squares[box_idx - 1].contains(9));
        assert!(!board.is_empty_at(&col_idx, &row_idx));
    }
}

#[test]
fn test_setting_acceptable_value_returns_true() {
    let mut board = Board::new();

    assert!(board.set_value_at(&1, &1, 1));
}

#[test]
fn test_setting_unacceptable_value_returns_false() {
    let mut board = Board::new();
    board.set_value_at(&1, &1, 1);

    assert!(!board.set_value_at(&1, &1, 1));
}

#[test]
fn test_setting_unacceptable_value_leaves_state_unchanged() {
    let mut board = Board::new();
    board.set_value_at(&1, &1, 1);

    board.set_value_at(&2, &1, 1);

    assert!(!board.cols[1].contains(1));
}

#[test]
fn test_setting_acceptable_value_updates_board() {
    let expected_board: Vec<Vec<u8>> = vec![
        vec![0, 0, 0, 0, 0, 0, 0, 0, 0],
        vec![1, 0, 0, 0, 0, 0, 0, 0, 0],
        vec![0, 0, 0, 0, 0, 0, 0, 0, 0],
        vec![0, 0, 0, 0, 0, 0, 0, 0, 0],
        vec![0, 0, 0, 0, 0, 0, 0, 0, 0],
        vec![0, 0, 0, 0, 0, 0, 0, 0, 0],
        vec![0, 0, 0, 0, 0, 0, 0, 0, 0],
        vec![0, 0, 0, 0, 0, 0, 0, 0, 0],
        vec![0, 0, 0, 0, 0, 0, 0, 0, 0],
    ];
    let mut board = Board::new();

    board.set_value_at(&1, &2, 1);

    assert_eq!(board.board, expected_board);
}

#[test]
fn test_setting_unacceptable_value_does_not_update_board() {
    let expected_board: Vec<Vec<u8>> = vec![
        vec![1, 0, 0, 0, 0, 0, 0, 0, 0],
        vec![0, 0, 0, 0, 0, 0, 0, 0, 0],
        vec![0, 0, 0, 0, 0, 0, 0, 0, 0],
        vec![0, 0, 0, 0, 0, 0, 0, 0, 0],
        vec![0, 0, 0, 0, 0, 0, 0, 0, 0],
        vec![0, 0, 0, 0, 0, 0, 0, 0, 0],
        vec![0, 0, 0, 0, 0, 0, 0, 0, 0],
        vec![0, 0, 0, 0, 0, 0, 0, 0, 0],
        vec![0, 0, 0, 0, 0, 0, 0, 0, 0],
    ];
    let mut board = Board::new();

    board.set_value_at(&1, &1, 1);
    board.set_value_at(&2, &1, 1);

    assert_eq!(board.board, expected_board);
}

#[test]
fn test_is_empty_at_return_true_if_cell_at_location_is_empty() {
    let board = Board::new();

    assert!(board.is_empty_at(&1, &1));
}

#[test]
fn test_is_empty_at_return_false_if_cell_at_location_is_not_empty() {
    let mut board = Board::new();
    board.set_value_at(&1, &1, 1);

    assert!(!board.is_empty_at(&1, &1));
}

#[test]
fn test_clear_value_at_removes_the_value_at_a_locations_col() {
    let mut board = Board::new();
    board.set_value_at(&1, &1, 1);

    board.clear_value_at(&1, &1);

    assert!(!board.cols[0].contains(1));
}

#[test]
fn test_clear_value_at_removes_the_value_at_a_locations_row() {
    let mut board = Board::new();
    board.set_value_at(&1, &1, 1);
    board.clear_value_at(&1, &1);

    assert!(!board.rows[0].contains(1));
}

#[test]
fn test_clear_value_at_removes_the_value_at_a_locations_square() {
    let mut board = Board::new();
    board.set_value_at(&1, &1, 1);
    board.clear_value_at(&1, &1);

    assert!(!board.squares[0].contains(1));
}

#[test]
fn test_clear_value_at_removes_the_value_at_a_locations_cell() {
    let mut board = Board::new();
    board.set_value_at(&1, &1, 1);
    board.clear_value_at(&1, &1);

    assert!(board.is_empty_at(&1, &1));
}

#[test]
fn test_the_board_can_print_itself() {
    let expected_output = String::from(
        "[1, 2, 3, 0, 0, 0, 0, 0, 0],\n\
            [0, 0, 0, 0, 0, 0, 0, 0, 0],\n\
            [0, 0, 0, 0, 0, 0, 0, 0, 0],\n\
            [0, 0, 0, 0, 0, 0, 0, 0, 0],\n\
            [0, 0, 0, 0, 0, 0, 0, 0, 0],\n\
            [0, 0, 0, 0, 0, 0, 0, 0, 0],\n\
            [0, 0, 0, 0, 0, 0, 0, 0, 0],\n\
            [0, 0, 0, 0, 0, 0, 0, 0, 0],\n\
            [0, 0, 0, 0, 0, 0, 0, 0, 0],\n",
    );
    let mut board = Board::new();
    board.set_value_at(&1, &1, 1);
    board.set_value_at(&2, &1, 2);
    board.set_value_at(&3, &1, 3);
    board.solved_board = board.board.clone();
    board.clear_value_at(&1, &1);
    board.clear_value_at(&2, &1);
    board.clear_value_at(&3, &1);

    let printed = board.print();

    assert_eq!(printed, expected_output);
}

#[test]
fn test_the_board_can_be_initialised_from_a_string() {
    let board_file = String::from(PUZZLE);

    let expected_board = vec![
        vec![6, 0, 0, 0, 0, 3, 0, 0, 0],
        vec![0, 9, 0, 8, 6, 7, 3, 0, 0],
        vec![0, 3, 7, 2, 5, 0, 6, 0, 0],
        vec![0, 0, 4, 1, 3, 0, 2, 0, 0],
        vec![3, 0, 9, 0, 0, 0, 1, 0, 5],
        vec![0, 0, 8, 0, 2, 9, 4, 0, 0],
        vec![0, 0, 5, 0, 4, 1, 7, 2, 0],
        vec![0, 0, 3, 7, 9, 6, 0, 8, 0],
        vec![0, 0, 0, 5, 0, 0, 0, 0, 1],
    ];
    let board = Board::from_string(&board_file).unwrap();

    assert_eq!(board.board, expected_board);
}

#[test]
fn test_that_the_board_solves_sudoku() {
    let board_file = String::from(PUZZLE);
    let expected_solution = vec![
        vec![6, 4, 2, 9, 1, 3, 8, 5, 7],
        vec![5, 9, 1, 8, 6, 7, 3, 4, 2],
        vec![8, 3, 7, 2, 5, 4, 6, 1, 9],
        vec![7, 6, 4, 1, 3, 5, 2, 9, 8],
        vec![3, 2, 9, 4, 7, 8, 1, 6, 5],
        vec![1, 5, 8, 6, 2, 9, 4, 7, 3],
        vec![9, 8, 5, 3, 4, 1, 7, 2, 6],
        vec![2, 1, 3, 7, 9, 6, 5, 8, 4],
        vec![4, 7, 6, 5, 8, 2, 9, 3, 1],
    ];
    let mut board = Board::from_string(&board_file).unwrap();

    board.solve();

    assert_eq!(board.solved_board, expected_solution);
}

#[test]
fn test_new_board_is_blank() {
    let board = Board::new();

    assert_eq!(board.board, blank());
    assert_eq!(board.solved_board, blank());
    for group in groups_of(&board) {
        assert_eq!(group, vec![false; 10]);
    }
}

#[test]
fn test_every_cell_lies_in_the_box_of_the_formula() {
    for row in 1..=9usize {
        for col in 1..=9usize {
            let mut board = Board::new();
            assert!(board.set_value_at(&col, &row, 4));

            let square = (col - 1) / 3 + 3 * ((row - 1) / 3);
            for i in 0..9 {
                assert_eq!(board.cols[i].contains(4), i == col - 1);
                assert_eq!(board.rows[i].contains(4), i == row - 1);
                assert_eq!(board.squares[i].contains(4), i == square);
            }
        }
    }
}

#[test]
fn test_refused_placement_leaves_everything_unchanged() {
    let mut board = Board::from_string(PUZZLE).unwrap();
    board.solved_board[4][4] = 7;
    let cells = board.board.clone();
    let solved = board.solved_board.clone();
    let groups = groups_of(&board);

    // 6 stands in row 1, 9 in column 2, 3 in the top right box.
    assert!(!board.set_value_at(&4, &1, 6));
    assert!(!board.set_value_at(&2, &5, 9));
    assert!(!board.set_value_at(&9, &1, 3));

    assert_eq!(board.board, cells);
    assert_eq!(board.solved_board, solved);
    assert_eq!(groups_of(&board), groups);
}

#[test]
fn test_set_then_clear_restores_the_board() {
    let mut board = Board::from_string(PUZZLE).unwrap();
    let cells = board.board.clone();
    let groups = groups_of(&board);

    // Cell (2, 1) is empty; 4 is free there and 6 is not.
    for value in [4u8, 6u8] {
        let placed = board.set_value_at(&2, &1, value);
        assert_eq!(placed, value == 4);
        board.clear_value_at(&2, &1);

        assert!(board.is_empty_at(&2, &1));
        assert_eq!(board.board, cells);
        assert_eq!(groups_of(&board), groups);
    }
    assert!(!board.cols[1].contains(4));
    assert!(!board.rows[0].contains(4));
    assert!(!board.squares[0].contains(4));
}

#[test]
fn test_clearing_an_empty_cell_changes_nothing() {
    let mut board = Board::from_string(PUZZLE).unwrap();
    let cells = board.board.clone();
    let groups = groups_of(&board);

    board.clear_value_at(&2, &1);

    assert_eq!(board.board, cells);
    assert_eq!(groups_of(&board), groups);
}

#[test]
fn test_clearing_a_clue_frees_its_digit() {
    let mut board = Board::from_string(PUZZLE).unwrap();
    assert!(!board.set_value_at(&2, &1, 6));

    board.clear_value_at(&1, &1);

    assert!(board.is_empty_at(&1, &1));
    assert!(!board.rows[0].contains(6));
    assert!(!board.cols[0].contains(6));
    assert!(!board.squares[0].contains(6));
    assert!(board.set_value_at(&2, &1, 6));
    assert_eq!(board.board[0], vec![0, 6, 0, 0, 0, 3, 0, 0, 0]);
}

#[test]
fn test_second_placement_of_a_digit() {
    for value in 1..=9u8 {
        for row in 1..=9usize {
            for col in 1..=9usize {
                let mut board = Board::new();
                assert!(board.set_value_at(&1, &1, value));

                let shares_unit = row == 1 || col == 1 || (row <= 3 && col <= 3);
                assert_eq!(board.set_value_at(&col, &row, value), !shares_unit);
            }
        }
    }
}

#[test]
fn test_second_placement_in_the_same_box_is_refused() {
    let mut board = Board::new();
    assert!(board.set_value_at(&1, &1, 5));

    assert!(!board.set_value_at(&2, &2, 5));
    assert!(board.is_empty_at(&2, &2));
    assert!(!board.set_value_at(&9, &1, 5));
    assert!(!board.set_value_at(&1, &9, 5));
    assert!(board.set_value_at(&4, &2, 5));
    assert!(board.set_value_at(&2, &4, 5));
}

#[test]
fn test_other_digit_is_accepted_beside_the_first() {
    let mut board = Board::new();
    assert!(board.set_value_at(&1, &1, 5));

    assert!(board.set_value_at(&2, &1, 6));

    assert_eq!(board.board[0], vec![5, 6, 0, 0, 0, 0, 0, 0, 0]);
}

#[test]
fn test_solve_leaves_the_live_grid_as_it_was() {
    let mut board = Board::from_string(PUZZLE).unwrap();
    let cells = board.board.clone();
    let groups = groups_of(&board);

    assert!(board.solve());

    assert_eq!(board.board, cells);
    assert_eq!(groups_of(&board), groups);
    assert!(is_full_and_valid(&board.solved_board));
    for row in 0..9 {
        for col in 0..9 {
            if cells[row][col] != 0 {
                assert_eq!(board.solved_board[row][col], cells[row][col]);
            }
        }
    }
}

#[test]
fn test_blank_board_is_solved_with_the_first_grid_in_reading_order() {
    let expected = vec![
        vec![1, 2, 3, 4, 5, 6, 7, 8, 9],
        vec![4, 5, 6, 7, 8, 9, 1, 2, 3],
        vec![7, 8, 9, 1, 2, 3, 4, 5, 6],
        vec![2, 1, 4, 3, 6, 5, 8, 9, 7],
        vec![3, 6, 5, 8, 9, 7, 2, 1, 4],
        vec![8, 9, 7, 2, 1, 4, 3, 6, 5],
        vec![5, 3, 1, 6, 4, 2, 9, 7, 8],
        vec![6, 4, 2, 9, 7, 8, 5, 3, 1],
        vec![9, 7, 8, 5, 3, 1, 6, 4, 2],
    ];
    let mut board = Board::new();

    assert!(board.solve());

    assert_eq!(board.solved_board, expected);
    assert!(is_full_and_valid(&board.solved_board));
    assert_eq!(board.board, blank());
}

#[test]
fn test_full_grid_is_its_own_solution() {
    let mut board = Board::from_string(PUZZLE).unwrap();
    assert!(board.solve());
    let solution = board.solved_board.clone();

    let mut full = Board::from_grid(&solution).unwrap();
    assert_eq!(full.solved_board, blank());

    assert!(full.solve());
    assert_eq!(full.solved_board, solution);
    assert_eq!(full.board, solution);
}

#[test]
fn test_puzzle_without_solution_is_reported() {
    // The last cell of the top row can take no digit: 1 to 8 stand in the
    // row and 9 stands below it.
    let mut cells = blank();
    cells[0] = vec![1, 2, 3, 4, 5, 6, 7, 8, 0];
    cells[1][8] = 9;
    let mut board = Board::from_grid(&cells).unwrap();
    board.solved_board[0][0] = 3;
    let solved = board.solved_board.clone();

    assert!(!board.solve());

    assert_eq!(board.solved_board, solved);
    assert_eq!(board.board, cells);
}

#[test]
fn test_puzzle_that_fails_deep_in_the_search_is_reported() {
    // Box 1 and the rest of the top row leave only 7, 8 and 9 for the cells
    // (1, 3) and (2, 3) and (3, 3), but 7 and 8 and 9 stand in row 3.
    let mut cells = blank();
    cells[0] = vec![1, 2, 3, 0, 0, 0, 0, 0, 0];
    cells[1] = vec![4, 5, 6, 0, 0, 0, 0, 0, 0];
    cells[2] = vec![0, 0, 0, 7, 8, 9, 0, 0, 0];
    let mut board = Board::from_grid(&cells).unwrap();

    assert!(!board.solve());

    assert_eq!(board.solved_board, blank());
    assert_eq!(board.board, cells);
}

#[test]
fn test_grid_with_a_digit_twice_in_a_row_is_refused() {
    let mut cells = blank();
    cells[0][0] = 5;
    cells[0][1] = 5;

    assert!(Board::from_grid(&cells).is_none());
}

#[test]
fn test_grid_with_a_digit_twice_in_a_column_or_box_is_refused() {
    let mut cells = blank();
    cells[0][3] = 2;
    cells[8][3] = 2;
    assert!(Board::from_grid(&cells).is_none());

    let mut cells = blank();
    cells[3][3] = 2;
    cells[5][5] = 2;
    assert!(Board::from_grid(&cells).is_none());

    let mut cells = blank();
    cells[3][3] = 2;
    cells[6][6] = 2;
    assert!(Board::from_grid(&cells).is_some());
}

#[test]
fn test_grid_of_the_wrong_shape_is_refused() {
    assert!(Board::from_grid(&Vec::new()).is_none());
    assert!(Board::from_grid(&vec![vec![0; 9]; 8]).is_none());
    assert!(Board::from_grid(&vec![vec![0; 9]; 10]).is_none());

    let mut cells = blank();
    cells[4] = vec![0; 8];
    assert!(Board::from_grid(&cells).is_none());

    let mut cells = blank();
    cells[8][8] = 10;
    assert!(Board::from_grid(&cells).is_none());
}

#[test]
fn test_from_grid_fills_grid_and_groups() {
    let mut cells = blank();
    cells[1][4] = 7;
    cells[8][0] = 7;
    let board = Board::from_grid(&cells).unwrap();

    assert_eq!(board.board, cells);
    assert_eq!(board.solved_board, blank());
    for i in 0..9 {
        assert_eq!(board.cols[i].contains(7), i == 4 || i == 0);
        assert_eq!(board.rows[i].contains(7), i == 1 || i == 8);
        assert_eq!(board.squares[i].contains(7), i == 1 || i == 6);
        assert!(!board.cols[i].contains(0));
        assert!(!board.rows[i].contains(0));
        assert!(!board.squares[i].contains(0));
    }
}

#[test]
fn test_text_with_a_digit_twice_in_a_row_is_refused() {
    let mut text = String::from("55");
    text.push_str(&"0".repeat(79));

    assert!(Board::from_string(&text).is_none());
}

#[test]
fn test_text_that_is_too_short_is_refused() {
    assert!(Board::from_string("").is_none());
    assert!(Board::from_string(&PUZZLE[..80]).is_none());
}

#[test]
fn test_text_with_another_character_is_refused() {
    let mut text = String::from(&PUZZLE[..40]);
    text.push('x');
    text.push_str(&PUZZLE[41..]);
    assert!(Board::from_string(&text).is_none());

    let mut text = String::from(&PUZZLE[..80]);
    text.push('٣');
    assert!(Board::from_string(&text).is_none());
}

#[test]
fn test_text_beyond_the_grid_is_ignored() {
    let mut text = String::from(PUZZLE);
    text.push_str("55x");

    let board = Board::from_string(&text).unwrap();

    assert_eq!(board.board, Board::from_string(PUZZLE).unwrap().board);
}

#[test]
fn test_print_writes_numbers_in_decimal() {
    let mut board = Board::new();
    board.solved_board = vec![vec![0, 9, 10, 99, 100, 255], vec![], vec![7]];

    assert_eq!(board.print(), "[0, 9, 10, 99, 100, 255],\n[],\n[7],\n");
}

#[test]
fn test_print_of_no_rows_is_empty() {
    let mut board = Board::new();
    board.solved_board = Vec::new();

    assert_eq!(board.print(), "");
}

#[test]
fn test_print_of_a_solved_puzzle() {
    let mut board = Board::from_string(PUZZLE).unwrap();
    board.solve();

    let expected = "[6, 4, 2, 9, 1, 3, 8, 5, 7],\n\
        [5, 9, 1, 8, 6, 7, 3, 4, 2],\n\
        [8, 3, 7, 2, 5, 4, 6, 1, 9],\n\
        [7, 6, 4, 1, 3, 5, 2, 9, 8],\n\
        [3, 2, 9, 4, 7, 8, 1, 6, 5],\n\
        [1, 5, 8, 6, 2, 9, 4, 7, 3],\n\
        [9, 8, 5, 3, 4, 1, 7, 2, 6],\n\
        [2, 1, 3, 7, 9, 6, 5, 8, 4],\n\
        [4, 7, 6, 5, 8, 2, 9, 3, 1],\n";
    assert_eq!(board.print(), expected);
}

#[test]
fn test_free_digit_on_a_filled_cell_replaces_the_old_one() {
    let mut board = Board::from_string(PUZZLE).unwrap();
    let mut cells = board.board.clone();
    let groups = groups_of(&board);

    // Cell (1, 1) holds 6; 4 is free in its row, column and box.
    assert!(board.set_value_at(&1, &1, 4));

    cells[0][0] = 4;
    assert_eq!(board.board, cells);
    let after = groups_of(&board);
    for (n, group) in after.iter().enumerate() {
        // Column 1 is group 0, row 1 is group 9, box 1 is group 18.
        let mut expected = groups[n].clone();
        if n == 0 || n == 9 || n == 18 {
            expected[6] = false;
            expected[4] = true;
        }
        assert_eq!(group, &expected);
    }
    assert!(board.set_value_at(&2, &1, 6));
}

#[test]
fn test_refused_digit_on_a_filled_cell_changes_nothing() {
    let mut board = Board::from_string(PUZZLE).unwrap();
    let cells = board.board.clone();
    let groups = groups_of(&board);

    // Cell (1, 1) holds 6: 6 itself is refused there, and so is 3, which
    // stands in row 1.
    assert!(!board.set_value_at(&1, &1, 6));
    assert!(!board.set_value_at(&1, &1, 3));

    assert_eq!(board.board, cells);
    assert_eq!(groups_of(&board), groups);
}

#[test]
fn test_placement_touches_only_the_three_groups_of_the_cell() {
    for row in 1..=9usize {
        for col in 1..=9usize {
            let board = Board::from_string(PUZZLE).unwrap();
            let groups = groups_of(&board);
            let square = (col - 1) / 3 + 3 * ((row - 1) / 3);
            let held = board.board[row - 1][col - 1] as usize;

            for value in 1..=9u8 {
                let free = !groups[col - 1][value as usize]
                    && !groups[9 + row - 1][value as usize]
                    && !groups[18 + square][value as usize];
                let mut trial = Board::from_string(PUZZLE).unwrap();
                assert_eq!(trial.set_value_at(&col, &row, value), free);

                let mut expected = groups.clone();
                if free {
                    for n in [col - 1, 9 + row - 1, 18 + square] {
                        expected[n][held] = false;
                        expected[n][value as usize] = true;
                    }
                }
                assert_eq!(groups_of(&trial), expected);
            }
        }
    }
}
