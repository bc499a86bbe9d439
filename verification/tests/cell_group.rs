use sudoku_solver::cell_group::CellGroup;

#[test]
fn test_insert_accepts_0_to_9() {
    let mut cg = CellGroup::new();

    for i in 0..10 {
        cg.insert(i);
    }
}

#[test]
fn test_insert_stores_digit() {
    let mut cg = CellGroup::new();
    let test_val: u8 = 5;
    assert!(!cg.contains(test_val));

    cg.insert(test_val);

    assert!(cg.contains(test_val));
}

#[test]
fn test_contains_returns_true_if_number_is_stored() {
    let mut cg = CellGroup::new();
    cg.insert(5);

    assert!(cg.contains(5));
}

#[test]
fn test_contains_returns_false_if_number_is_not_stored() {
    let cg = CellGroup::new();

    assert!(!cg.contains(5));
}

#[test]
fn test_remove_takes_digit_out_of_cell_group() {
    let mut cg = CellGroup::new();
    cg.insert(5);
    assert!(cg.contains(5));

    cg.remove(5);

    assert!(!cg.contains(5));
}

#[test]
fn test_new_group_holds_no_digit() {
    let cg = CellGroup::new();

    for digit in 0..=255u8 {
        assert!(!cg.contains(digit));
    }
}

#[test]
fn test_insert_adds_only_the_digit() {
    for digit in 1..10u8 {
        let mut cg = CellGroup::new();
        cg.insert(digit);

        for other in 0..=255u8 {
            assert_eq!(cg.contains(other), other == digit);
        }
    }
}

#[test]
fn test_insert_of_zero_changes_nothing() {
    let mut cg = CellGroup::new();
    cg.insert(0);
    for digit in 0..=255u8 {
        assert!(!cg.contains(digit));
    }

    cg.insert(3);
    cg.insert(8);
    cg.insert(0);

    for digit in 0..=255u8 {
        assert_eq!(cg.contains(digit), digit == 3 || digit == 8);
    }
}

#[test]
fn test_zero_is_never_a_member() {
    let mut cg = CellGroup::new();
    for digit in 0..10u8 {
        cg.insert(digit);
    }

    assert!(!cg.contains(0));
    for digit in 1..10u8 {
        assert!(cg.contains(digit));
    }
}

#[test]
fn test_insert_twice_is_insert_once() {
    let mut cg = CellGroup::new();
    cg.insert(7);
    cg.insert(7);
    assert!(cg.contains(7));

    cg.remove(7);

    assert!(!cg.contains(7));
}

#[test]
fn test_remove_takes_only_the_digit() {
    let mut cg = CellGroup::new();
    for digit in 0..10u8 {
        cg.insert(digit);
    }

    cg.remove(4);

    for digit in 1..10u8 {
        assert_eq!(cg.contains(digit), digit != 4);
    }
    assert!(!cg.contains(0));
}

#[test]
fn test_remove_of_absent_digit_changes_nothing() {
    let mut cg = CellGroup::new();
    cg.insert(1);
    cg.insert(9);

    cg.remove(5);
    cg.remove(0);
    cg.remove(10);
    cg.remove(200);

    for digit in 0..=255u8 {
        assert_eq!(cg.contains(digit), digit == 1 || digit == 9);
    }
}

#[test]
fn test_contains_is_false_above_nine() {
    let mut cg = CellGroup::new();
    for digit in 0..10u8 {
        cg.insert(digit);
    }

    for digit in 10..=255u8 {
        assert!(!cg.contains(digit));
    }
}

#[test]
fn test_copy_of_a_group_is_independent() {
    let mut cg = CellGroup::new();
    cg.insert(3);
    let copy = cg;

    cg.remove(3);

    assert!(copy.contains(3));
    assert!(!cg.contains(3));
}
