use gobblet_solver::codec::Board;
use gobblet_solver::outcome::WIN;
use gobblet_solver::select::{find_best_move, is_first_state_better};
use std::collections::HashMap;

type Table = HashMap<Board, (Vec<Board>, u8, i8)>;

#[test]
fn a_candidate_without_moves_is_never_taken_first() {
    assert_eq!(is_first_state_better((0, 0), (3, 0)), false);
    assert_eq!(is_first_state_better((0, 0), (3, WIN)), false);
    assert_eq!(is_first_state_better((0, 0), (0, 0)), false);
    assert_eq!(is_first_state_better((0, WIN), (3, 2)), false);
    assert_eq!(is_first_state_better((3, 2), (0, 0)), true);
    assert_eq!(is_first_state_better((3, WIN), (0, 0)), true);
}

#[test]
fn a_won_candidate_goes_before_one_that_is_not() {
    assert_eq!(is_first_state_better((3, WIN), (3, 0)), true);
    assert_eq!(is_first_state_better((1, WIN), (9, 0)), true);
    assert_eq!(is_first_state_better((3, 0), (3, WIN)), false);
    assert_eq!(is_first_state_better((3, WIN), (5, WIN)), true);
    assert_eq!(is_first_state_better((5, WIN), (3, WIN)), true);
}

#[test]
fn the_lower_count_goes_first() {
    assert_eq!(is_first_state_better((3, 0), (3, 1)), true);
    assert_eq!(is_first_state_better((3, 1), (3, 0)), false);
    assert_eq!(is_first_state_better((2, 1), (9, 2)), true);
    assert_eq!(is_first_state_better((9, 2), (2, 1)), false);
}

#[test]
fn with_equal_counts_fewer_moves_go_first() {
    assert_eq!(is_first_state_better((4, 1), (3, 1)), false);
    assert_eq!(is_first_state_better((3, 1), (4, 1)), true);
    assert_eq!(is_first_state_better((2, 1), (3, 1)), true);
    assert_eq!(is_first_state_better((3, 1), (3, 1)), false);
}

#[test]
fn nothing_is_found_where_nothing_was_reached() {
    let mut table: Table = HashMap::new();
    assert_eq!(find_best_move(1, &table), None);
    table.insert(1, (vec![], 2, 0));
    table.insert(2, (vec![3], 2, 0));
    assert_eq!(find_best_move(1, &table), None);
    assert_eq!(find_best_move(3, &table), Some((2, 2, 0)));
}

#[test]
fn the_won_board_is_found() {
    let mut table: Table = HashMap::new();
    table.insert(10, (vec![1], 0, 0));
    table.insert(11, (vec![7, 1], 4, 1));
    table.insert(12, (vec![1, 1], 2, WIN));
    table.insert(13, (vec![1], 4, 0));
    table.insert(14, (vec![2], 9, WIN));
    assert_eq!(find_best_move(1, &table), Some((12, 2, WIN)));
    assert_eq!(find_best_move(2, &table), Some((14, 9, WIN)));
    assert_eq!(find_best_move(7, &table), Some((11, 4, 1)));
}

#[test]
fn without_a_won_board_the_lowest_count_is_found() {
    let mut table: Table = HashMap::new();
    table.insert(10, (vec![1], 0, 0));
    table.insert(11, (vec![1], 4, 1));
    table.insert(13, (vec![1], 4, 0));
    table.insert(15, (vec![1], 3, 0));
    assert_eq!(find_best_move(1, &table), Some((15, 3, 0)));
}

#[test]
fn a_board_without_moves_is_found_only_alone() {
    let mut table: Table = HashMap::new();
    table.insert(10, (vec![1], 0, 0));
    assert_eq!(find_best_move(1, &table), Some((10, 0, 0)));
    table.insert(9, (vec![1], 0, 0));
    assert_eq!(find_best_move(1, &table), Some((9, 0, 0)));
    table.insert(11, (vec![1], 1, 1));
    assert_eq!(find_best_move(1, &table), Some((11, 1, 1)));
}

#[test]
fn the_smaller_board_breaks_a_tie() {
    let mut table: Table = HashMap::new();
    for key in [40u64, 20, 30, 50, 25] {
        table.insert(key, (vec![1], 3, WIN));
    }
    table.insert(5, (vec![1], 3, 0));
    table.insert(7, (vec![2], 3, WIN));
    assert_eq!(find_best_move(1, &table), Some((20, 3, WIN)));
    let mut even: Table = HashMap::new();
    for key in [40u64, 20, 30, 50, 25] {
        even.insert(key, (vec![1], 6, 2));
    }
    assert_eq!(find_best_move(1, &even), Some((20, 6, 2)));
}
