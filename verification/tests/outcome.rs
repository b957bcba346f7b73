use gobblet_solver::codec::Board;
use gobblet_solver::outcome::{modify_parents, propagate, WIN};
use std::collections::HashMap;

type Table = HashMap<Board, (Vec<Board>, u8, i8)>;

fn small_graph() -> Table {
    let mut table: Table = HashMap::new();
    table.insert(100, (vec![10, 11], 0, 0));
    table.insert(10, (vec![1], 3, 0));
    table.insert(11, (vec![1], 2, 0));
    table.insert(1, (vec![], 2, 0));
    table
}

#[test]
fn word_goes_back_from_a_won_board() {
    let mut table = small_graph();
    propagate(vec![10, 11], &mut table);
    assert_eq!(table[&10], (vec![1], 3, WIN));
    assert_eq!(table[&11], (vec![1], 2, WIN));
    assert_eq!(table[&1], (vec![], 2, 2));
    assert_eq!(table[&100], (vec![10, 11], 0, 0));
    assert_eq!(table.len(), 4);
}

#[test]
fn waves_take_turns() {
    let mut table = small_graph();
    let next = modify_parents(vec![10, 11], true, &mut table);
    assert_eq!(next, vec![1, 1]);
    assert_eq!(table[&10].2, WIN);
    assert_eq!(table[&11].2, WIN);
    assert_eq!(table[&1].2, 0);
    let next = modify_parents(next, false, &mut table);
    assert_eq!(next, Vec::<Board>::new());
    assert_eq!(table[&1], (vec![], 2, 2));
}

#[test]
fn a_lost_board_makes_its_parents_win() {
    let mut table: Table = HashMap::new();
    table.insert(100, (vec![10], 0, 0));
    table.insert(10, (vec![1], 1, 0));
    table.insert(1, (vec![2, 3], 1, 0));
    table.insert(2, (vec![], 5, 0));
    table.insert(3, (vec![], 1, 0));
    propagate(vec![10], &mut table);
    assert_eq!(table[&10].2, WIN);
    assert_eq!(table[&1].2, 1);
    assert_eq!(table[&2].2, WIN);
    assert_eq!(table[&3].2, WIN);
}

#[test]
fn a_won_board_is_left_alone() {
    let mut table: Table = HashMap::new();
    table.insert(5, (vec![6, 7], 4, WIN));
    table.insert(6, (vec![], 1, 0));
    table.insert(7, (vec![], 1, 0));
    assert_eq!(modify_parents(vec![5, 5], true, &mut table), Vec::<Board>::new());
    assert_eq!(modify_parents(vec![5], false, &mut table), Vec::<Board>::new());
    assert_eq!(table[&5], (vec![6, 7], 4, WIN));
    assert_eq!(table[&6].2, 0);
}

#[test]
fn a_losing_wave_counts_each_mention() {
    let mut table: Table = HashMap::new();
    table.insert(5, (vec![6, 7], 3, 0));
    table.insert(8, (vec![9], 9, 4));
    table.insert(6, (vec![], 1, 0));
    table.insert(7, (vec![], 1, 0));
    table.insert(9, (vec![], 1, 0));
    assert_eq!(modify_parents(vec![5, 8, 5], false, &mut table), Vec::<Board>::new());
    assert_eq!(table[&5], (vec![6, 7], 3, 2));
    assert_eq!(table[&8], (vec![9], 9, 5));
    assert_eq!(modify_parents(vec![8, 5], false, &mut table), vec![6, 7]);
    assert_eq!(table[&5], (vec![6, 7], 3, 3));
    assert_eq!(table[&8], (vec![9], 9, 6));
}

#[test]
fn a_winning_wave_hands_parents_on_once_and_in_order() {
    let mut table: Table = HashMap::new();
    table.insert(5, (vec![6, 7], 3, 1));
    table.insert(8, (vec![7], 9, 0));
    table.insert(6, (vec![], 1, 0));
    table.insert(7, (vec![], 1, 0));
    assert_eq!(modify_parents(vec![8, 5, 8, 5], true, &mut table), vec![7, 6, 7]);
    assert_eq!(table[&5], (vec![6, 7], 3, WIN));
    assert_eq!(table[&8], (vec![7], 9, WIN));
}

#[test]
fn an_empty_wave_changes_nothing() {
    let mut table = small_graph();
    assert_eq!(modify_parents(vec![], true, &mut table), Vec::<Board>::new());
    propagate(vec![], &mut table);
    assert_eq!(table, small_graph());
}
