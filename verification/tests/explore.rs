use gobblet_solver::codec::{encode_board, get_board_player, Board, BLUE, ORANGE};
use gobblet_solver::explore::{explore, get_initial_board, visit_next, Visit};
use gobblet_solver::moves::{add_moved_items, add_new_items};
use gobblet_solver::outcome::WIN;
use gobblet_solver::rules::get_winner;
use gobblet_solver::select::find_best_move;
use std::collections::{HashMap, VecDeque};

/// Orange and blue each need one more cell for a line, and orange is to move.
fn race() -> Board {
    encode_board(ORANGE, &[0, 0, 32, 32, 0, 16, 16, 0, 0])
}

#[test]
fn the_search_starts_from_a_fixed_board() {
    let board = get_initial_board();
    assert_eq!(board, 18181807895872528);
    assert_eq!(get_board_player(board), ORANGE);
    assert_eq!(get_winner(board), 0);
}

#[test]
fn an_empty_queue_is_left_alone() {
    let mut table: HashMap<Board, (Vec<Board>, u8, i8)> = HashMap::new();
    let mut queue: VecDeque<(Board, Option<Board>)> = VecDeque::new();
    assert_eq!(visit_next(&mut table, &mut queue), None);
    assert!(table.is_empty());
    assert!(queue.is_empty());
}

#[test]
fn no_visit_leaves_the_start_waiting() {
    let found = explore(race(), 0);
    assert!(found.visited.is_empty());
    assert_eq!(found.to_visit, VecDeque::from(vec![(race(), None)]));
    assert_eq!(found.winners, 0);
    assert_eq!(found.same, 0);
    assert_eq!(found.done, false);
}

#[test]
fn the_first_visit_expands_the_start() {
    assert_eq!(race(), 18015515209498624);
    let found = explore(race(), 1);
    assert_eq!(found.visited.len(), 1);
    assert_eq!(found.visited[&race()], (vec![], 28, 0));
    assert_eq!(found.to_visit.len(), 28);
    for entry in &found.to_visit {
        assert_eq!(entry.1, Some(race()));
        assert_eq!(get_board_player(entry.0), BLUE);
    }
    assert_eq!(find_best_move(race(), &found.visited), None);
}

#[test]
fn visits_are_told_apart() {
    let mut table: HashMap<Board, (Vec<Board>, u8, i8)> = HashMap::new();
    let mut queue: VecDeque<(Board, Option<Board>)> = VecDeque::new();
    queue.push_back((race(), None));
    assert_eq!(visit_next(&mut table, &mut queue), Some(Visit::Expanded));
    let won: Board = 36034311765491712;
    assert_eq!(get_winner(won), ORANGE);
    let mut kinds = Vec::new();
    for _ in 0..28 {
        let next = queue[0];
        kinds.push((next.0, visit_next(&mut table, &mut queue)));
    }
    for (board, kind) in kinds {
        if get_winner(board) != 0 {
            assert_eq!(kind, Some(Visit::Decided));
            assert_eq!(table[&board], (vec![race()], 0, 0));
        } else {
            assert_eq!(kind, Some(Visit::Expanded));
        }
    }
    assert_eq!(table[&won], (vec![race()], 0, 0));
    assert_eq!(table[&race()], (vec![], 28, WIN));
    assert_eq!(table.len(), 29);
    assert_eq!(queue.len(), 712);
}

#[test]
fn a_board_met_again_keeps_both_parents() {
    let mut table: HashMap<Board, (Vec<Board>, u8, i8)> = HashMap::new();
    let mut queue: VecDeque<(Board, Option<Board>)> = VecDeque::new();
    table.insert(1 << 54, (vec![], 27, 0));
    table.insert(race(), (vec![1 << 54], 28, 0));
    queue.push_back((race(), Some(1 << 54)));
    queue.push_back((race(), None));
    assert_eq!(visit_next(&mut table, &mut queue), Some(Visit::Known));
    assert_eq!(table[&race()], (vec![1 << 54, 1 << 54], 28, 0));
    assert_eq!(visit_next(&mut table, &mut queue), Some(Visit::Known));
    assert_eq!(table[&race()], (vec![1 << 54, 1 << 54], 28, 0));
    assert_eq!(visit_next(&mut table, &mut queue), None);
}

#[test]
fn the_search_stops_at_its_limit() {
    let found = explore(race(), 421);
    assert_eq!(found.visited.len(), 421);
    assert_eq!(found.to_visit.len(), 11339);
    assert_eq!(found.winners, 29);
    assert_eq!(found.same, 0);
    assert_eq!(found.done, false);
    assert_eq!(found.visited[&race()], (vec![], 28, WIN));
}

#[test]
fn the_best_move_of_a_won_race_is_classified_won() {
    let found = explore(race(), 421);
    let best = find_best_move(race(), &found.visited);
    assert_eq!(best, Some((36029913718980609, 27, WIN)));
    let (board, children, outcome) = best.unwrap();
    assert_eq!(outcome, WIN);
    assert!(found.visited[&board].0.contains(&race()));
    assert_eq!(found.visited[&board].1, children);
}

#[test]
fn a_longer_search_keeps_what_was_won() {
    let found = explore(race(), 3000);
    assert_eq!(found.visited.len(), 2752);
    assert_eq!(found.to_visit.len(), 65836);
    assert_eq!(found.winners, 315);
    assert_eq!(found.same, 248);
    assert_eq!(found.visited[&race()], (vec![], 28, WIN));
    assert_eq!(find_best_move(race(), &found.visited), Some((36028814207352848, 28, WIN)));
}

#[test]
fn the_search_from_the_fixed_board() {
    let start = get_initial_board();
    let found = explore(start, 1000);
    assert_eq!(found.visited.len(), 1000);
    assert_eq!(found.to_visit.len(), 16208);
    assert_eq!(found.winners, 134);
    assert_eq!(found.same, 0);
    assert_eq!(found.visited[&start], (vec![], 22, 20));
    assert_eq!(find_best_move(start, &found.visited), Some((36064600407411092, 27, WIN)));
}

#[test]
fn counts_stay_within_the_number_of_moves() {
    let found = explore(race(), 3000);
    for (_, record) in &found.visited {
        assert!(record.2 == WIN || (0 <= record.2 && record.2 as i16 <= record.1 as i16));
        assert!(record.1 <= 99);
        for parent in &record.0 {
            assert!(found.visited.contains_key(parent));
        }
    }
}

#[test]
fn every_won_board_has_a_move_to_a_lost_one() {
    let found = explore(race(), 3000);
    let mut won = 0;
    for (board, record) in &found.visited {
        if record.2 == WIN {
            won += 1;
            assert_eq!(get_winner(*board), 0);
            assert!(found.visited.values().any(|child| {
                child.2 != WIN && child.2 as i16 == child.1 as i16 && child.0.contains(board)
            }));
        }
        if get_winner(*board) != 0 {
            assert_eq!((record.1, record.2), (0, 0));
            assert_ne!(get_winner(*board), get_board_player(*board));
        }
    }
    assert!(won > 0);
}

#[test]
fn every_parent_moved_to_its_child() {
    let found = explore(race(), 500);
    for (board, record) in &found.visited {
        for parent in &record.0 {
            let mut queue: VecDeque<(Board, Option<Board>)> = VecDeque::new();
            let playing = get_board_player(*parent);
            let opponent = if playing == ORANGE { BLUE } else { ORANGE };
            add_new_items(*parent, playing, opponent, &mut queue);
            add_moved_items(*parent, playing, opponent, &mut queue);
            assert!(queue.contains(&(*board, Some(*parent))));
            assert_eq!(found.visited[parent].1 as usize, queue.len());
        }
    }
}

#[test]
fn a_search_from_a_won_board_is_done_at_once() {
    let won = encode_board(BLUE, &[0, 1, 1, 1, 0, 0, 0, 0, 0]);
    assert_eq!(get_winner(won), ORANGE);
    let found = explore(won, 1);
    assert_eq!(found.visited[&won], (vec![], 0, 0));
    assert!(found.to_visit.is_empty());
    assert_eq!(found.winners, 1);
    assert_eq!(found.done, false);
    let found = explore(won, 2);
    assert_eq!(found.visited.len(), 1);
    assert_eq!(found.winners, 1);
    assert_eq!(found.same, 0);
    assert_eq!(found.done, true);
}
