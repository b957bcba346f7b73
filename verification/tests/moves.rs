use gobblet_solver::codec::{
    encode_board, get_board_player, set_board_player, Board, BLUE, ORANGE,
};
use gobblet_solver::moves::{add_moved_items, add_new_items};
use gobblet_solver::rules::get_winner;
use std::collections::VecDeque;

#[test]
fn an_empty_board_takes_every_figure_everywhere() {
    let board = set_board_player(0, ORANGE);
    let mut queue: VecDeque<(Board, Option<Board>)> = VecDeque::new();
    assert_eq!(add_new_items(board, ORANGE, BLUE, &mut queue), 27);
    assert_eq!(queue.len(), 27);
    assert_eq!(add_moved_items(board, ORANGE, BLUE, &mut queue), 0);
    assert_eq!(queue.len(), 27);
    let boards: Vec<Board> = queue.iter().map(|entry| entry.0).collect();
    assert_eq!(
        boards[..9].to_vec(),
        vec![
            36028797018963969,
            36028797018964032,
            36028797018968064,
            36028797018964032,
            36028797018968064,
            36028797018964032,
            36028797018968064,
            36028797018964032,
            36028797018968064,
        ]
    );
    for entry in queue {
        assert_eq!(entry.1, Some(board));
        assert_eq!(get_board_player(entry.0), BLUE);
    }
}

#[test]
fn new_entries_go_behind_the_waiting_ones() {
    let board = set_board_player(0, BLUE);
    let mut queue: VecDeque<(Board, Option<Board>)> = VecDeque::new();
    queue.push_back((7, None));
    assert_eq!(add_new_items(board, BLUE, ORANGE, &mut queue), 27);
    assert_eq!(queue.len(), 28);
    assert_eq!(queue[0], (7, None));
    assert_eq!(queue[1], ((1 << 54) | 2, Some(board)));
}

#[test]
fn spent_sizes_are_not_brought_in() {
    let board = encode_board(ORANGE, &[0, 16, 16, 0, 0, 0, 32, 32, 0]);
    let mut queue: VecDeque<(Board, Option<Board>)> = VecDeque::new();
    assert_eq!(add_new_items(board, ORANGE, BLUE, &mut queue), 18);
    assert_eq!(add_moved_items(board, ORANGE, BLUE, &mut queue), 10);
    assert_eq!(queue.len(), 28);
}

#[test]
fn a_figure_goes_under_a_larger_one() {
    let board = encode_board(ORANGE, &[32, 0, 0, 0, 0, 0, 0, 0, 0]);
    let mut queue: VecDeque<(Board, Option<Board>)> = VecDeque::new();
    assert_eq!(add_new_items(board, ORANGE, BLUE, &mut queue), 26);
    assert_eq!(queue[0], (36028797018964001, Some(board)));
    assert_eq!(queue[0].0, encode_board(BLUE, &[33, 0, 0, 0, 0, 0, 0, 0, 0]));
    assert_eq!(get_winner(queue[0].0), 0);
}

#[test]
fn a_figure_that_covers_a_line_stays() {
    let board = encode_board(ORANGE, &[4, 2, 2, 18, 0, 0, 0, 0, 0]);
    assert_eq!(get_winner(board), 0);
    let mut queue: VecDeque<(Board, Option<Board>)> = VecDeque::new();
    assert_eq!(add_moved_items(board, ORANGE, BLUE, &mut queue), 8);
    let boards: Vec<Board> = queue.iter().map(|entry| entry.0).collect();
    assert_eq!(
        boards,
        vec![
            36028797023691136,
            36028797023707264,
            36028797024739456,
            36028797090799744,
            36028801318658176,
            36029071901597824,
            36028816380395776,
            36028816380411904,
        ]
    );
    let uncovering: [Board; 8] = [
        36028797019496596,
        36028797019497604,
        36028797019562116,
        36028797287932036,
        36028814199365764,
        36029896531124356,
        36028799200527364,
        36028799200591876,
    ];
    for entry in boards {
        assert!(!uncovering.contains(&entry));
        assert_ne!(get_winner(entry), BLUE);
    }
}

#[test]
fn only_the_own_top_figures_move() {
    let board = encode_board(BLUE, &[0, 16, 16, 0, 0, 0, 0, 0, 0]);
    let mut queue: VecDeque<(Board, Option<Board>)> = VecDeque::new();
    assert_eq!(add_moved_items(board, BLUE, ORANGE, &mut queue), 0);
    assert!(queue.is_empty());
}
