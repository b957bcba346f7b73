use gobblet_solver::canonical::rotate_board;
use gobblet_solver::codec::{
    get_board_square, set_board_player, set_board_square, Board, BLUE, EMPTY, LARGE, MEDIUM,
    ORANGE, SMALL,
};
use gobblet_solver::rules::{
    can_play_at, get_board_remaining, get_color, get_figure_size, get_square_figure,
    get_top_figure,
};

fn get_default_board() -> Board {
    let mut board = 0;
    board = set_board_square(board, 2, SMALL * ORANGE + LARGE * BLUE);
    board = set_board_square(board, 6, SMALL * BLUE + LARGE * ORANGE);
    board = set_board_square(board, 0, MEDIUM * ORANGE + LARGE * BLUE);
    board = set_board_square(board, 1, SMALL * BLUE + LARGE * ORANGE);
    board = set_board_player(board, ORANGE);

    board
}

#[test]
fn test_get_board_square() {
    let board = get_default_board();
    assert_eq!(get_board_square(board, 0), MEDIUM * ORANGE + LARGE * BLUE);
    assert_eq!(get_board_square(board, 3), EMPTY);
    assert_eq!(get_board_square(board, 6), SMALL * BLUE + LARGE * ORANGE);
}

#[test]
fn test_set_board_square() {
    let mut board = 0;
    board = set_board_square(board, 2, SMALL * ORANGE + LARGE * BLUE);
    board = set_board_square(board, 2, MEDIUM * BLUE);
    assert_eq!(get_board_square(board, 2), MEDIUM * BLUE);
}

#[test]
fn test_get_board_remaining() {
    let board = get_default_board();
    assert_eq!(get_board_remaining(board), vec![SMALL, MEDIUM]);

    let board = set_board_square(board, 3, SMALL * ORANGE);
    assert_eq!(get_board_remaining(board), vec![MEDIUM]);

    let board = set_board_square(board, 8, SMALL * ORANGE + MEDIUM * ORANGE);
    assert_eq!(get_board_remaining(board), vec![]);

    let board = set_board_player(0, ORANGE);
    assert_eq!(get_board_remaining(board), vec![SMALL, MEDIUM, LARGE]);
}

#[test]
fn test_get_figure_size() {
    assert_eq!(get_figure_size(SMALL * ORANGE), SMALL);
    assert_eq!(get_figure_size(SMALL * BLUE), SMALL);
    assert_eq!(get_figure_size(LARGE * BLUE), LARGE);
}

#[test]
fn test_get_color() {
    assert_eq!(get_color(SMALL * ORANGE + MEDIUM * BLUE, SMALL), ORANGE);
    assert_eq!(get_color(SMALL * ORANGE + MEDIUM * BLUE, MEDIUM), BLUE);
    assert_eq!(get_color(SMALL * ORANGE + MEDIUM * BLUE, LARGE), EMPTY);
    assert_eq!(get_color(EMPTY, SMALL), EMPTY);
    assert_eq!(get_color(EMPTY, LARGE), EMPTY);
    assert_eq!(get_color(LARGE * ORANGE, SMALL), EMPTY);
    assert_eq!(get_color(LARGE * ORANGE, LARGE), ORANGE);
}

#[test]
fn test_can_play_at() {
    assert_eq!(can_play_at(SMALL * ORANGE + MEDIUM * BLUE, SMALL), false);
    assert_eq!(can_play_at(SMALL * ORANGE + MEDIUM * BLUE, MEDIUM), false);
    assert_eq!(can_play_at(SMALL * ORANGE + MEDIUM * BLUE, LARGE), true);
    assert_eq!(can_play_at(EMPTY, SMALL), true);
    assert_eq!(can_play_at(EMPTY, LARGE), true);
    assert_eq!(can_play_at(LARGE * ORANGE, SMALL), true);
    assert_eq!(can_play_at(LARGE * ORANGE, LARGE), false);
}

#[test]
fn test_get_square_figure() {
    assert_eq!(get_square_figure(SMALL * ORANGE + MEDIUM * BLUE, SMALL), SMALL * ORANGE);
    assert_eq!(get_square_figure(SMALL * ORANGE + MEDIUM * BLUE, MEDIUM), MEDIUM * BLUE);
    assert_eq!(get_square_figure(SMALL * ORANGE + MEDIUM * BLUE, LARGE), EMPTY);
    assert_eq!(get_square_figure(EMPTY, SMALL), EMPTY);
    assert_eq!(get_square_figure(EMPTY, LARGE), EMPTY);
    assert_eq!(get_square_figure(LARGE * ORANGE, SMALL), EMPTY);
    assert_eq!(get_square_figure(LARGE * ORANGE, LARGE), LARGE * ORANGE);
}

#[test]
fn test_get_top_figure() {
    assert_eq!(get_top_figure(SMALL * ORANGE + MEDIUM * BLUE), MEDIUM * BLUE);
    assert_eq!(get_top_figure(EMPTY), EMPTY);
    assert_eq!(get_top_figure(LARGE * ORANGE), LARGE * ORANGE);
}

#[test]
fn test_rotate_board() {
    let board = get_default_board();
    let board1 = rotate_board(board);
    let board2 = rotate_board(board1);
    let board3 = rotate_board(board2);
    let board4 = rotate_board(board3);
    assert_ne!(board, board1);
    assert_ne!(board1, board2);
    assert_ne!(board2, board3);
    assert_ne!(board3, board4);
    assert_eq!(board, board4);
}
