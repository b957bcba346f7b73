use gobblet_solver::codec::{
    encode_board, set_board_player, set_board_square, BLUE, EMPTY, LARGE, MEDIUM, ORANGE, SMALL,
};
use gobblet_solver::rules::{
    can_play_at, get_board_remaining, get_color, get_figure_size, get_opponent, get_size_shift,
    get_top_color, get_winner, is_triple,
};

#[test]
fn sizes_have_their_shifts() {
    assert_eq!(get_size_shift(SMALL), 0);
    assert_eq!(get_size_shift(MEDIUM), 2);
    assert_eq!(get_size_shift(LARGE), 4);
}

#[test]
fn figures_have_their_sizes() {
    assert_eq!(get_figure_size(MEDIUM * ORANGE), MEDIUM);
    assert_eq!(get_figure_size(MEDIUM * BLUE), MEDIUM);
    assert_eq!(get_figure_size(LARGE * ORANGE), LARGE);
}

#[test]
fn players_face_each_other() {
    assert_eq!(get_opponent(ORANGE), BLUE);
    assert_eq!(get_opponent(BLUE), ORANGE);
}

#[test]
fn the_largest_figure_gives_the_top_colour() {
    let board = encode_board(ORANGE, &[36, 34, 33, 0, 1, 8, 18, 9, 2]);
    assert_eq!(get_top_color(board, 0), BLUE);
    assert_eq!(get_top_color(board, 1), BLUE);
    assert_eq!(get_top_color(board, 2), BLUE);
    assert_eq!(get_top_color(board, 3), EMPTY);
    assert_eq!(get_top_color(board, 4), ORANGE);
    assert_eq!(get_top_color(board, 5), BLUE);
    assert_eq!(get_top_color(board, 6), ORANGE);
    assert_eq!(get_top_color(board, 7), BLUE);
    assert_eq!(get_top_color(board, 8), BLUE);
}

#[test]
fn a_taken_slot_blocks_whatever_its_colour() {
    for size in [SMALL, MEDIUM, LARGE] {
        for color in [ORANGE, BLUE] {
            assert_eq!(can_play_at(size * color, size), false);
            assert_eq!(get_color(size * color, size), color);
        }
        assert_eq!(can_play_at(EMPTY, size), true);
    }
}

#[test]
fn only_the_slot_of_the_size_blocks() {
    assert_eq!(can_play_at(LARGE * ORANGE, SMALL), true);
    assert_eq!(can_play_at(LARGE * ORANGE, MEDIUM), true);
    assert_eq!(can_play_at(LARGE * BLUE, MEDIUM), true);
    assert_eq!(can_play_at(MEDIUM * BLUE, SMALL), true);
    assert_eq!(can_play_at(MEDIUM * BLUE, LARGE), true);
    assert_eq!(can_play_at(SMALL * ORANGE, MEDIUM), true);
    assert_eq!(can_play_at(SMALL * ORANGE + MEDIUM * BLUE, LARGE), true);
    assert_eq!(can_play_at(SMALL * ORANGE + LARGE * BLUE, MEDIUM), true);
    assert_eq!(can_play_at(SMALL * ORANGE + LARGE * BLUE, SMALL), false);
    assert_eq!(can_play_at(SMALL * ORANGE + LARGE * BLUE, LARGE), false);
}

#[test]
fn a_free_slot_is_told_by_its_colour() {
    for square in 0..64u8 {
        for size in [SMALL, MEDIUM, LARGE] {
            assert_eq!(can_play_at(square, size), get_color(square, size) == EMPTY);
        }
    }
}

#[test]
fn an_empty_board_leaves_every_size_to_either_player() {
    assert_eq!(get_board_remaining(set_board_player(0, ORANGE)), vec![SMALL, MEDIUM, LARGE]);
    assert_eq!(get_board_remaining(set_board_player(0, BLUE)), vec![SMALL, MEDIUM, LARGE]);
}

#[test]
fn two_small_figures_on_the_board_spend_the_small_ones() {
    let mut board = set_board_player(0, BLUE);
    board = set_board_square(board, 1, SMALL * BLUE);
    assert_eq!(get_board_remaining(board), vec![SMALL, MEDIUM, LARGE]);
    board = set_board_square(board, 7, SMALL * BLUE + LARGE * ORANGE);
    assert_eq!(get_board_remaining(board), vec![MEDIUM, LARGE]);
    board = set_board_square(board, 2, SMALL * ORANGE + MEDIUM * ORANGE);
    board = set_board_square(board, 3, SMALL * ORANGE + LARGE * ORANGE);
    assert_eq!(get_board_remaining(board), vec![MEDIUM, LARGE]);
    assert_eq!(get_board_remaining(set_board_player(board, ORANGE)), vec![MEDIUM]);
}

#[test]
fn three_cells_of_one_colour_make_a_triple() {
    let board = encode_board(ORANGE, &[0, 16, 4, 1, 0, 0, 0, 2, 2]);
    assert_eq!(is_triple(board, &[1, 2, 3]), ORANGE);
    assert_eq!(is_triple(board, &[1, 8, 7]), EMPTY);
    assert_eq!(is_triple(board, &[4, 5, 6]), EMPTY);
    assert_eq!(is_triple(board, &[8, 7, 7]), BLUE);
}

#[test]
fn each_of_the_eight_lines_wins() {
    let lines: [[u8; 3]; 8] = [
        [1, 2, 3],
        [8, 0, 4],
        [7, 6, 5],
        [1, 8, 7],
        [2, 0, 6],
        [3, 4, 5],
        [1, 0, 5],
        [3, 0, 7],
    ];
    for line in lines {
        for color in [ORANGE, BLUE] {
            let mut board = set_board_player(0, ORANGE);
            for position in line {
                board = set_board_square(board, position, MEDIUM * color);
            }
            assert_eq!(get_winner(board), color);
        }
    }
}

#[test]
fn no_line_means_no_winner() {
    assert_eq!(get_winner(0), EMPTY);
    let board = encode_board(BLUE, &[0, 16, 16, 0, 16, 0, 0, 0, 0]);
    assert_eq!(get_winner(board), EMPTY);
    let corners = encode_board(BLUE, &[0, 1, 0, 1, 0, 1, 0, 1, 0]);
    assert_eq!(get_winner(corners), EMPTY);
}

#[test]
fn covered_figures_do_not_win() {
    let covered = encode_board(ORANGE, &[0, 1, 1 + 8, 1, 0, 0, 0, 0, 0]);
    assert_eq!(get_winner(covered), EMPTY);
    let open = encode_board(ORANGE, &[0, 1, 1, 1, 0, 0, 0, 0, 0]);
    assert_eq!(get_winner(open), ORANGE);
    let taken = encode_board(ORANGE, &[0, 1 + 8, 1 + 8, 1 + 32, 0, 0, 0, 0, 0]);
    assert_eq!(get_winner(taken), BLUE);
}

#[test]
fn the_first_line_in_order_is_reported() {
    let board = encode_board(ORANGE, &[0, 2, 2, 2, 0, 1, 1, 1, 0]);
    assert_eq!(get_winner(board), BLUE);
    let board = encode_board(ORANGE, &[0, 1, 1, 1, 0, 2, 2, 2, 0]);
    assert_eq!(get_winner(board), ORANGE);
}
