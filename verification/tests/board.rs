use gobblet_solver::canonical::{normalize_board, rotate_board};
use gobblet_solver::codec::{
    decode_board, encode_board, get_board_player, get_board_square, set_board_player,
    set_board_square, Board, BLUE, EMPTY, LARGE, MEDIUM, ORANGE, SMALL,
};

fn sample_board() -> Board {
    let mut board = 0;
    board = set_board_square(board, 2, SMALL * ORANGE + LARGE * BLUE);
    board = set_board_square(board, 6, SMALL * BLUE + LARGE * ORANGE);
    board = set_board_square(board, 0, MEDIUM * ORANGE + LARGE * BLUE);
    board = set_board_square(board, 1, SMALL * BLUE + LARGE * ORANGE);
    set_board_player(board, ORANGE)
}

#[test]
fn sample_board_has_its_exact_value() {
    assert_eq!(sample_board(), 18015635460199588);
}

#[test]
fn player_is_read_back() {
    assert_eq!(get_board_player(set_board_player(0, ORANGE)), ORANGE);
    assert_eq!(get_board_player(set_board_player(0, BLUE)), BLUE);
    assert_eq!(get_board_player(0), EMPTY);
    assert_eq!(set_board_player(0, ORANGE), 1 << 54);
    assert_eq!(set_board_player(set_board_player(0, BLUE), ORANGE), 1 << 54);
}

#[test]
fn writing_the_player_leaves_the_squares() {
    let board = sample_board();
    let other = set_board_player(board, BLUE);
    for position in 0..9 {
        assert_eq!(get_board_square(other, position), get_board_square(board, position));
    }
}

#[test]
fn writing_a_square_leaves_the_rest() {
    let board = sample_board();
    let other = set_board_square(board, 4, LARGE * ORANGE);
    assert_eq!(get_board_square(other, 4), LARGE * ORANGE);
    assert_eq!(get_board_player(other), ORANGE);
    for position in [0u8, 1, 2, 3, 5, 6, 7, 8] {
        assert_eq!(get_board_square(other, position), get_board_square(board, position));
    }
}

#[test]
fn every_cell_holds_six_bits() {
    for position in 0..9 {
        let board = set_board_square(0, position, 63);
        assert_eq!(board, 63u64 << (6 * position));
        assert_eq!(get_board_square(board, position), 63);
    }
}

#[test]
fn decoding_an_encoded_position_gives_it_back() {
    let squares = [16, 0, 9, 8, 4, 38, 0, 16, 32];
    let board = encode_board(ORANGE, &squares);
    assert_eq!(decode_board(board), (ORANGE, squares));
    let board = encode_board(BLUE, &[63; 9]);
    assert_eq!(board, (2u64 << 54) | ((1u64 << 54) - 1));
    assert_eq!(decode_board(board), (BLUE, [63; 9]));
}

#[test]
fn encoding_a_decoded_board_gives_it_back() {
    let board = sample_board();
    let (player, squares) = decode_board(board);
    assert_eq!(player, ORANGE);
    assert_eq!(squares, [36, 18, 33, 0, 0, 0, 18, 0, 0]);
    assert_eq!(encode_board(player, &squares), board);
}

#[test]
fn a_quarter_turn_moves_the_ring_by_two_cells() {
    let board = sample_board();
    let turned = rotate_board(board);
    assert_eq!(turned, 27382237880123428);
    let (player, squares) = decode_board(turned);
    assert_eq!(player, ORANGE);
    assert_eq!(squares, [36, 0, 0, 0, 18, 0, 0, 18, 33]);
}

#[test]
fn four_quarter_turns_give_the_board_back() {
    let board = sample_board();
    assert_eq!(rotate_board(rotate_board(rotate_board(rotate_board(board)))), board);
    let full = encode_board(BLUE, &[1, 2, 3, 4, 5, 6, 7, 8, 9]);
    assert_eq!(rotate_board(rotate_board(rotate_board(rotate_board(full)))), full);
}

#[test]
fn a_half_turned_board_can_equal_itself() {
    let board = encode_board(ORANGE, &[0, 1, 0, 0, 0, 1, 0, 0, 0]);
    assert_ne!(rotate_board(board), board);
    assert_eq!(rotate_board(rotate_board(board)), board);
}

#[test]
fn the_smallest_turn_stands_for_all_four() {
    let board = sample_board();
    let least = normalize_board(board);
    assert_eq!(least, 18015635460199588);
    let mut turned = board;
    for _ in 0..4 {
        turned = rotate_board(turned);
        assert!(least <= turned);
        assert_eq!(normalize_board(turned), least);
    }
    assert_eq!(normalize_board(least), least);
}

#[test]
fn normalizing_keeps_the_player() {
    let board = set_board_player(sample_board(), BLUE);
    assert_eq!(get_board_player(normalize_board(board)), BLUE);
    assert_eq!(get_board_player(rotate_board(board)), BLUE);
}

/// A fixed run of boards that fill all 56 bits.
fn some_boards() -> Vec<Board> {
    let mut boards = Vec::new();
    let mut seed: u64 = 0x2545_f491_4f6c_dd1d;
    for _ in 0..200 {
        seed ^= seed << 13;
        seed ^= seed >> 7;
        seed ^= seed << 17;
        boards.push(seed >> 8);
    }
    boards
}

#[test]
fn every_board_survives_decoding_and_encoding() {
    for board in some_boards() {
        let (player, squares) = decode_board(board);
        assert_eq!(encode_board(player, &squares), board);
        for position in 0..9 {
            assert_eq!(get_board_square(board, position), squares[position as usize]);
        }
        assert_eq!(get_board_player(board), player);
    }
}

#[test]
fn every_board_comes_back_after_four_turns() {
    for board in some_boards() {
        let once = rotate_board(board);
        let twice = rotate_board(once);
        let thrice = rotate_board(twice);
        assert_eq!(rotate_board(thrice), board);
        if twice != board {
            assert_ne!(once, board);
            assert_ne!(thrice, board);
        }
        let least = normalize_board(board);
        assert_eq!(least, board.min(once).min(twice).min(thrice));
        assert_eq!(normalize_board(least), least);
        assert_eq!(normalize_board(once), least);
        assert_eq!(get_board_player(least), get_board_player(board));
    }
}
