//! Quarter turns of the board, and the smallest of the four turned boards as the one
//! that stands for all of them.

use vstd::prelude::*;
use crate::codec::{
    Board, Color, Position, EMPTY, SQUARE_LENGTH, SQUARE_MASK, get_board_player, is_board,
    lemma_board_ext, lemma_with_player, player_of, set_board_player, square_at, with_player,
};
use crate::rules::{line_color_at, lines, lines_show_only, top_color_at};

verus! {

/// The cell whose square a quarter turn brings to cell `position`: the centre stays, the
/// ring moves on by two cells.
pub open spec fn turn_source(position: Position) -> Position {
    if position == 0 {
        0
    } else if position <= 6 {
        (position + 2) as u8
    } else {
        (position - 6) as u8
    }
}

/// The board after a quarter turn, as a rearrangement of its bits.
pub open spec fn rotated(board: Board) -> Board {
    with_player(
        ((board >> 12) & !63u64 & !(63u64 << 42)) | ((board & ((63u64 << 6) | (63u64 << 12)))
            << 36) | (board & 63),
        player_of(board),
    )
}

/// A quarter turn moves each square of a board to its new cell and leaves the player to
/// move alone.
pub proof fn lemma_rotated(board: Board, position: Position)
    by (bit_vector)
    requires
        is_board(board),
        position < 9,
    ensures
        square_at(rotated(board), position) == square_at(board, turn_source(position)),
        rotated(board) >> 54 == board >> 54,
        player_of(rotated(board)) == player_of(board),
        is_board(rotated(board)),
{
}

/// Turns the board by a quarter: the centre stays, every square of the ring moves on
/// by two cells, the player to move stays.
pub fn rotate_board(board: Board) -> (result: Board)
    ensures
        result == rotated(board),
        is_board(board) ==> is_board(result) && player_of(result) == player_of(board),
        is_board(board) ==> forall|p: Position|
            p < 9 ==> #[trigger] square_at(result, p) == square_at(board, turn_source(p)),
{
    let player = get_board_player(board);
    let zero = board & SQUARE_MASK;
    let one_two_mask = (SQUARE_MASK << SQUARE_LENGTH) | (SQUARE_MASK << (SQUARE_LENGTH * 2));
    let seven_mask = SQUARE_MASK << (SQUARE_LENGTH * 7);
    let one_two = (board & one_two_mask) << (SQUARE_LENGTH * 6);
    let shifted_board = board >> (SQUARE_LENGTH * 2) & !SQUARE_MASK & !seven_mask;
    let result = set_board_player(shifted_board | one_two | zero, player);
    proof {
        if is_board(board) {
            assert forall|p: Position| p < 9 implies #[trigger] square_at(rotated(board), p)
                == square_at(board, turn_source(p)) by {
                lemma_rotated(board, p);
            }
            lemma_rotated(board, 0);
        }
    }
    result
}

/// The smaller of two boards, the first where they are equal.
pub open spec fn lesser(a: Board, b: Board) -> Board {
    if b < a {
        b
    } else {
        a
    }
}

/// The smallest of the four boards that quarter turns make of a board.
pub open spec fn canonical(board: Board) -> Board {
    lesser(
        lesser(lesser(board, rotated(board)), rotated(rotated(board))),
        rotated(rotated(rotated(board))),
    )
}

/// Whether quarter turns make `other` of `board`.
pub open spec fn is_turn_of(other: Board, board: Board) -> bool {
    ||| other == board
    ||| other == rotated(board)
    ||| other == rotated(rotated(board))
    ||| other == rotated(rotated(rotated(board)))
}

/// The board after `n` quarter turns.
pub open spec fn turned(board: Board, n: nat) -> Board
    decreases n,
{
    if n == 0 {
        board
    } else {
        rotated(turned(board, (n - 1) as nat))
    }
}

/// The smallest of the boards that up to `n` quarter turns make of a board.
pub open spec fn least_turn(board: Board, n: nat) -> Board
    decreases n,
{
    if n == 0 {
        board
    } else {
        lesser(least_turn(board, (n - 1) as nat), turned(board, n))
    }
}

/// The smallest of the four boards that quarter turns make of a board.
pub fn normalize_board(board: Board) -> (result: Board)
    ensures
        result == canonical(board),
        is_turn_of(result, board),
        result <= board,
        result <= rotated(board),
        result <= rotated(rotated(board)),
        result <= rotated(rotated(rotated(board))),
        is_board(board) ==> is_board(result) && player_of(result) == player_of(board)
            && canonical(result) == result,
{
    let mut min_board = board;
    let mut rotated_board = board;
    for i in 0..3
        invariant
            rotated_board == turned(board, i as nat),
            min_board == least_turn(board, i as nat),
    {
        rotated_board = rotate_board(rotated_board);
        if rotated_board < min_board {
            min_board = rotated_board;
        }
    }
    proof {
        reveal_with_fuel(turned, 4);
        reveal_with_fuel(least_turn, 4);
        if is_board(board) {
            lemma_canonical_idempotent(board);
        }
    }
    min_board
}

/// Four quarter turns bring a board back to itself.
pub proof fn lemma_four_turns(board: Board)
    requires
        is_board(board),
    ensures
        rotated(rotated(rotated(rotated(board)))) == board,
{
    let b1 = rotated(board);
    let b2 = rotated(b1);
    let b3 = rotated(b2);
    let b4 = rotated(b3);
    lemma_rotated(board, 0);
    lemma_rotated(b1, 0);
    lemma_rotated(b2, 0);
    lemma_rotated(b3, 0);
    assert forall|p: Position| p < 9 implies #[trigger] square_at(b4, p) == square_at(
        board,
        p,
    ) by {
        let once = turn_source(p);
        let twice = turn_source(once);
        let thrice = turn_source(twice);
        lemma_rotated(b3, p);
        lemma_rotated(b2, once);
        lemma_rotated(b1, twice);
        lemma_rotated(board, thrice);
    }
    assert(square_at(b4, 0) == square_at(board, 0));
    assert(square_at(b4, 1) == square_at(board, 1));
    assert(square_at(b4, 2) == square_at(board, 2));
    assert(square_at(b4, 3) == square_at(board, 3));
    assert(square_at(b4, 4) == square_at(board, 4));
    assert(square_at(b4, 5) == square_at(board, 5));
    assert(square_at(b4, 6) == square_at(board, 6));
    assert(square_at(b4, 7) == square_at(board, 7));
    assert(square_at(b4, 8) == square_at(board, 8));
    lemma_board_ext(b4, board);
}

/// On a board that a half turn changes, no one, two or three quarter turns give the
/// board itself.
pub proof fn lemma_fewer_turns_differ(board: Board)
    requires
        is_board(board),
        rotated(rotated(board)) != board,
    ensures
        rotated(board) != board,
        rotated(rotated(board)) != board,
        rotated(rotated(rotated(board))) != board,
{
    lemma_four_turns(board);
}

/// Every quarter turn of a board is a board with the same player to move.
pub proof fn lemma_turn_is_board(other: Board, board: Board)
    requires
        is_board(board),
        is_turn_of(other, board),
    ensures
        is_board(other),
        player_of(other) == player_of(board),
        is_turn_of(board, other),
{
    let b1 = rotated(board);
    let b2 = rotated(b1);
    let b3 = rotated(b2);
    lemma_rotated(board, 0);
    lemma_rotated(b1, 0);
    lemma_rotated(b2, 0);
    lemma_four_turns(board);
    lemma_four_turns(b1);
    lemma_four_turns(b2);
    lemma_four_turns(b3);
}

/// A board and its quarter turn have the same smallest turned board.
pub proof fn lemma_canonical_of_rotated(board: Board)
    requires
        is_board(board),
    ensures
        canonical(rotated(board)) == canonical(board),
{
    lemma_four_turns(board);
}

/// All the boards that quarter turns make of a board have the same smallest turned
/// board.
pub proof fn lemma_canonical_of_turn(other: Board, board: Board)
    requires
        is_board(board),
        is_turn_of(other, board),
    ensures
        canonical(other) == canonical(board),
{
    let b1 = rotated(board);
    let b2 = rotated(b1);
    lemma_rotated(board, 0);
    lemma_rotated(b1, 0);
    lemma_canonical_of_rotated(board);
    lemma_canonical_of_rotated(b1);
    lemma_canonical_of_rotated(b2);
}

/// The smallest turned board of a board is its own smallest turned board.
pub proof fn lemma_canonical_idempotent(board: Board)
    requires
        is_board(board),
    ensures
        canonical(canonical(board)) == canonical(board),
        is_turn_of(canonical(board), board),
        is_board(canonical(board)),
        player_of(canonical(board)) == player_of(board),
{
    let least = canonical(board);
    lemma_turn_is_board(least, board);
    lemma_canonical_of_turn(least, board);
}

/// The line that a quarter turn brings onto line `i`.
pub open spec fn line_source(i: int) -> int {
    if i < 3 {
        5 - i
    } else if i < 6 {
        i - 3
    } else {
        13 - i
    }
}

/// A quarter turn carries the lines onto one another, so it keeps the colours that fill
/// them.
pub proof fn lemma_rotated_lines(board: Board, color: Color)
    requires
        is_board(board),
        lines_show_only(board, color),
    ensures
        lines_show_only(rotated(board), color),
{
    let turned = rotated(board);
    assert forall|p: Position| p < 9 implies #[trigger] top_color_at(turned, p) == top_color_at(
        board,
        turn_source(p),
    ) by {
        lemma_rotated(board, p);
    }
    assert forall|i: int| 0 <= i < 8 implies #[trigger] line_color_at(turned, i) == EMPTY
        || line_color_at(turned, i) == color by {
        let j = line_source(i);
        let a = lines()[i][0];
        let b = lines()[i][1];
        let c = lines()[i][2];
        assert(a < 9 && b < 9 && c < 9);
        assert(top_color_at(turned, a) == top_color_at(board, turn_source(a)));
        assert(top_color_at(turned, b) == top_color_at(board, turn_source(b)));
        assert(top_color_at(turned, c) == top_color_at(board, turn_source(c)));
        assert(line_color_at(board, j) == EMPTY || line_color_at(board, j) == color);
        assert(line_color_at(turned, i) == line_color_at(board, j));
    }
}

/// Every quarter turn of a board keeps the colours that fill lines.
pub proof fn lemma_turn_lines(other: Board, board: Board, color: Color)
    requires
        is_board(board),
        is_turn_of(other, board),
        lines_show_only(board, color),
    ensures
        lines_show_only(other, color),
{
    let b1 = rotated(board);
    let b2 = rotated(b1);
    lemma_rotated(board, 0);
    lemma_rotated(b1, 0);
    lemma_rotated_lines(board, color);
    lemma_rotated_lines(b1, color);
    lemma_rotated_lines(b2, color);
}

/// Writing the player to move keeps the colours that fill lines.
pub proof fn lemma_with_player_lines(board: Board, player: Color, color: Color)
    requires
        lines_show_only(board, color),
    ensures
        lines_show_only(with_player(board, player), color),
{
    let other = with_player(board, player);
    assert forall|i: int| 0 <= i < 8 implies #[trigger] line_color_at(other, i) == EMPTY
        || line_color_at(other, i) == color by {
        let a = lines()[i][0];
        let b = lines()[i][1];
        let c = lines()[i][2];
        assert(a < 9 && b < 9 && c < 9);
        lemma_with_player(board, player, a);
        lemma_with_player(board, player, b);
        lemma_with_player(board, player, c);
        assert(line_color_at(other, i) == line_color_at(board, i));
    }
}

/// A quarter turn and the writing of the player to move can change places.
proof fn lemma_rotated_with_player(board: Board, player: Color)
    by (bit_vector)
    requires
        is_board(board),
        player < 4,
    ensures
        rotated(with_player(board, player)) == with_player(rotated(board), player),
{
}

/// Writing the player to move keeps the order of boards that agree above the squares.
proof fn lemma_with_player_order(a: Board, b: Board, player: Color)
    by (bit_vector)
    requires
        a >> 54 == b >> 54,
        a <= b,
    ensures
        with_player(a, player) <= with_player(b, player),
{
}

/// The smallest turned board stays the smallest of its turns when the player to move
/// is written anew.
pub proof fn lemma_canonical_with_player(board: Board, player: Color)
    requires
        is_board(board),
        player < 4,
    ensures
        canonical(with_player(canonical(board), player)) == with_player(canonical(board), player),
{
    let least = canonical(board);
    lemma_canonical_idempotent(board);
    let l1 = rotated(least);
    let l2 = rotated(l1);
    let l3 = rotated(l2);
    lemma_rotated(least, 0);
    lemma_rotated(l1, 0);
    lemma_rotated(l2, 0);
    lemma_rotated_with_player(least, player);
    lemma_rotated_with_player(l1, player);
    lemma_rotated_with_player(l2, player);
    lemma_with_player_order(least, l1, player);
    lemma_with_player_order(least, l2, player);
    lemma_with_player_order(least, l3, player);
}

} // verus!
