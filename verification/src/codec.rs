//! Packing of a position into one 64-bit integer.
//!
//! A board holds nine squares of six bits each, followed by the two bits of
//! the player to move. Cell 0 is the centre; cells 1 to 8 go round the ring:
//!
//! ```text
//! 1 2 3
//! 8 0 4
//! 7 6 5
//! ```

use vstd::prelude::*;

verus! {

/// Weight of a figure's size: `SMALL`, `MEDIUM` or `LARGE`.
pub type Size = u8;

/// `EMPTY`, `ORANGE` or `BLUE`.
pub type Color = u8;

/// A size weight times a colour.
pub type Figure = u8;

/// The sum of the figures that stand on one cell.
pub type Square = u8;

/// Index of a cell, 0 to 8.
pub type Position = u8;

/// A packed position.
pub type Board = u64;

/// The weight of the smallest figures: their colour takes the two lowest bits of a
/// square.
pub const SMALL: Size = 1;

/// The weight of the middle figures: their colour takes the two middle bits of a square.
pub const MEDIUM: Size = 4;

/// The weight of the largest figures: their colour takes the two highest bits of a
/// square.
pub const LARGE: Size = 16;

/// The colour of the first player.
pub const ORANGE: Color = 1;

/// The colour of the second player.
pub const BLUE: Color = 2;

/// No colour, no figure, nothing on a square.
pub const EMPTY: u8 = 0;

/// Number of bits of a square.
pub const SQUARE_LENGTH: u8 = 6;

/// The bits of the square of cell 0.
pub const SQUARE_MASK: u64 = 63;

/// The six bits that the board holds for cell `position`.
pub open spec fn square_at(board: Board, position: Position) -> Square {
    ((board >> (((position as u64) * 6) as u64)) & 63) as u8
}

/// The bits of the board above the nine squares, as a colour.
pub open spec fn player_of(board: Board) -> Color {
    (board >> 54) as u8
}

/// Whether nothing stands above the 56 bits that a position takes.
pub open spec fn is_board(board: Board) -> bool {
    board < 0x100_0000_0000_0000
}

/// The nine squares of a board, by cell.
pub open spec fn squares_of(board: Board) -> Seq<Square> {
    Seq::new(9, |p: int| square_at(board, p as u8))
}

/// The board with the six bits of cell `position` replaced by `square`.
pub open spec fn with_square(board: Board, position: Position, square: Square) -> Board {
    let shift = ((position as u64) * 6) as u64;
    (board & !(63u64 << shift)) | ((square as u64) << shift)
}

/// The board with the two bits of the player to move replaced by `color`.
pub open spec fn with_player(board: Board, color: Color) -> Board {
    (board & !(3u64 << 54)) | ((color as u64) << 54)
}

/// A square takes six bits.
pub proof fn lemma_square_fits(board: Board, position: Position)
    by (bit_vector)
    requires
        position < 9,
    ensures
        square_at(board, position) < 64,
        ((board >> (((position as u64) * 6) as u64)) & 63) < 64,
{
}

/// Reading cell `other` after cell `position` was written.
pub proof fn lemma_with_square(board: Board, position: Position, square: Square, other: Position)
    by (bit_vector)
    requires
        position < 9,
        other < 9,
        square < 64,
    ensures
        square_at(with_square(board, position, square), other) == if other == position {
            square
        } else {
            square_at(board, other)
        },
        with_square(board, position, square) >> 54 == board >> 54,
        is_board(board) ==> is_board(with_square(board, position, square)),
{
}

/// Reading a board after the player to move was written.
pub proof fn lemma_with_player(board: Board, color: Color, other: Position)
    by (bit_vector)
    requires
        other < 9,
    ensures
        square_at(with_player(board, color), other) == square_at(board, other),
        is_board(board) && color < 4 ==> player_of(with_player(board, color)) == color
            && is_board(with_player(board, color)),
{
}

/// Two boards with the same squares and the same bits above them are the same board.
pub proof fn lemma_board_ext(a: Board, b: Board)
    by (bit_vector)
    requires
        a >> 54 == b >> 54,
        square_at(a, 0) == square_at(b, 0),
        square_at(a, 1) == square_at(b, 1),
        square_at(a, 2) == square_at(b, 2),
        square_at(a, 3) == square_at(b, 3),
        square_at(a, 4) == square_at(b, 4),
        square_at(a, 5) == square_at(b, 5),
        square_at(a, 6) == square_at(b, 6),
        square_at(a, 7) == square_at(b, 7),
        square_at(a, 8) == square_at(b, 8),
    ensures
        a == b,
{
}

/// On a board the player to move decides the bits above the squares.
pub proof fn lemma_player_bits(a: Board, b: Board)
    by (bit_vector)
    requires
        is_board(a),
        is_board(b),
        player_of(a) == player_of(b),
    ensures
        a >> 54 == b >> 54,
        player_of(a) < 4,
{
}

/// Reads the square of a cell.
pub fn get_board_square(board: Board, position: Position) -> (square: Square)
    requires
        position < 9,
    ensures
        square == square_at(board, position),
        square < 64,
{
    let shift = position * SQUARE_LENGTH;
    proof {
        lemma_square_fits(board, position);
    }
    ((board >> shift) & SQUARE_MASK) as Square
}

/// Writes the square of a cell. A square of six bits leaves the other cells and the
/// player to move as they are.
pub fn set_board_square(board: Board, position: Position, square: Square) -> (result: Board)
    requires
        position < 9,
    ensures
        result == with_square(board, position, square),
        square < 64 ==> squares_of(result) == squares_of(board).update(position as int, square),
        square < 64 ==> player_of(result) == player_of(board),
        square < 64 && is_board(board) ==> is_board(result),
{
    let shift = position * SQUARE_LENGTH;
    let reset_board = board & !(SQUARE_MASK << shift);
    let board_with_item = (square as Board) << shift;
    let result = reset_board | board_with_item;
    proof {
        if square < 64 {
            assert forall|p: int| 0 <= p < 9 implies #[trigger] squares_of(result)[p]
                == squares_of(board).update(position as int, square)[p] by {
                lemma_with_square(board, position, square, p as u8);
            }
            lemma_with_square(board, position, square, 0);
        }
    }
    result
}

/// Reads the player to move.
pub fn get_board_player(board: Board) -> (color: Color)
    ensures
        color == player_of(board),
{
    #[verifier::truncate]
    ((board >> (SQUARE_LENGTH * 9)) as Color)
}

/// Writes the player to move, and leaves the squares as they are.
pub fn set_board_player(board: Board, color: Color) -> (result: Board)
    ensures
        result == with_player(board, color),
        squares_of(result) == squares_of(board),
        is_board(board) && color < 4 ==> player_of(result) == color && is_board(result),
{
    let shift = SQUARE_LENGTH * 9;
    let reset_mask = !(3u64 << shift);
    let result = (board & reset_mask) | ((color as u64) << shift);
    proof {
        assert forall|p: int| 0 <= p < 9 implies #[trigger] squares_of(result)[p] == squares_of(
            board,
        )[p] by {
            lemma_with_player(board, color, p as u8);
        }
        lemma_with_player(board, color, 0);
    }
    result
}

/// The board that holds `player` and the first `n` of the given squares, the other
/// cells empty.
pub open spec fn encoded_upto(player: Color, squares: Seq<Square>, n: nat) -> Board
    decreases n,
{
    if n == 0 {
        with_player(0, player)
    } else {
        with_square(encoded_upto(player, squares, (n - 1) as nat), (n - 1) as u8, squares[n - 1])
    }
}

/// The board that holds `player` and the nine given squares.
pub open spec fn encoded(player: Color, squares: Seq<Square>) -> Board {
    encoded_upto(player, squares, 9)
}

/// What the codec takes: a player field of two bits and nine squares of six bits.
pub open spec fn is_position(player: Color, squares: Seq<Square>) -> bool {
    &&& player < 4
    &&& squares.len() == 9
    &&& forall|p: int| 0 <= p < 9 ==> #[trigger] squares[p] < 64
}

/// The board that holds the first `n` squares holds them, and nothing in the other
/// cells.
proof fn lemma_encoded_upto(player: Color, squares: Seq<Square>, n: nat)
    requires
        is_position(player, squares),
        n <= 9,
    ensures
        is_board(encoded_upto(player, squares, n)),
        player_of(encoded_upto(player, squares, n)) == player,
        forall|p: Position|
            p < 9 ==> #[trigger] square_at(encoded_upto(player, squares, n), p) == if p < n {
                squares[p as int]
            } else {
                0
            },
    decreases n,
{
    let board = encoded_upto(player, squares, n);
    if n == 0 {
        lemma_empty_board();
        assert forall|p: Position| p < 9 implies #[trigger] square_at(board, p) == 0 by {
            lemma_with_player(0, player, p);
        }
        lemma_with_player(0, player, 0);
    } else {
        let before = encoded_upto(player, squares, (n - 1) as nat);
        lemma_encoded_upto(player, squares, (n - 1) as nat);
        assert forall|p: Position| p < 9 implies #[trigger] square_at(board, p) == if p < n {
            squares[p as int]
        } else {
            0
        } by {
            lemma_with_square(before, (n - 1) as u8, squares[n - 1], p);
        }
        lemma_with_square(before, (n - 1) as u8, squares[n - 1], 0);
        lemma_player_bits_same(before, board);
    }
}

/// Boards with the same bits above the squares have the same player to move.
proof fn lemma_player_bits_same(a: Board, b: Board)
    by (bit_vector)
    requires
        a >> 54 == b >> 54,
    ensures
        player_of(a) == player_of(b),
{
}

/// Decoding what was encoded gives the player and the squares back.
pub proof fn lemma_decode_encoded(player: Color, squares: Seq<Square>)
    requires
        is_position(player, squares),
    ensures
        is_board(encoded(player, squares)),
        player_of(encoded(player, squares)) == player,
        squares_of(encoded(player, squares)) == squares,
{
    lemma_encoded_upto(player, squares, 9);
    assert(squares_of(encoded(player, squares)) =~= squares);
}

/// Encoding what a board decodes to gives the board back.
pub proof fn lemma_encode_decoded(board: Board)
    requires
        is_board(board),
    ensures
        is_position(player_of(board), squares_of(board)),
        encoded(player_of(board), squares_of(board)) == board,
{
    let player = player_of(board);
    let squares = squares_of(board);
    lemma_player_bits(board, board);
    assert forall|p: int| 0 <= p < 9 implies #[trigger] squares[p] < 64 by {
        lemma_square_fits(board, p as u8);
    }
    lemma_encoded_upto(player, squares, 9);
    let again = encoded(player, squares);
    lemma_player_bits(again, board);
    assert(square_at(again, 0) == squares[0]);
    assert(square_at(again, 1) == squares[1]);
    assert(square_at(again, 2) == squares[2]);
    assert(square_at(again, 3) == squares[3]);
    assert(square_at(again, 4) == squares[4]);
    assert(square_at(again, 5) == squares[5]);
    assert(square_at(again, 6) == squares[6]);
    assert(square_at(again, 7) == squares[7]);
    assert(square_at(again, 8) == squares[8]);
    lemma_board_ext(again, board);
}

/// The board 0 is a board of nine empty squares.
pub proof fn lemma_empty_board()
    ensures
        is_board(0),
        player_of(0) == 0,
        forall|p: Position| p < 9 ==> #[trigger] square_at(0, p) == 0,
{
    assert forall|p: Position| p < 9 implies #[trigger] square_at(0, p) == 0 by {
        assert(square_at(0, p) == 0) by (bit_vector)
            requires
                p < 9,
        ;
    }
    assert(player_of(0) == 0) by (bit_vector);
}

/// Packs a player and nine squares into a board.
pub fn encode_board(player: Color, squares: &[Square; 9]) -> (board: Board)
    requires
        is_position(player, squares@),
    ensures
        board == encoded(player, squares@),
        is_board(board),
        player_of(board) == player,
        squares_of(board) == squares@,
{
    let mut board = set_board_player(0, player);
    for position in 0u8..9
        invariant
            board == encoded_upto(player, squares@, position as nat),
    {
        board = set_board_square(board, position, squares[position as usize]);
    }
    proof {
        lemma_decode_encoded(player, squares@);
    }
    board
}

/// Unpacks a board into its player and its nine squares.
pub fn decode_board(board: Board) -> (position: (Color, [Square; 9]))
    ensures
        position.0 == player_of(board),
        position.1@ == squares_of(board),
{
    let mut squares: [Square; 9] = [0; 9];
    for p in 0u8..9
        invariant
            forall|q: int| 0 <= q < p ==> #[trigger] squares@[q] == square_at(board, q as u8),
    {
        squares[p as usize] = get_board_square(board, p);
    }
    assert(squares@ =~= squares_of(board));
    (get_board_player(board), squares)
}

} // verus!
