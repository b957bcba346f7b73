//! Figures, squares and lines: what stands where, what may be played, who has won.

use vstd::prelude::*;
use crate::codec::{
    Board, Color, Figure, Position, Size, Square, BLUE, EMPTY, LARGE, MEDIUM, ORANGE, SMALL,
    get_board_player, get_board_square, is_board, player_of, square_at,
};

verus! {

/// Whether `size` is the weight of one of the three sizes.
pub open spec fn is_size(size: Size) -> bool {
    size == SMALL || size == MEDIUM || size == LARGE
}

/// Whether `color` is the colour of one of the two players.
pub open spec fn is_player(color: Color) -> bool {
    color == ORANGE || color == BLUE
}

/// Whether `figure` is a size weight times the colour of a player.
pub open spec fn is_figure(figure: Figure) -> bool {
    ||| figure == SMALL * ORANGE
    ||| figure == SMALL * BLUE
    ||| figure == MEDIUM * ORANGE
    ||| figure == MEDIUM * BLUE
    ||| figure == LARGE * ORANGE
    ||| figure == LARGE * BLUE
}

/// The colour that a square holds in the slot of `size`.
pub open spec fn slot_color(square: Square, size: Size) -> Color {
    ((square / size) % 4) as u8
}

/// The figure that a square holds in the slot of `size`: its colour times the size weight.
pub open spec fn slot_figure(square: Square, size: Size) -> Figure {
    (slot_color(square, size) * size) as u8
}

/// Whether a figure of `size` may be set on the square: the slot of that size is
/// empty, whatever the other slots hold.
pub open spec fn may_play(square: Square, size: Size) -> bool {
    slot_color(square, size) == EMPTY
}

/// The largest figure on the square, `EMPTY` where there is none.
pub open spec fn top_figure(square: Square) -> Figure {
    if slot_figure(square, LARGE) != EMPTY {
        slot_figure(square, LARGE)
    } else if slot_figure(square, MEDIUM) != EMPTY {
        slot_figure(square, MEDIUM)
    } else {
        slot_figure(square, SMALL)
    }
}

/// The colour of the largest figure on the square, `EMPTY` where there is none.
pub open spec fn top_color(square: Square) -> Color {
    if slot_color(square, LARGE) != EMPTY {
        slot_color(square, LARGE)
    } else if slot_color(square, MEDIUM) != EMPTY {
        slot_color(square, MEDIUM)
    } else {
        slot_color(square, SMALL)
    }
}

/// The colour seen from above on a cell of the board.
pub open spec fn top_color_at(board: Board, position: Position) -> Color {
    top_color(square_at(board, position))
}

/// The size weight of a figure.
pub open spec fn figure_size(figure: Figure) -> Size {
    if figure < MEDIUM {
        SMALL
    } else if figure < LARGE {
        MEDIUM
    } else {
        LARGE
    }
}

/// The number of the lowest bit of the slot of a size.
pub open spec fn size_shift(size: Size) -> u8 {
    if size == SMALL {
        0
    } else if size == MEDIUM {
        2
    } else {
        4
    }
}

/// The slots of a square in bits and in numbers.
proof fn lemma_slots(square: u8)
    by (bit_vector)
    ensures
        (square >> 0u8) & 3 == (square / 1) % 4,
        (square >> 2u8) & 3 == (square / 4) % 4,
        (square >> 4u8) & 3 == (square / 16) % 4,
        ((square >> 0u8) & 3) << 0u8 == ((square / 1) % 4) * 1,
        ((square >> 2u8) & 3) << 2u8 == ((square / 4) % 4) * 4,
        ((square >> 4u8) & 3) << 4u8 == ((square / 16) % 4) * 16,
{
}

/// The size of a figure.
pub fn get_figure_size(figure: Figure) -> (size: Size)
    requires
        is_figure(figure),
    ensures
        size == figure_size(figure),
        is_size(size),
        figure == size * ORANGE || figure == size * BLUE,
{
    match figure {
        1 | 2 => SMALL,
        4 | 8 => MEDIUM,
        _ => LARGE,
    }
}

/// The player that `player` plays against.
pub open spec fn other_player(player: Color) -> Color {
    if player == ORANGE {
        BLUE
    } else {
        ORANGE
    }
}

/// The opponent of a player.
pub fn get_opponent(player: Color) -> (opponent: Color)
    requires
        is_player(player),
    ensures
        opponent == other_player(player),
        is_player(opponent),
        opponent != player,
{
    if player == ORANGE {
        BLUE
    } else {
        ORANGE
    }
}

/// How far the slot of a size lies above the lowest bit of a square.
pub fn get_size_shift(size: Size) -> (shift: u8)
    requires
        is_size(size),
    ensures
        shift == size_shift(size),
{
    if size == SMALL {
        0
    } else if size == MEDIUM {
        2
    } else {
        4
    }
}

/// The colour in the slot of a size.
pub fn get_color(square: Square, size: Size) -> (color: Color)
    requires
        is_size(size),
    ensures
        color == slot_color(square, size),
        color < 4,
{
    let shift = get_size_shift(size);
    proof {
        lemma_slots(square);
    }
    (square >> shift) & 3
}

/// Whether a figure of a size may be set on a square: where no figure of that size
/// stands, whatever its colour would be and whatever else stands there.
pub fn can_play_at(square: Square, size: Size) -> (free: bool)
    requires
        is_size(size),
    ensures
        free == may_play(square, size),
        free == (slot_color(square, size) == EMPTY),
{
    let shift = get_size_shift(size);
    proof {
        lemma_slots(square);
    }
    ((square >> shift) & 3) == EMPTY
}

/// The figure in the slot of a size.
pub fn get_square_figure(square: Square, size: Size) -> (figure: Figure)
    requires
        is_size(size),
    ensures
        figure == slot_figure(square, size),
{
    let shift = get_size_shift(size);
    proof {
        lemma_slots(square);
    }
    ((square >> shift) & 3) << shift
}

/// The figure that lies on top of a square.
pub fn get_top_figure(square: Square) -> (figure: Figure)
    ensures
        figure == top_figure(square),
{
    let sizes = [LARGE, MEDIUM, SMALL];
    let mut i: usize = 0;
    while i < 3
        invariant
            i <= 3,
            sizes@ == seq![LARGE, MEDIUM, SMALL],
            forall|j: int| 0 <= j < i ==> slot_figure(square, #[trigger] sizes@[j]) == EMPTY,
        decreases 3 - i,
    {
        let figure = get_square_figure(square, sizes[i]);
        if figure != EMPTY {
            assert(i >= 1 ==> slot_figure(square, sizes@[0]) == EMPTY);
            assert(i >= 2 ==> slot_figure(square, sizes@[1]) == EMPTY);
            return figure;
        }
        i += 1;
    }
    assert(slot_figure(square, sizes@[0]) == EMPTY);
    assert(slot_figure(square, sizes@[1]) == EMPTY);
    assert(slot_figure(square, sizes@[2]) == EMPTY);
    EMPTY
}

/// The colour of the figure that lies on top of a cell.
pub fn get_top_color(board: Board, position: Position) -> (color: Color)
    requires
        position < 9,
    ensures
        color == top_color_at(board, position),
        color < 4,
{
    let square = get_board_square(board, position);
    let sizes = [LARGE, MEDIUM, SMALL];
    let mut i: usize = 0;
    while i < 3
        invariant
            i <= 3,
            sizes@ == seq![LARGE, MEDIUM, SMALL],
            square == square_at(board, position),
            forall|j: int| 0 <= j < i ==> slot_color(square, #[trigger] sizes@[j]) == EMPTY,
        decreases 3 - i,
    {
        let color = get_color(square, sizes[i]);
        if color != EMPTY {
            assert(i >= 1 ==> slot_color(square, sizes@[0]) == EMPTY);
            assert(i >= 2 ==> slot_color(square, sizes@[1]) == EMPTY);
            return color;
        }
        i += 1;
    }
    assert(slot_color(square, sizes@[0]) == EMPTY);
    assert(slot_color(square, sizes@[1]) == EMPTY);
    assert(slot_color(square, sizes@[2]) == EMPTY);
    EMPTY
}

/// Whether a square holds a colour in the slot of `size`. A slot that holds both
/// colours at once holds each of them.
pub open spec fn slot_holds(square: Square, size: Size, color: Color) -> bool {
    slot_color(square, size) == color || slot_color(square, size) == 3
}

/// Number of cells below `limit` that hold `color` in the slot of `size`.
pub open spec fn count_held(board: Board, size: Size, color: Color, limit: nat) -> nat
    decreases limit,
{
    if limit == 0 {
        0
    } else {
        count_held(board, size, color, (limit - 1) as nat) + if slot_holds(
            square_at(board, (limit - 1) as u8),
            size,
            color,
        ) {
            1nat
        } else {
            0nat
        }
    }
}

/// Whether the player to move has a figure of `size` left off the board: each player
/// owns two of each size, so fewer than two cells hold the player's colour in the slot
/// of that size.
pub open spec fn in_reserve(board: Board, size: Size) -> bool {
    count_held(board, size, player_of(board), 9) < 2
}

/// The sizes that the player to move can still bring in, smallest first.
pub open spec fn remaining_sizes(board: Board) -> Seq<Size> {
    (if in_reserve(board, SMALL) {
        seq![SMALL]
    } else {
        seq![]
    }) + (if in_reserve(board, MEDIUM) {
        seq![MEDIUM]
    } else {
        seq![]
    }) + (if in_reserve(board, LARGE) {
        seq![LARGE]
    } else {
        seq![]
    })
}

/// The sizes of which the player to move has a figure left to bring in.
pub fn get_board_remaining(board: Board) -> (remaining: Vec<Size>)
    requires
        is_player(player_of(board)),
    ensures
        remaining@ == remaining_sizes(board),
        remaining@.len() <= 3,
        forall|i: int| 0 <= i < remaining@.len() ==> is_size(#[trigger] remaining@[i]),
{
    let playing = get_board_player(board);

    let mut small: i32 = 2;
    let mut medium: i32 = 2;
    let mut large: i32 = 2;

    for position in 0u8..9
        invariant
            playing == player_of(board),
            is_player(playing),
            small == 2 - count_held(board, SMALL, playing, position as nat),
            medium == 2 - count_held(board, MEDIUM, playing, position as nat),
            large == 2 - count_held(board, LARGE, playing, position as nat),
            count_held(board, SMALL, playing, position as nat) <= position,
            count_held(board, MEDIUM, playing, position as nat) <= position,
            count_held(board, LARGE, playing, position as nat) <= position,
    {
        let item = get_board_square(board, position);
        proof {
            lemma_held_bits(item, playing);
        }
        if item & (playing * SMALL) != 0 {
            small -= 1;
        }
        if item & (playing * MEDIUM) != 0 {
            medium -= 1;
        }
        if item & (playing * LARGE) != 0 {
            large -= 1;
        }
    }

    let mut remaining = Vec::new();
    if small > 0 {
        remaining.push(SMALL);
    }
    if medium > 0 {
        remaining.push(MEDIUM);
    }
    if large > 0 {
        remaining.push(LARGE);
    }
    assert(remaining@ =~= remaining_sizes(board));
    remaining
}

/// The colour that three cells show alike, `EMPTY` where they differ or show nothing.
pub open spec fn line_color(board: Board, a: Position, b: Position, c: Position) -> Color {
    if top_color_at(board, a) == top_color_at(board, b) && top_color_at(board, b) == top_color_at(
        board,
        c,
    ) {
        top_color_at(board, a)
    } else {
        EMPTY
    }
}

/// The colour that the first three of the given cells show alike.
pub fn is_triple(board: Board, positions: &[u8]) -> (color: Color)
    requires
        positions@.len() >= 3,
        positions@[0] < 9,
        positions@[1] < 9,
        positions@[2] < 9,
    ensures
        color == line_color(board, positions@[0], positions@[1], positions@[2]),
{
    let col1 = get_top_color(board, positions[0]);
    let col2 = get_top_color(board, positions[1]);
    let col3 = get_top_color(board, positions[2]);

    if (col1 == col2) && (col2 == col3) {
        col1
    } else {
        EMPTY
    }
}

/// The eight lines of three cells, in the order in which they are tried: the rows, the
/// columns, the two diagonals.
pub open spec fn lines() -> Seq<Seq<Position>> {
    seq![
        seq![1u8, 2u8, 3u8],
        seq![8u8, 0u8, 4u8],
        seq![7u8, 6u8, 5u8],
        seq![1u8, 8u8, 7u8],
        seq![2u8, 0u8, 6u8],
        seq![3u8, 4u8, 5u8],
        seq![1u8, 0u8, 5u8],
        seq![3u8, 0u8, 7u8],
    ]
}

/// The colour that line `i` shows alike.
pub open spec fn line_color_at(board: Board, i: int) -> Color {
    line_color(board, lines()[i][0], lines()[i][1], lines()[i][2])
}

/// The colour of the first line from `i` on that one colour fills.
pub open spec fn winner_from(board: Board, i: int) -> Color
    decreases 8 - i,
{
    if i < 0 || i >= 8 {
        EMPTY
    } else if line_color_at(board, i) != EMPTY {
        line_color_at(board, i)
    } else {
        winner_from(board, i + 1)
    }
}

/// The colour of the first line that one colour fills, `EMPTY` where there is none.
pub open spec fn winner(board: Board) -> Color {
    winner_from(board, 0)
}

/// The colour that fills a line, the first line in order where several are filled.
pub fn get_winner(board: Board) -> (color: Color)
    ensures
        color == winner(board),
        color != EMPTY ==> exists|i: int|
            0 <= i < 8 && #[trigger] line_color_at(board, i) == color && forall|j: int|
                0 <= j < i ==> #[trigger] line_color_at(board, j) == EMPTY,
        color == EMPTY <==> forall|i: int|
            0 <= i < 8 ==> #[trigger] line_color_at(board, i) == EMPTY,
{
    let triples: [[u8; 3]; 8] = [
        [1, 2, 3],
        [8, 0, 4],
        [7, 6, 5],
        [1, 8, 7],
        [2, 0, 6],
        [3, 4, 5],
        [1, 0, 5],
        [3, 0, 7],
    ];

    let mut i: usize = 0;
    while i < 8
        invariant
            i <= 8,
            forall|j: int| 0 <= j < 8 ==> (#[trigger] triples@[j])@ == lines()[j],
            winner(board) == winner_from(board, i as int),
        decreases 8 - i,
    {
        let found = is_triple(board, triples[i].as_slice());
        if found != EMPTY {
            proof {
                lemma_winner_is_line(board);
            }
            return found;
        }
        i += 1;
    }
    proof {
        lemma_winner_is_line(board);
    }

    EMPTY
}

/// Whether every line that one colour fills shows `color`.
pub open spec fn lines_show_only(board: Board, color: Color) -> bool {
    forall|i: int|
        0 <= i < 8 ==> #[trigger] line_color_at(board, i) == EMPTY || line_color_at(board, i)
            == color
}

/// The winner from line `i` on is the colour of the first filled line from there.
proof fn lemma_winner_from(board: Board, i: int)
    requires
        0 <= i <= 8,
    ensures
        winner_from(board, i) != EMPTY ==> exists|j: int|
            i <= j < 8 && #[trigger] line_color_at(board, j) == winner_from(board, i)
                && forall|k: int| i <= k < j ==> #[trigger] line_color_at(board, k) == EMPTY,
        winner_from(board, i) == EMPTY <==> forall|j: int|
            i <= j < 8 ==> #[trigger] line_color_at(board, j) == EMPTY,
    decreases 8 - i,
{
    if i < 8 {
        lemma_winner_from(board, i + 1);
        let here = line_color_at(board, i);
        if here != EMPTY {
            assert(winner_from(board, i) == here);
        } else {
            assert(winner_from(board, i) == winner_from(board, i + 1));
            if winner_from(board, i + 1) != EMPTY {
                let j = choose|j: int|
                    i + 1 <= j < 8 && #[trigger] line_color_at(board, j) == winner_from(
                        board,
                        i + 1,
                    ) && forall|k: int|
                        i + 1 <= k < j ==> #[trigger] line_color_at(board, k) == EMPTY;
                assert forall|k: int| i <= k < j implies #[trigger] line_color_at(board, k)
                    == EMPTY by {
                    if k > i {
                    }
                }
                assert(i <= j < 8 && line_color_at(board, j) == winner_from(board, i));
            }
            assert forall|j: int|
                (forall|j: int| i + 1 <= j < 8 ==> #[trigger] line_color_at(board, j) == EMPTY)
                    && i <= j < 8 implies #[trigger] line_color_at(board, j) == EMPTY by {
                if j > i {
                }
            }
        }
    }
}

/// The winner is the colour of the first filled line, and there is none only where no
/// line is filled.
pub proof fn lemma_winner_is_line(board: Board)
    ensures
        winner(board) != EMPTY ==> exists|i: int|
            0 <= i < 8 && #[trigger] line_color_at(board, i) == winner(board) && forall|j: int|
                0 <= j < i ==> #[trigger] line_color_at(board, j) == EMPTY,
        winner(board) == EMPTY <==> forall|i: int|
            0 <= i < 8 ==> #[trigger] line_color_at(board, i) == EMPTY,
{
    lemma_winner_from(board, 0);
}

/// Where only one colour fills lines, nobody else has won.
pub proof fn lemma_only_winner(board: Board, color: Color)
    requires
        lines_show_only(board, color),
    ensures
        winner(board) == EMPTY || winner(board) == color,
{
    lemma_winner_is_line(board);
}

/// A board without a winner on which one cell changes, and shows a new colour on top
/// if it shows another than before, shows that colour in every filled line.
pub proof fn lemma_one_cell_changed(before: Board, after: Board, cell: Position, color: Color)
    requires
        cell < 9,
        winner(before) == EMPTY,
        forall|p: Position|
            p < 9 && p != cell ==> #[trigger] square_at(after, p) == square_at(before, p),
        top_color_at(after, cell) == color || top_color_at(after, cell) == top_color_at(
            before,
            cell,
        ),
    ensures
        lines_show_only(after, color),
{
    lemma_winner_is_line(before);
    assert forall|i: int| 0 <= i < 8 implies #[trigger] line_color_at(after, i) == EMPTY
        || line_color_at(after, i) == color by {
        let a = lines()[i][0];
        let b = lines()[i][1];
        let c = lines()[i][2];
        assert(a < 9 && b < 9 && c < 9);
        assert(line_color_at(before, i) == EMPTY);
        if a != cell && b != cell && c != cell {
            assert(square_at(after, a) == square_at(before, a));
            assert(square_at(after, b) == square_at(before, b));
            assert(square_at(after, c) == square_at(before, c));
        }
    }
}

/// A figure may be played exactly where its slot is empty: a taken slot blocks it
/// whatever the colour there, and nothing in the other slots does.
pub proof fn lemma_may_play_by_slot(square: Square, size: Size)
    requires
        is_size(size),
    ensures
        may_play(square, size) <==> slot_color(square, size) == EMPTY,
        !may_play(square, size) <==> is_player(slot_color(square, size)) || slot_color(
            square,
            size,
        ) == 3,
{
    assert(slot_color(square, size) < 4);
}

/// A figure set into an empty slot of a square of six bits gives a square of six bits
/// that holds its colour in that slot and what it held in the others. On top lies the
/// new figure, or what lay there before.
pub proof fn lemma_slot_filled(square: Square, size: Size, color: Color)
    requires
        is_size(size),
        is_player(color),
        square < 64,
        slot_color(square, size) == EMPTY,
    ensures
        square + color * size < 64,
        slot_color((square + color * size) as u8, size) == color,
        forall|other: Size|
            is_size(other) && other != size ==> #[trigger] slot_color(
                (square + color * size) as u8,
                other,
            ) == slot_color(square, other),
        top_color((square + color * size) as u8) == color || top_color(
            (square + color * size) as u8,
        ) == top_color(square),
{
    let figure = color * size;
    assert(figure == if size == SMALL {
        color as int
    } else if size == MEDIUM {
        color * 4
    } else {
        color * 16
    }) by (nonlinear_arith)
        requires
            figure == color * size,
            size == 1 || size == 4 || size == 16,
    ;
    let raised = (square + figure) as u8;
    let small = slot_color(square, SMALL);
    let medium = slot_color(square, MEDIUM);
    let large = slot_color(square, LARGE);
    assert(square == small + 4 * medium + 16 * large);
    if size == SMALL {
        assert(raised == color + 4 * medium + 16 * large);
    } else if size == MEDIUM {
        assert(raised == small + 4 * color + 16 * large);
    } else {
        assert(raised == small + 4 * medium + 16 * color);
    }
    assert(slot_color(raised, SMALL) == if size == SMALL {
        color
    } else {
        small
    });
    assert(slot_color(raised, MEDIUM) == if size == MEDIUM {
        color
    } else {
        medium
    });
    assert(slot_color(raised, LARGE) == if size == LARGE {
        color
    } else {
        large
    });
}

/// A square and the figure of a player share a bit where the slot of the figure's
/// size holds the player's colour.
proof fn lemma_held_bits(square: u8, color: u8)
    by (bit_vector)
    requires
        color == 1 || color == 2,
    ensures
        (square & (color * 1) as u8 != 0) == ((square / 1) % 4 == color || (square / 1) % 4 == 3),
        (square & (color * 4) as u8 != 0) == ((square / 4) % 4 == color || (square / 4) % 4 == 3),
        (square & (color * 16) as u8 != 0) == ((square / 16) % 4 == color || (square / 16) % 4
            == 3),
{
}

/// An empty board holds no colour anywhere.
proof fn lemma_count_held_empty(board: Board, size: Size, color: Color, limit: nat)
    requires
        limit <= 9,
        is_size(size),
        is_player(color),
        forall|p: Position| p < 9 ==> #[trigger] square_at(board, p) == EMPTY,
    ensures
        count_held(board, size, color, limit) == 0,
    decreases limit,
{
    if limit > 0 {
        lemma_count_held_empty(board, size, color, (limit - 1) as nat);
        assert(square_at(board, (limit - 1) as u8) == EMPTY);
    }
}

/// On an empty board either player has every size in reserve.
pub proof fn lemma_reserve_of_empty_board(board: Board)
    requires
        is_player(player_of(board)),
        forall|p: Position| p < 9 ==> #[trigger] square_at(board, p) == EMPTY,
    ensures
        remaining_sizes(board) == seq![SMALL, MEDIUM, LARGE],
{
    lemma_count_held_empty(board, SMALL, player_of(board), 9);
    lemma_count_held_empty(board, MEDIUM, player_of(board), 9);
    lemma_count_held_empty(board, LARGE, player_of(board), 9);
    assert(remaining_sizes(board) =~= seq![SMALL, MEDIUM, LARGE]);
}

/// Two cells that hold a colour are both counted.
proof fn lemma_count_held_two(
    board: Board,
    size: Size,
    color: Color,
    p: Position,
    q: Position,
    limit: nat,
)
    requires
        p < q,
        slot_holds(square_at(board, p), size, color),
        slot_holds(square_at(board, q), size, color),
    ensures
        count_held(board, size, color, limit) >= (if p < limit {
            1int
        } else {
            0
        }) + (if q < limit {
            1int
        } else {
            0
        }),
    decreases limit,
{
    if limit > 0 {
        lemma_count_held_two(board, size, color, p, q, (limit - 1) as nat);
    }
}

/// Once two cells hold the colour of the player to move in the slot of some size, that
/// size is no longer in reserve, whatever else stands on the board.
pub proof fn lemma_reserve_spent(board: Board, size: Size, p: Position, q: Position)
    requires
        is_size(size),
        p < 9,
        q < 9,
        p != q,
        slot_color(square_at(board, p), size) == player_of(board),
        slot_color(square_at(board, q), size) == player_of(board),
    ensures
        !in_reserve(board, size),
        !remaining_sizes(board).contains(size),
{
    if p < q {
        lemma_count_held_two(board, size, player_of(board), p, q, 9);
    } else {
        lemma_count_held_two(board, size, player_of(board), q, p, 9);
    }
    let sizes = remaining_sizes(board);
    assert forall|i: int| 0 <= i < sizes.len() implies sizes[i] != size by {
    }
}

/// Whether two boards hold `color` in the same slots of the same cells.
pub open spec fn holds_alike(board: Board, other: Board, color: Color) -> bool {
    forall|p: Position|
        p < 9 ==> {
            &&& slot_holds(#[trigger] square_at(other, p), SMALL, color) == slot_holds(
                square_at(board, p),
                SMALL,
                color,
            )
            &&& slot_holds(square_at(other, p), MEDIUM, color) == slot_holds(
                square_at(board, p),
                MEDIUM,
                color,
            )
            &&& slot_holds(square_at(other, p), LARGE, color) == slot_holds(
                square_at(board, p),
                LARGE,
                color,
            )
        }
}

/// Boards that hold a colour in the same slots hold it equally often.
proof fn lemma_count_held_alike(board: Board, other: Board, size: Size, color: Color, limit: nat)
    requires
        limit <= 9,
        is_size(size),
        holds_alike(board, other, color),
    ensures
        count_held(other, size, color, limit) == count_held(board, size, color, limit),
    decreases limit,
{
    if limit > 0 {
        lemma_count_held_alike(board, other, size, color, (limit - 1) as nat);
        let p = (limit - 1) as u8;
        assert(slot_holds(square_at(other, p), size, color) == slot_holds(
            square_at(board, p),
            size,
            color,
        ));
    }
}

/// The figures of the opponent do not count: boards with the same player to move that
/// hold the player's colour in the same slots leave the same sizes in reserve.
pub proof fn lemma_reserve_by_own_figures(board: Board, other: Board)
    requires
        player_of(other) == player_of(board),
        holds_alike(board, other, player_of(board)),
    ensures
        remaining_sizes(other) == remaining_sizes(board),
{
    lemma_count_held_alike(board, other, SMALL, player_of(board), 9);
    lemma_count_held_alike(board, other, MEDIUM, player_of(board), 9);
    lemma_count_held_alike(board, other, LARGE, player_of(board), 9);
}

/// A board fit to be visited: well formed, with a player to move who has not won it.
pub open spec fn is_state(board: Board) -> bool {
    &&& is_board(board)
    &&& is_player(player_of(board))
    &&& winner(board) != player_of(board)
}

} // verus!
