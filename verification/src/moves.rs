//! The moves of the player to move: bringing a figure in from the reserve, and lifting
//! a figure that lies on top to set it on another cell.

use vstd::prelude::*;
use std::collections::VecDeque;
use crate::canonical::{
    canonical, lemma_canonical_idempotent, lemma_canonical_with_player, lemma_turn_lines,
    lemma_with_player_lines, normalize_board,
};
use crate::codec::{
    Board, Color, Position, Size, Square, EMPTY, LARGE, MEDIUM, ORANGE, get_board_square,
    is_board, lemma_square_fits, lemma_with_player, lemma_with_square, player_of,
    set_board_player, set_board_square, square_at, with_player, with_square,
};
use crate::rules::{
    can_play_at, figure_size, get_board_remaining, get_figure_size, get_top_color,
    get_top_figure, get_winner, is_figure, is_player, is_size, is_state,
    lemma_one_cell_changed, lemma_only_winner, lemma_slot_filled, may_play, other_player,
    remaining_sizes, slot_color, top_color, top_color_at, top_figure, winner,
};

verus! {

/// A board that waits to be visited, and the board it was reached from.
pub type Entry = (Board, Option<Board>);

/// The board after a figure of `size` came in on cell `position`: the figure set, the
/// board turned to its smallest form, the turn handed to `opponent`.
pub open spec fn placed(
    board: Board,
    position: Position,
    size: Size,
    playing: Color,
    opponent: Color,
) -> Board {
    with_player(
        canonical(
            with_square(board, position, (square_at(board, position) + playing * size) as u8),
        ),
        opponent,
    )
}

/// The entries that a figure of `size` gives on the cells below `limit`, by cell.
pub open spec fn placement_entries_at(
    board: Board,
    size: Size,
    playing: Color,
    opponent: Color,
    limit: nat,
) -> Seq<Entry>
    decreases limit,
{
    if limit == 0 {
        seq![]
    } else {
        let before = placement_entries_at(board, size, playing, opponent, (limit - 1) as nat);
        let position = (limit - 1) as u8;
        if may_play(square_at(board, position), size) {
            before.push((placed(board, position, size, playing, opponent), Some(board)))
        } else {
            before
        }
    }
}

/// The entries that the first `n` of the given sizes give, by size and then by cell.
pub open spec fn placement_entries_upto(
    board: Board,
    sizes: Seq<Size>,
    playing: Color,
    opponent: Color,
    n: nat,
) -> Seq<Entry>
    decreases n,
{
    if n == 0 {
        seq![]
    } else {
        placement_entries_upto(board, sizes, playing, opponent, (n - 1) as nat)
            + placement_entries_at(board, sizes[n - 1], playing, opponent, 9)
    }
}

/// Every way to bring a figure in: for each size that is left in the reserve, smallest
/// first, each cell that takes it, by cell.
pub open spec fn placement_entries(board: Board, playing: Color, opponent: Color) -> Seq<Entry> {
    placement_entries_upto(
        board,
        remaining_sizes(board),
        playing,
        opponent,
        remaining_sizes(board).len(),
    )
}

/// A size gives at most one entry for each cell.
proof fn lemma_placement_entries_at_len(
    board: Board,
    size: Size,
    playing: Color,
    opponent: Color,
    limit: nat,
)
    ensures
        placement_entries_at(board, size, playing, opponent, limit).len() <= limit,
    decreases limit,
{
    if limit > 0 {
        lemma_placement_entries_at_len(board, size, playing, opponent, (limit - 1) as nat);
    }
}

/// Puts every way to bring a figure in at the end of the queue, each with `board` as
/// its parent, and tells how many there are.
pub fn add_new_items(
    board: Board,
    playing: Color,
    opponent: Color,
    to_visit: &mut VecDeque<(Board, Option<Board>)>,
) -> (num_of_children: u8)
    requires
        is_player(playing),
        is_player(player_of(board)),
    ensures
        final(to_visit)@ == old(to_visit)@ + placement_entries(board, playing, opponent),
        num_of_children == placement_entries(board, playing, opponent).len(),
        num_of_children <= 27,
{
    let mut num_of_children: u8 = 0;
    let remaining = get_board_remaining(board);
    let ghost start = to_visit@;
    let mut s: usize = 0;
    while s < remaining.len()
        invariant
            s <= remaining.len() <= 3,
            is_player(playing),
            remaining@ == remaining_sizes(board),
            forall|i: int| 0 <= i < remaining@.len() ==> is_size(#[trigger] remaining@[i]),
            to_visit@ == start + placement_entries_upto(
                board,
                remaining@,
                playing,
                opponent,
                s as nat,
            ),
            num_of_children == placement_entries_upto(
                board,
                remaining@,
                playing,
                opponent,
                s as nat,
            ).len(),
            num_of_children <= 9 * s,
        decreases remaining.len() - s,
    {
        let size = remaining[s];
        let ghost done = placement_entries_upto(board, remaining@, playing, opponent, s as nat);
        for pos in 0u8..9
            invariant
                is_player(playing),
                is_size(size),
                to_visit@ == start + (done + placement_entries_at(
                    board,
                    size,
                    playing,
                    opponent,
                    pos as nat,
                )),
                num_of_children == done.len() + placement_entries_at(
                    board,
                    size,
                    playing,
                    opponent,
                    pos as nat,
                ).len(),
                done.len() <= 9 * s,
                s < 3,
        {
            proof {
                lemma_placement_entries_at_len(board, size, playing, opponent, pos as nat);
            }
            let square = get_board_square(board, pos);
            if can_play_at(square, size) {
                proof {
                    lemma_slot_filled(square, size, playing);
                }
                assert(playing * size <= 2 * size) by (nonlinear_arith)
                    requires
                        playing <= 2,
                ;
                let new_board = set_board_square(board, pos, square + playing * size);
                let new_normalized_board = normalize_board(new_board);
                let new_board_with_player = set_board_player(new_normalized_board, opponent);
                to_visit.push_back((new_board_with_player, Some(board)));
                num_of_children += 1;
            }
        }
        proof {
            lemma_placement_entries_at_len(board, size, playing, opponent, 9);
        }
        s += 1;
    }
    num_of_children
}

/// The board with the top figure of cell `from` taken off.
pub open spec fn lifted(board: Board, from: Position) -> Board {
    with_square(
        board,
        from,
        (square_at(board, from) - top_figure(square_at(board, from))) as u8,
    )
}

/// Whether the player may lift the top figure of cell `from`: it is the player's own,
/// and no line is filled once it is gone.
pub open spec fn may_lift(board: Board, from: Position, playing: Color) -> bool {
    top_color_at(board, from) == playing && winner(lifted(board, from)) == EMPTY
}

/// Whether the figure lifted from cell `from` may be set on cell `to`.
pub open spec fn may_land(board: Board, from: Position, to: Position) -> bool {
    to != from && may_play(
        square_at(lifted(board, from), to),
        figure_size(top_figure(square_at(board, from))),
    )
}

/// The board after the top figure of cell `from` went to cell `to`: the figure moved,
/// the board turned to its smallest form, the turn handed to `opponent`.
pub open spec fn moved(board: Board, from: Position, to: Position, opponent: Color) -> Board {
    with_player(
        canonical(
            with_square(
                lifted(board, from),
                to,
                (square_at(lifted(board, from), to) + top_figure(square_at(board, from))) as u8,
            ),
        ),
        opponent,
    )
}

/// The entries that the figure lifted from cell `from` gives on the cells below
/// `limit`, by cell.
pub open spec fn relocation_entries_from(
    board: Board,
    from: Position,
    opponent: Color,
    limit: nat,
) -> Seq<Entry>
    decreases limit,
{
    if limit == 0 {
        seq![]
    } else {
        let before = relocation_entries_from(board, from, opponent, (limit - 1) as nat);
        let to = (limit - 1) as u8;
        if may_land(board, from, to) {
            before.push((moved(board, from, to, opponent), Some(board)))
        } else {
            before
        }
    }
}

/// The entries that the figures on the cells below `n` give, by the cell they leave
/// and then by the cell they reach.
pub open spec fn relocation_entries_upto(
    board: Board,
    playing: Color,
    opponent: Color,
    n: nat,
) -> Seq<Entry>
    decreases n,
{
    if n == 0 {
        seq![]
    } else {
        let before = relocation_entries_upto(board, playing, opponent, (n - 1) as nat);
        let from = (n - 1) as u8;
        if may_lift(board, from, playing) {
            before + relocation_entries_from(board, from, opponent, 9)
        } else {
            before
        }
    }
}

/// Whether a board is reached by lifting a top figure of `playing` whose leaving fills
/// no line, and setting it on another cell.
pub open spec fn is_safe_relocation(
    board: Board,
    playing: Color,
    opponent: Color,
    reached: Board,
) -> bool {
    exists|from: Position, to: Position|
        from < 9 && to < 9 && to != from && top_color_at(board, from) == playing && winner(
            lifted(board, from),
        ) == EMPTY && #[trigger] moved(board, from, to, opponent) == reached
}

/// Every way to move a figure that is on the board.
pub open spec fn relocation_entries(board: Board, playing: Color, opponent: Color) -> Seq<Entry> {
    relocation_entries_upto(board, playing, opponent, 9)
}

/// A lifted figure gives at most one entry for each cell but its own.
proof fn lemma_relocation_entries_from_len(
    board: Board,
    from: Position,
    opponent: Color,
    limit: nat,
)
    ensures
        relocation_entries_from(board, from, opponent, limit).len() <= if limit > from {
            limit - 1
        } else {
            limit as int
        },
    decreases limit,
{
    if limit > 0 {
        lemma_relocation_entries_from_len(board, from, opponent, (limit - 1) as nat);
    }
}

/// The figures on `n` cells give at most eight entries each.
proof fn lemma_relocation_entries_upto_len(board: Board, playing: Color, opponent: Color, n: nat)
    requires
        n <= 9,
    ensures
        relocation_entries_upto(board, playing, opponent, n).len() <= 8 * n,
    decreases n,
{
    if n > 0 {
        lemma_relocation_entries_upto_len(board, playing, opponent, (n - 1) as nat);
        lemma_relocation_entries_from_len(board, (n - 1) as u8, opponent, 9);
    }
}

/// The top figure of a square whose top colour is a player's: that colour times the
/// size of the largest slot in use, and no more than the square holds.
pub proof fn lemma_top_figure(square: Square, playing: Color)
    requires
        is_player(playing),
        top_color(square) == playing,
    ensures
        is_figure(top_figure(square)),
        top_figure(square) == playing * figure_size(top_figure(square)),
        top_figure(square) <= square,
        is_size(figure_size(top_figure(square))),
{
    let figure = top_figure(square);
    if slot_color(square, LARGE) != EMPTY {
        assert(figure == playing * 16);
    } else if slot_color(square, MEDIUM) != EMPTY {
        assert(figure == playing * 4);
    } else {
        assert(figure == playing * 1);
    }
    if playing == ORANGE {
        assert(figure == 16 || figure == 4 || figure == 1);
    } else {
        assert(figure == 32 || figure == 8 || figure == 2);
    }
}

/// Puts every way to move a figure of `playing` at the end of the queue, each with
/// `board` as its parent, and tells how many there are. No figure is lifted whose
/// leaving would fill a line.
pub fn add_moved_items(
    board: Board,
    playing: Color,
    opponent: Color,
    to_visit: &mut VecDeque<(Board, Option<Board>)>,
) -> (num_of_children: u8)
    requires
        is_player(playing),
    ensures
        final(to_visit)@ == old(to_visit)@ + relocation_entries(board, playing, opponent),
        num_of_children == relocation_entries(board, playing, opponent).len(),
        num_of_children <= 72,
        forall|i: int|
            old(to_visit)@.len() <= i < final(to_visit)@.len() ==> is_safe_relocation(
                board,
                playing,
                opponent,
                (#[trigger] final(to_visit)@[i]).0,
            ),
{
    let mut num_of_children: u8 = 0;
    let ghost start = to_visit@;
    for pos in 0u8..9
        invariant
            is_player(playing),
            to_visit@ == start + relocation_entries_upto(board, playing, opponent, pos as nat),
            num_of_children == relocation_entries_upto(
                board,
                playing,
                opponent,
                pos as nat,
            ).len(),
    {
        proof {
            lemma_relocation_entries_upto_len(board, playing, opponent, pos as nat);
        }
        let ghost done = relocation_entries_upto(board, playing, opponent, pos as nat);
        let color = get_top_color(board, pos);
        if color == playing {
            let square = get_board_square(board, pos);
            let figure = get_top_figure(square);
            proof {
                lemma_top_figure(square, playing);
            }
            let size = get_figure_size(figure);
            let board_without_figure = set_board_square(board, pos, square - figure);
            if get_winner(board_without_figure) == EMPTY {
                for target_pos in 0u8..9
                    invariant
                        is_player(playing),
                        pos < 9,
                        color == playing,
                        square == square_at(board, pos),
                        figure == top_figure(square),
                        figure == playing * size,
                        size == figure_size(figure),
                        is_size(size),
                        board_without_figure == lifted(board, pos),
                        done.len() <= 8 * pos,
                        to_visit@ == start + (done + relocation_entries_from(
                            board,
                            pos,
                            opponent,
                            target_pos as nat,
                        )),
                        num_of_children == done.len() + relocation_entries_from(
                            board,
                            pos,
                            opponent,
                            target_pos as nat,
                        ).len(),
                {
                    proof {
                        lemma_relocation_entries_from_len(board, pos, opponent, target_pos as nat);
                    }
                    if target_pos != pos {
                        let square = get_board_square(board_without_figure, target_pos);
                        if can_play_at(square, size) {
                            proof {
                                lemma_slot_filled(square, size, playing);
                            }
                            let new_board = set_board_square(
                                board_without_figure,
                                target_pos,
                                square + figure,
                            );
                            let new_normalized_board = normalize_board(new_board);
                            let new_board_with_player = set_board_player(
                                new_normalized_board,
                                opponent,
                            );
                            to_visit.push_back((new_board_with_player, Some(board)));
                            num_of_children += 1;
                        }
                    }
                }
            }
        }
    }
    proof {
        lemma_relocation_entries_upto_len(board, playing, opponent, 9);
        assert forall|i: int| start.len() <= i < to_visit@.len() implies is_safe_relocation(
            board,
            playing,
            opponent,
            (#[trigger] to_visit@[i]).0,
        ) by {
            lemma_relocations_are_safe(board, playing, opponent, i - start.len());
        }
    }
    num_of_children
}

/// Whether a board can follow a move of `playing`: it is well formed and in its
/// smallest form, has `opponent` to move, and nobody but `playing` has won it.
pub open spec fn is_reply(board: Board, playing: Color, opponent: Color) -> bool {
    &&& is_board(board)
    &&& player_of(board) == opponent
    &&& canonical(board) == board
    &&& winner(board) == EMPTY || winner(board) == playing
}

/// Whether an entry is a sound move from `board`: it names `board` as its parent, and
/// its board can follow a move of `playing`.
pub open spec fn is_move_from(entry: Entry, board: Board, playing: Color, opponent: Color) -> bool {
    entry.1 == Some(board) && is_reply(entry.0, playing, opponent)
}

/// Setting a figure of a player into an empty slot of a cell of a board without a
/// winner gives, turned to its smallest form and handed to the opponent, a board that
/// only that player can have won.
proof fn lemma_figure_set(board: Board, cell: Position, size: Size, playing: Color, opponent: Color)
    requires
        is_board(board),
        winner(board) == EMPTY,
        cell < 9,
        is_size(size),
        is_player(playing),
        opponent < 4,
        may_play(square_at(board, cell), size),
    ensures
        is_reply(placed(board, cell, size, playing, opponent), playing, opponent),
{
    let square = square_at(board, cell);
    lemma_square_fits(board, cell);
    lemma_slot_filled(square, size, playing);
    let raised = (square + playing * size) as u8;
    let after = with_square(board, cell, raised);
    assert forall|p: Position| p < 9 && p != cell implies #[trigger] square_at(after, p)
        == square_at(board, p) by {
        lemma_with_square(board, cell, raised, p);
    }
    lemma_with_square(board, cell, raised, cell);
    lemma_one_cell_changed(board, after, cell, playing);
    lemma_canonical_idempotent(after);
    lemma_turn_lines(canonical(after), after, playing);
    lemma_with_player_lines(canonical(after), opponent, playing);
    lemma_with_player(canonical(after), opponent, 0);
    lemma_canonical_with_player(after, opponent);
    lemma_only_winner(with_player(canonical(after), opponent), playing);
}

/// Lifting a figure and setting it elsewhere gives a board that only the player who
/// moved can have won.
proof fn lemma_figure_moved(
    board: Board,
    from: Position,
    to: Position,
    playing: Color,
    opponent: Color,
)
    requires
        is_board(board),
        from < 9,
        to < 9,
        is_player(playing),
        opponent < 4,
        may_lift(board, from, playing),
        may_land(board, from, to),
    ensures
        is_reply(moved(board, from, to, opponent), playing, opponent),
{
    let square = square_at(board, from);
    let figure = top_figure(square);
    let size = figure_size(figure);
    lemma_top_figure(square, playing);
    lemma_square_fits(board, from);
    let without = lifted(board, from);
    lemma_with_square(board, from, (square - figure) as u8, 0);
    lemma_figure_set(without, to, size, playing, opponent);
    assert(moved(board, from, to, opponent) == placed(without, to, size, playing, opponent));
}

/// Every entry that a size gives is a sound move.
proof fn lemma_placement_entries_at(
    board: Board,
    size: Size,
    playing: Color,
    opponent: Color,
    limit: nat,
)
    requires
        is_board(board),
        winner(board) == EMPTY,
        is_size(size),
        is_player(playing),
        opponent < 4,
        limit <= 9,
    ensures
        forall|i: int|
            0 <= i < placement_entries_at(board, size, playing, opponent, limit).len()
                ==> is_move_from(
                #[trigger] placement_entries_at(board, size, playing, opponent, limit)[i],
                board,
                playing,
                opponent,
            ),
    decreases limit,
{
    if limit > 0 {
        lemma_placement_entries_at(board, size, playing, opponent, (limit - 1) as nat);
        let before = placement_entries_at(board, size, playing, opponent, (limit - 1) as nat);
        let entries = placement_entries_at(board, size, playing, opponent, limit);
        let position = (limit - 1) as u8;
        if may_play(square_at(board, position), size) {
            lemma_figure_set(board, position, size, playing, opponent);
        }
        assert forall|i: int| 0 <= i < entries.len() implies is_move_from(
            #[trigger] entries[i],
            board,
            playing,
            opponent,
        ) by {
            if i < before.len() {
                assert(entries[i] == before[i]);
            }
        }
    }
}

/// Every entry that the first `n` sizes give is a sound move.
proof fn lemma_placement_entries_upto(
    board: Board,
    sizes: Seq<Size>,
    playing: Color,
    opponent: Color,
    n: nat,
)
    requires
        is_board(board),
        winner(board) == EMPTY,
        forall|i: int| 0 <= i < sizes.len() ==> is_size(#[trigger] sizes[i]),
        is_player(playing),
        opponent < 4,
        n <= sizes.len(),
    ensures
        forall|i: int|
            0 <= i < placement_entries_upto(board, sizes, playing, opponent, n).len()
                ==> is_move_from(
                #[trigger] placement_entries_upto(board, sizes, playing, opponent, n)[i],
                board,
                playing,
                opponent,
            ),
    decreases n,
{
    if n > 0 {
        lemma_placement_entries_upto(board, sizes, playing, opponent, (n - 1) as nat);
        lemma_placement_entries_at(board, sizes[n - 1], playing, opponent, 9);
        let before = placement_entries_upto(board, sizes, playing, opponent, (n - 1) as nat);
        let added = placement_entries_at(board, sizes[n - 1], playing, opponent, 9);
        let entries = placement_entries_upto(board, sizes, playing, opponent, n);
        assert forall|i: int| 0 <= i < entries.len() implies is_move_from(
            #[trigger] entries[i],
            board,
            playing,
            opponent,
        ) by {
            if i < before.len() {
                assert(entries[i] == before[i]);
            } else {
                assert(entries[i] == added[i - before.len()]);
            }
        }
    }
}

/// Every entry that a lifted figure gives is a sound move.
proof fn lemma_relocation_entries_from(
    board: Board,
    from: Position,
    playing: Color,
    opponent: Color,
    limit: nat,
)
    requires
        is_board(board),
        from < 9,
        is_player(playing),
        opponent < 4,
        may_lift(board, from, playing),
        limit <= 9,
    ensures
        forall|i: int|
            0 <= i < relocation_entries_from(board, from, opponent, limit).len()
                ==> is_move_from(
                #[trigger] relocation_entries_from(board, from, opponent, limit)[i],
                board,
                playing,
                opponent,
            ),
    decreases limit,
{
    if limit > 0 {
        lemma_relocation_entries_from(board, from, playing, opponent, (limit - 1) as nat);
        let before = relocation_entries_from(board, from, opponent, (limit - 1) as nat);
        let entries = relocation_entries_from(board, from, opponent, limit);
        let to = (limit - 1) as u8;
        if may_land(board, from, to) {
            lemma_figure_moved(board, from, to, playing, opponent);
        }
        assert forall|i: int| 0 <= i < entries.len() implies is_move_from(
            #[trigger] entries[i],
            board,
            playing,
            opponent,
        ) by {
            if i < before.len() {
                assert(entries[i] == before[i]);
            }
        }
    }
}

/// Every entry that the figures on the first `n` cells give is a sound move.
proof fn lemma_relocation_entries_upto(board: Board, playing: Color, opponent: Color, n: nat)
    requires
        is_board(board),
        is_player(playing),
        opponent < 4,
        n <= 9,
    ensures
        forall|i: int|
            0 <= i < relocation_entries_upto(board, playing, opponent, n).len()
                ==> is_move_from(
                #[trigger] relocation_entries_upto(board, playing, opponent, n)[i],
                board,
                playing,
                opponent,
            ),
    decreases n,
{
    if n > 0 {
        lemma_relocation_entries_upto(board, playing, opponent, (n - 1) as nat);
        let before = relocation_entries_upto(board, playing, opponent, (n - 1) as nat);
        let entries = relocation_entries_upto(board, playing, opponent, n);
        let from = (n - 1) as u8;
        if may_lift(board, from, playing) {
            lemma_relocation_entries_from(board, from, playing, opponent, 9);
            let added = relocation_entries_from(board, from, opponent, 9);
            assert forall|i: int| 0 <= i < entries.len() implies is_move_from(
                #[trigger] entries[i],
                board,
                playing,
                opponent,
            ) by {
                if i < before.len() {
                    assert(entries[i] == before[i]);
                } else {
                    assert(entries[i] == added[i - before.len()]);
                }
            }
        }
    }
}

/// Every move of a board that nobody has won leads to a board that only the player who
/// moved can have won, with the other player to move.
pub proof fn lemma_moves_are_sound(board: Board, playing: Color, opponent: Color)
    requires
        is_board(board),
        winner(board) == EMPTY,
        is_player(playing),
        opponent < 4,
    ensures
        forall|i: int|
            0 <= i < placement_entries(board, playing, opponent).len() ==> is_move_from(
                #[trigger] placement_entries(board, playing, opponent)[i],
                board,
                playing,
                opponent,
            ),
        forall|i: int|
            0 <= i < relocation_entries(board, playing, opponent).len() ==> is_move_from(
                #[trigger] relocation_entries(board, playing, opponent)[i],
                board,
                playing,
                opponent,
            ),
{
    let sizes = remaining_sizes(board);
    assert forall|i: int| 0 <= i < sizes.len() implies is_size(#[trigger] sizes[i]) by {
    }
    lemma_placement_entries_upto(board, sizes, playing, opponent, sizes.len());
    lemma_relocation_entries_upto(board, playing, opponent, 9);
}

/// No move lifts a figure whose leaving would fill a line: every entry of the
/// relocations comes from a cell that the player may lift.
pub proof fn lemma_relocations_are_safe(board: Board, playing: Color, opponent: Color, i: int)
    requires
        0 <= i < relocation_entries(board, playing, opponent).len(),
    ensures
        is_safe_relocation(
            board,
            playing,
            opponent,
            relocation_entries(board, playing, opponent)[i].0,
        ),
{
    lemma_relocation_sources(board, playing, opponent, 9, i);
}

/// Every entry that a lifted figure gives sets it on another cell.
proof fn lemma_relocation_targets(board: Board, from: Position, opponent: Color, limit: nat, i: int)
    requires
        limit <= 9,
        0 <= i < relocation_entries_from(board, from, opponent, limit).len(),
    ensures
        exists|to: Position|
            to < 9 && to != from && #[trigger] moved(board, from, to, opponent)
                == relocation_entries_from(board, from, opponent, limit)[i].0,
    decreases limit,
{
    let before = relocation_entries_from(board, from, opponent, (limit - 1) as nat);
    let to = (limit - 1) as u8;
    if i < before.len() {
        lemma_relocation_targets(board, from, opponent, (limit - 1) as nat, i);
    } else {
        assert(to < 9 && to != from && moved(board, from, to, opponent)
            == relocation_entries_from(board, from, opponent, limit)[i].0);
    }
}

/// Every entry that the figures on the first `n` cells give lifts a figure that may be
/// lifted.
proof fn lemma_relocation_sources(board: Board, playing: Color, opponent: Color, n: nat, i: int)
    requires
        n <= 9,
        0 <= i < relocation_entries_upto(board, playing, opponent, n).len(),
    ensures
        exists|from: Position, to: Position|
            from < 9 && to < 9 && to != from && top_color_at(board, from) == playing && winner(
                lifted(board, from),
            ) == EMPTY && #[trigger] moved(board, from, to, opponent) == relocation_entries_upto(
                board,
                playing,
                opponent,
                n,
            )[i].0,
    decreases n,
{
    let before = relocation_entries_upto(board, playing, opponent, (n - 1) as nat);
    let from = (n - 1) as u8;
    if i < before.len() {
        lemma_relocation_sources(board, playing, opponent, (n - 1) as nat, i);
    } else {
        lemma_relocation_targets(board, from, opponent, 9, i - before.len());
        let to = choose|to: Position|
            to < 9 && to != from && #[trigger] moved(board, from, to, opponent)
                == relocation_entries_from(board, from, opponent, 9)[i - before.len()].0;
        assert(from < 9 && to < 9 && to != from && top_color_at(board, from) == playing && winner(
            lifted(board, from),
        ) == EMPTY && moved(board, from, to, opponent) == relocation_entries_upto(
            board,
            playing,
            opponent,
            n,
        )[i].0);
    }
}

/// A board has at most 27 moves that bring a figure in and 72 that move one.
pub proof fn lemma_moves_count(board: Board, playing: Color, opponent: Color)
    ensures
        placement_entries(board, playing, opponent).len() <= 27,
        relocation_entries(board, playing, opponent).len() <= 72,
{
    lemma_relocation_entries_upto_len(board, playing, opponent, 9);
    let sizes = remaining_sizes(board);
    assert(sizes.len() <= 3);
    lemma_placement_entries_upto_len(board, sizes, playing, opponent, sizes.len());
}

/// The first `n` sizes give at most nine entries each.
proof fn lemma_placement_entries_upto_len(
    board: Board,
    sizes: Seq<Size>,
    playing: Color,
    opponent: Color,
    n: nat,
)
    ensures
        placement_entries_upto(board, sizes, playing, opponent, n).len() <= 9 * n,
    decreases n,
{
    if n > 0 {
        lemma_placement_entries_upto_len(board, sizes, playing, opponent, (n - 1) as nat);
        lemma_placement_entries_at_len(board, sizes[n - 1], playing, opponent, 9);
    }
}

/// The moves of the player to move: those that bring a figure in, then those that move
/// one.
pub open spec fn moves_of(board: Board) -> Seq<Entry> {
    placement_entries(board, player_of(board), other_player(player_of(board)))
        + relocation_entries(board, player_of(board), other_player(player_of(board)))
}

/// Every move of a board that nobody has won names the board and leads to a board that
/// only the player who moved can have won.
pub proof fn lemma_moves_of_sound(board: Board)
    requires
        is_state(board),
        winner(board) == EMPTY,
    ensures
        moves_of(board).len() <= 99,
        forall|i: int|
            0 <= i < moves_of(board).len() ==> is_move_from(
                #[trigger] moves_of(board)[i],
                board,
                player_of(board),
                other_player(player_of(board)),
            ),
        forall|i: int|
            0 <= i < moves_of(board).len() ==> is_state((#[trigger] moves_of(board)[i]).0)
                && moves_of(board)[i].1 == Some(board),
{
    let playing = player_of(board);
    let opponent = other_player(playing);
    let placements = placement_entries(board, playing, opponent);
    let relocations = relocation_entries(board, playing, opponent);
    let moves = moves_of(board);
    lemma_moves_count(board, playing, opponent);
    lemma_moves_are_sound(board, playing, opponent);
    assert forall|i: int| 0 <= i < moves.len() implies is_move_from(
        #[trigger] moves[i],
        board,
        playing,
        opponent,
    ) by {
        if i < placements.len() {
            assert(moves[i] == placements[i]);
        } else {
            assert(moves[i] == relocations[i - placements.len()]);
        }
    }
}

} // verus!
