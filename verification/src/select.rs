//! Choosing among the boards that one move reaches.

use vstd::prelude::*;
use std::collections::HashMap;
use crate::codec::Board;
use crate::outcome::{Record, WIN};

verus! {

broadcast use vstd::std_specs::hash::group_hash_axioms;

/// Where a candidate stands, by its number of moves and its outcome: 0 with no move
/// recorded, 2 when won, 1 otherwise.
pub open spec fn standing(candidate: (u8, i8)) -> int {
    if candidate.0 == 0 {
        0
    } else if candidate.1 == WIN {
        2
    } else {
        1
    }
}

/// Whether the first candidate is taken before the second. A higher standing goes
/// first. Of two candidates that are not won, the lower count goes first, then the one
/// with fewer moves. A won candidate is taken before another won one, and a candidate
/// without moves before nothing.
pub open spec fn prefers(first: (u8, i8), second: (u8, i8)) -> bool {
    if standing(first) != standing(second) {
        standing(first) > standing(second)
    } else if standing(first) == 0 {
        false
    } else if standing(first) == 2 {
        true
    } else if first.1 != second.1 {
        first.1 < second.1
    } else {
        first.0 < second.0
    }
}

/// Whether the first candidate is taken before the second, each given by the number of
/// its moves and its outcome.
pub fn is_first_state_better(first: (u8, i8), second: (u8, i8)) -> (better: bool)
    ensures
        better == prefers(first, second),
{
    if first.0 == 0 {
        false
    } else if second.0 == 0 {
        true
    } else if first.1 == WIN {
        true
    } else if second.1 == WIN {
        false
    } else if first.1 < second.1 {
        true
    } else if first.1 > second.1 {
        false
    } else {
        first.0 < second.0
    }
}

/// Whether the first of two candidates, each with its board, is the better choice: the
/// one that alone is taken before the other, and of two that tie the one with the
/// smaller board.
pub open spec fn outranks(first: (Board, u8, i8), second: (Board, u8, i8)) -> bool {
    let a = (first.1, first.2);
    let b = (second.1, second.2);
    if prefers(a, b) != prefers(b, a) {
        prefers(a, b)
    } else {
        first.0 < second.0
    }
}

/// Of two candidates with different boards exactly one outranks the other, and a
/// candidate that outranks another outranks all that the other outranks: so among any
/// candidates there is one best choice.
pub proof fn lemma_outranks_orders(
    first: (Board, u8, i8),
    second: (Board, u8, i8),
    third: (Board, u8, i8),
)
    ensures
        first.0 != second.0 ==> outranks(first, second) != outranks(second, first),
        outranks(first, second) && outranks(second, third) ==> outranks(first, third),
{
}

/// Whether `key` has a record that names `board` among its parents.
pub open spec fn reached_from(table: Map<Board, Record>, key: Board, board: Board) -> bool {
    table.contains_key(key) && table[key].0@.contains(board)
}

/// What the table holds of `key`, as a candidate.
pub open spec fn candidate(table: Map<Board, Record>, key: Board) -> (Board, u8, i8) {
    (key, table[key].1, table[key].2)
}

/// Whether a board stands in a list.
fn contains_board(boards: &Vec<Board>, board: Board) -> (found: bool)
    ensures
        found == boards@.contains(board),
{
    let mut i: usize = 0;
    while i < boards.len()
        invariant
            i <= boards.len(),
            forall|j: int| 0 <= j < i ==> boards@[j] != board,
        decreases boards.len() - i,
    {
        if boards[i] == board {
            return true;
        }
        i += 1;
    }
    false
}

/// The best of the boards that one move from `board` reached, with the number of its
/// moves and its outcome: the one that no other outranks. Nothing where no record names
/// `board` as a parent.
pub fn find_best_move(board: Board, visited: &HashMap<Board, (Vec<Board>, u8, i8)>) -> (best:
    Option<(Board, u8, i8)>)
    ensures
        best is None <==> forall|key: Board| !reached_from(visited@, key, board),
        best matches Some(found) ==> {
            &&& reached_from(visited@, found.0, board)
            &&& found == candidate(visited@, found.0)
            &&& forall|key: Board|
                reached_from(visited@, key, board) && key != found.0 ==> outranks(
                    found,
                    #[trigger] candidate(visited@, key),
                )
        },
{
    let mut best: Option<(Board, u8, i8)> = None;

    for entry in it: visited.iter()
        invariant
            best is None <==> forall|i: int|
                0 <= i < it.index() ==> !reached_from(visited@, *(#[trigger] it.seq()[i]).0, board),
            best matches Some(found) ==> {
                &&& reached_from(visited@, found.0, board)
                &&& found == candidate(visited@, found.0)
                &&& forall|i: int|
                    0 <= i < it.index() && reached_from(
                        visited@,
                        *(#[trigger] it.seq()[i]).0,
                        board,
                    )
                        && *it.seq()[i].0 != found.0 ==> outranks(
                        found,
                        candidate(visited@, *it.seq()[i].0),
                    )
            },
    {
        let visited_board = *entry.0;
        let state = entry.1;
        if contains_board(&state.0, board) {
            let is_better: bool = match best {
                None => true,
                Some(unwrap) => {
                    let ahead = is_first_state_better((state.1, state.2), (unwrap.1, unwrap.2));
                    let behind = is_first_state_better((unwrap.1, unwrap.2), (state.1, state.2));
                    if ahead != behind {
                        ahead
                    } else {
                        visited_board < unwrap.0
                    }
                },
            };

            if is_better {
                best = Some((visited_board, state.1, state.2));
            }
        }
    }

    best
}

} // verus!
