//! The boards of the table and the moves between them: every move of a visited board
//! waits in the queue or is kept in the node of the board it leads to.

use vstd::prelude::*;
use crate::canonical::canonical;
use crate::codec::{Board, EMPTY, player_of};
use crate::counts::{counts_hold, nodes_hold, waiting_for};
use crate::explore::{came_from, visit_step};
use crate::moves::{Entry, is_move_from, lemma_moves_of_sound, moves_of};
use crate::outcome::{Graph, Node, WIN, grown_from};
use crate::rules::{is_state, other_player, winner};
use crate::tally::{
    count_of, lemma_count_of_absent, lemma_count_of_first, lemma_count_of_found,
    lemma_count_of_join, lemma_count_of_member,
};
use crate::verdicts::{is_lost, lemma_lost_unnamed, lemma_unnamed_no_parent};

verus! {

/// Whether every waiting entry holds a board fit to be visited and names no parent
/// without a node.
pub open spec fn queue_holds(graph: Graph, queue: Seq<Entry>) -> bool {
    forall|i: int|
        0 <= i < queue.len() ==> is_state((#[trigger] queue[i]).0) && (queue[i].1 matches Some(
            parent,
        ) ==> graph.contains_key(parent))
}

/// Whether every board with a node is fit to be visited, is in its smallest form where
/// a move led to it, and has as many moves as its node says: none where it is won.
pub open spec fn keys_hold(graph: Graph) -> bool {
    forall|key: Board| #[trigger]
        graph.contains_key(key) ==> {
            &&& is_state(key)
            &&& graph[key].parents.len() > 0 ==> canonical(key) == key
            &&& graph[key].children == if winner(key) != EMPTY {
                0
            } else {
                moves_of(key).len()
            }
        }
}

/// Number of moves of `parent` that lead to `board`, nothing where `parent` is won.
pub open spec fn made(parent: Board, board: Board) -> nat {
    if winner(parent) == EMPTY {
        count_of(moves_of(parent), (board, Some(parent)))
    } else {
        0
    }
}

/// Number of times that the node of `board` names `parent`.
pub open spec fn kept(graph: Graph, board: Board, parent: Board) -> nat {
    if graph.contains_key(board) {
        count_of(graph[board].parents, parent)
    } else {
        0
    }
}

/// Whether every move of every board with a node is accounted for: it waits in the
/// queue, or the node of the board it leads to names where it came from.
pub open spec fn moves_kept(graph: Graph, queue: Seq<Entry>) -> bool {
    forall|board: Board, parent: Board|
        graph.contains_key(parent) ==> made(parent, board) == kept(graph, board, parent)
            + #[trigger] count_of(queue, (board, Some(parent)))
}

/// Whether the nodes hold, the queue holds, the boards hold and the moves are kept.
#[verifier::opaque]
pub open spec fn held(graph: Graph, queue: Seq<Entry>) -> bool {
    &&& nodes_hold(graph)
    &&& queue_holds(graph, queue)
    &&& keys_hold(graph)
    &&& moves_kept(graph, queue)
}

/// The parents that an entry brings hold the parent it names once, and nothing else.
pub proof fn lemma_count_of_one(parent: Option<Board>, board: Board)
    ensures
        count_of(came_from(parent), board) == if parent == Some(board) {
            1nat
        } else {
            0nat
        },
{
    let from = came_from(parent);
    if from.len() > 0 {
        assert(from.drop_last() =~= Seq::<Board>::empty());
        assert(count_of(from.drop_last(), board) == 0);
    }
}

/// A waiting entry that names a parent is a move of that parent.
pub proof fn lemma_entry_is_move(graph: Graph, queue: Seq<Entry>, i: int, parent: Board)
    requires
        held(graph, queue),
        0 <= i < queue.len(),
        queue[i].1 == Some(parent),
    ensures
        winner(parent) == EMPTY,
        moves_of(parent).contains(queue[i]),
        canonical(queue[i].0) == queue[i].0,
{
    reveal(held);
    let board = queue[i].0;
    assert(graph.contains_key(parent));
    lemma_count_of_member(queue, i);
    assert(made(parent, board) == kept(graph, board, parent) + count_of(
        queue,
        (board, Some(parent)),
    ));
    lemma_count_of_found(moves_of(parent), (board, Some(parent)));
    let j = choose|j: int|
        0 <= j < moves_of(parent).len() && moves_of(parent)[j] == (board, Some(parent));
    lemma_moves_of_sound(parent);
    assert(is_move_from(
        moves_of(parent)[j],
        parent,
        player_of(parent),
        other_player(player_of(parent)),
    ));
}

/// A parent that a node names made a move to the board of the node.
pub proof fn lemma_parent_made_move(graph: Graph, queue: Seq<Entry>, board: Board, i: int)
    requires
        nodes_hold(graph),
        moves_kept(graph, queue),
        graph.contains_key(board),
        0 <= i < graph[board].parents.len(),
    ensures
        graph.contains_key(graph[board].parents[i]),
        winner(graph[board].parents[i]) == EMPTY,
        moves_of(graph[board].parents[i]).contains((board, Some(graph[board].parents[i]))),
{
    let parent = graph[board].parents[i];
    assert(graph.contains_key(parent));
    lemma_count_of_member(graph[board].parents, i);
    assert(made(parent, board) == kept(graph, board, parent) + count_of(
        queue,
        (board, Some(parent)),
    ));
    lemma_count_of_found(moves_of(parent), (board, Some(parent)));
}

/// A graph that has only grown keeps what holds of its boards and their moves.
pub proof fn lemma_grown_keeps(graph: Graph, queue: Seq<Entry>, after: Graph)
    requires
        grown_from(after, graph),
        keys_hold(graph),
        moves_kept(graph, queue),
    ensures
        keys_hold(after),
        moves_kept(after, queue),
{
    assert forall|key: Board| #[trigger] after.contains_key(key) implies {
        &&& is_state(key)
        &&& after[key].parents.len() > 0 ==> canonical(key) == key
        &&& after[key].children == if winner(key) != EMPTY {
            0
        } else {
            moves_of(key).len()
        }
    } by {
        assert(graph.contains_key(key));
    }
    assert forall|board: Board, parent: Board| after.contains_key(parent) implies made(
        parent,
        board,
    ) == kept(after, board, parent) + #[trigger] count_of(queue, (board, Some(parent))) by {
        assert(graph.contains_key(parent));
        if graph.contains_key(board) {
            assert(after[board].parents == graph[board].parents);
        }
    }
}

/// What holds of the boards and their moves after a visit of a board that has a node.
pub proof fn lemma_known_kept(graph: Graph, queue: Seq<Entry>)
    requires
        held(graph, queue),
        queue.len() > 0,
        graph.contains_key(queue[0].0),
    ensures
        keys_hold(visit_step(graph, queue).0),
        moves_kept(visit_step(graph, queue).0, visit_step(graph, queue).1),
{
    reveal(held);
    let board = queue[0].0;
    let from = came_from(queue[0].1);
    let rest = queue.subrange(1, queue.len() as int);
    let node = Node { parents: graph[board].parents + from, ..graph[board] };
    let after = graph.insert(board, node);
    if queue[0].1 is Some {
        lemma_entry_is_move(graph, queue, 0, queue[0].1->0);
    }
    assert forall|key: Board| #[trigger] after.contains_key(key) implies {
        &&& is_state(key)
        &&& after[key].parents.len() > 0 ==> canonical(key) == key
        &&& after[key].children == if winner(key) != EMPTY {
            0
        } else {
            moves_of(key).len()
        }
    } by {
        assert(graph.contains_key(key));
    }
    assert forall|other: Board, parent: Board| after.contains_key(parent) implies made(
        parent,
        other,
    ) == kept(after, other, parent) + #[trigger] count_of(rest, (other, Some(parent))) by {
        assert(graph.contains_key(parent));
        assert(made(parent, other) == kept(graph, other, parent) + count_of(
            queue,
            (other, Some(parent)),
        ));
        lemma_count_of_first(queue, (other, Some(parent)));
        if other == board {
            lemma_count_of_join(graph[board].parents, from, parent);
            lemma_count_of_one(queue[0].1, parent);
        }
    }
}

/// What holds of the boards and their moves once a board without a node got one and
/// its moves, if it has any, were put at the end of the queue.
pub proof fn lemma_added_kept(graph: Graph, queue: Seq<Entry>, children: u8, moves: Seq<Entry>)
    requires
        held(graph, queue),
        queue.len() > 0,
        !graph.contains_key(queue[0].0),
        winner(queue[0].0) != EMPTY ==> children == 0 && moves.len() == 0,
        winner(queue[0].0) == EMPTY ==> children == moves_of(queue[0].0).len() && moves
            == moves_of(queue[0].0),
    ensures
        keys_hold(
            graph.insert(
                queue[0].0,
                Node { parents: came_from(queue[0].1), children, outcome: 0 },
            ),
        ),
        moves_kept(
            graph.insert(
                queue[0].0,
                Node { parents: came_from(queue[0].1), children, outcome: 0 },
            ),
            queue.subrange(1, queue.len() as int) + moves,
        ),
{
    reveal(held);
    let board = queue[0].0;
    let from = came_from(queue[0].1);
    let rest = queue.subrange(1, queue.len() as int);
    let node = Node { parents: from, children, outcome: 0 };
    let after = graph.insert(board, node);
    let waiting = rest + moves;
    assert(is_state(board));
    if queue[0].1 is Some {
        lemma_entry_is_move(graph, queue, 0, queue[0].1->0);
    }
    assert forall|key: Board| #[trigger] after.contains_key(key) implies {
        &&& is_state(key)
        &&& after[key].parents.len() > 0 ==> canonical(key) == key
        &&& after[key].children == if winner(key) != EMPTY {
            0
        } else {
            moves_of(key).len()
        }
    } by {
        if key != board {
            assert(graph.contains_key(key));
        }
    }
    if winner(board) == EMPTY {
        lemma_moves_of_sound(board);
    }
    assert forall|other: Board, parent: Board| after.contains_key(parent) implies made(
        parent,
        other,
    ) == kept(after, other, parent) + #[trigger] count_of(waiting, (other, Some(parent))) by {
        let entry = (other, Some(parent));
        lemma_count_of_join(rest, moves, entry);
        lemma_count_of_first(queue, entry);
        if parent == board {
            assert forall|i: int| 0 <= i < queue.len() implies queue[i] != entry by {
                assert(queue[i].1 matches Some(p) ==> graph.contains_key(p));
            }
            lemma_count_of_absent(queue, entry);
            if graph.contains_key(other) {
                assert forall|i: int|
                    0 <= i < graph[other].parents.len() implies graph[other].parents[i]
                    != board by {
                    assert(graph.contains_key(graph[other].parents[i]));
                }
                lemma_count_of_absent(graph[other].parents, board);
            }
            if other == board {
                lemma_count_of_one(queue[0].1, board);
                assert(queue[0].1 matches Some(p) ==> graph.contains_key(p));
            }
            if winner(board) != EMPTY {
                assert(moves =~= Seq::<Entry>::empty());
            }
        } else {
            assert(graph.contains_key(parent));
            assert(made(parent, other) == kept(graph, other, parent) + count_of(queue, entry));
            assert forall|i: int| 0 <= i < moves.len() implies moves[i] != entry by {
                assert(moves[i].1 == Some(board));
            }
            lemma_count_of_absent(moves, entry);
            if other == board {
                lemma_count_of_one(queue[0].1, parent);
            }
        }
    }
}

/// A queue holds an entry no more often than it holds entries of its parent.
pub proof fn lemma_waiting_counts(queue: Seq<Entry>, board: Board, parent: Board)
    ensures
        count_of(queue, (board, Some(parent))) <= waiting_for(queue, parent),
    decreases queue.len(),
{
    if queue.len() > 0 {
        lemma_waiting_counts(queue.drop_last(), board, parent);
    }
}

/// A queue that holds with a graph holds with every graph that has its nodes.
pub proof fn lemma_queue_holds(graph: Graph, queue: Seq<Entry>, after: Graph)
    requires
        queue_holds(graph, queue),
        forall|key: Board| graph.contains_key(key) ==> after.contains_key(key),
    ensures
        queue_holds(after, queue),
{
    assert forall|i: int| 0 <= i < queue.len() implies is_state((#[trigger] queue[i]).0) && (
    queue[i].1 matches Some(parent) ==> after.contains_key(parent)) by {
        assert(queue[i].1 matches Some(parent) ==> graph.contains_key(parent));
    }
}

/// Every move of a lost node leads to a board with a won node.
pub proof fn lemma_lost_moves_won(graph: Graph, queue: Seq<Entry>, key: Board, i: int)
    requires
        held(graph, queue),
        counts_hold(graph, queue, Seq::empty()),
        graph.contains_key(key),
        is_lost(graph[key]),
        winner(key) == EMPTY,
        0 <= i < moves_of(key).len(),
    ensures
        graph.contains_key(moves_of(key)[i].0),
        graph[moves_of(key)[i].0].outcome == WIN,
{
    reveal(held);
    let board = moves_of(key)[i].0;
    lemma_moves_of_sound(key);
    lemma_count_of_member(moves_of(key), i);
    assert(made(key, board) == kept(graph, board, key) + count_of(queue, (board, Some(key))));
    lemma_lost_unnamed(graph, queue, Seq::empty(), key);
    lemma_waiting_counts(queue, board, key);
    if graph[board].outcome != WIN {
        lemma_unnamed_no_parent(graph, key, board);
        lemma_count_of_found(graph[board].parents, key);
    }
}

} // verus!
