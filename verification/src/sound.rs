//! What a search keeps to from visit to visit, and what follows of it.

use vstd::prelude::*;
use crate::codec::{Board, EMPTY};
use crate::counts::{
    counts_hold, lemma_named_bounds, lemma_named_insert, lemma_named_none,
    lemma_waiting_for_all, lemma_waiting_for_first, lemma_waiting_for_join,
    lemma_waiting_for_none, lemma_waves_hold, named, nodes_hold, waiting_for, wave_known,
};
use crate::edges::{
    held, kept, keys_hold, lemma_added_kept, lemma_count_of_one, lemma_known_kept,
    lemma_lost_moves_won, lemma_parent_made_move, made, moves_kept, queue_holds,
};
use crate::explore::{came_from, can_visit, visit_step};
use crate::moves::{Entry, lemma_moves_of_sound, moves_of};
use crate::outcome::{
    Graph, Node, WIN, lemma_settled, lemma_waves_end, lemma_waves_grown,
    outcomes_valid, rests_after, wave_fits, waves_after, waves_fit,
};
use crate::rules::{is_state, winner};
use crate::tally::{count_of, lemma_count_of_found, lemma_count_of_join, lemma_count_of_member};
use crate::verdicts::{
    forced_loss, forced_win, has_beaten_child, is_beaten, is_lost, judged, lemma_waves_sound,
    loses_within,
};

verus! {

/// Whether the nodes, the counts and the queue hold.
pub open spec fn counted(graph: Graph, queue: Seq<Entry>) -> bool {
    &&& nodes_hold(graph)
    &&& counts_hold(graph, queue, Seq::empty())
    &&& queue_holds(graph, queue)
}

/// What a table and a queue keep to while boards are visited: the nodes, the counts
/// and the queue hold, the boards hold, the moves are kept, and the outcomes are true.
pub open spec fn explored(graph: Graph, queue: Seq<Entry>) -> bool {
    &&& counted(graph, queue)
    &&& keys_hold(graph)
    &&& moves_kept(graph, queue)
    &&& judged(graph)
}

/// The rest of a queue holds with every graph that has the nodes it held with.
proof fn lemma_rest_explored(graph: Graph, queue: Seq<Entry>, after: Graph)
    requires
        queue_holds(graph, queue),
        queue.len() > 0,
        forall|key: Board| graph.contains_key(key) ==> after.contains_key(key),
    ensures
        forall|i: int|
            0 <= i < queue.len() - 1 ==> is_state(
                (#[trigger] queue.subrange(1, queue.len() as int)[i]).0,
            ) && (queue.subrange(1, queue.len() as int)[i].1 matches Some(parent)
                ==> after.contains_key(parent)),
{
    let rest = queue.subrange(1, queue.len() as int);
    assert forall|i: int| 0 <= i < rest.len() implies is_state((#[trigger] rest[i]).0) && (
    rest[i].1 matches Some(parent) ==> after.contains_key(parent)) by {
        assert(rest[i] == queue[i + 1]);
    }
}

/// A visit of a board that has a node keeps what the table and the queue keep to.
pub proof fn lemma_known_explored(graph: Graph, queue: Seq<Entry>)
    requires
        explored(graph, queue),
        queue.len() > 0,
        graph.contains_key(queue[0].0),
    ensures
        explored(visit_step(graph, queue).0, visit_step(graph, queue).1),
{
    reveal(judged);
    reveal(held);
    lemma_known_counted(graph, queue);
    lemma_known_kept(graph, queue);
    let board = queue[0].0;
    let from = came_from(queue[0].1);
    let after = visit_step(graph, queue).0;
    assert forall|key: Board| after.contains_key(key) implies is_beaten(after, key) == is_beaten(
        graph,
        key,
    ) by {
        assert(graph.contains_key(key));
    }
    assert forall|key: Board| #[trigger]
        after.contains_key(key) && after[key].outcome == WIN implies has_beaten_child(
        after,
        key,
    ) by {
        assert(graph.contains_key(key));
        assert(has_beaten_child(graph, key));
        let child = choose|child: Board| #[trigger]
            is_beaten(graph, child) && graph[child].parents.contains(key);
        if child == board {
            let i = choose|i: int|
                0 <= i < graph[board].parents.len() && graph[board].parents[i] == key;
            assert((graph[board].parents + from)[i] == key);
        }
        assert(is_beaten(after, child) && after[child].parents.contains(key));
    }
    assert forall|key: Board| #[trigger] after.contains_key(key) implies (after[key].outcome
        == WIN ==> forced_win(key)) && (is_beaten(after, key) ==> forced_loss(key)) by {
        assert(graph.contains_key(key));
    }
}

/// A visit of a board that has a node leaves the counts in order.
proof fn lemma_known_counted(graph: Graph, queue: Seq<Entry>)
    requires
        counted(graph, queue),
        queue.len() > 0,
        graph.contains_key(queue[0].0),
    ensures
        counted(visit_step(graph, queue).0, visit_step(graph, queue).1),
{
    let board = queue[0].0;
    let from = came_from(queue[0].1);
    let rest = queue.subrange(1, queue.len() as int);
    let node = Node { parents: graph[board].parents + from, ..graph[board] };
    let after = graph.insert(board, node);
    assert(queue[0].1 matches Some(parent) ==> graph.contains_key(parent));
    lemma_rest_explored(graph, queue, after);
    assert forall|key: Board, i: int| #[trigger]
        after.contains_key(key) && 0 <= i < after[key].parents.len() implies after.contains_key(
        #[trigger] after[key].parents[i],
    ) by {
        if key == board {
            if i < graph[board].parents.len() {
                assert(after[key].parents[i] == graph[board].parents[i]);
            }
        } else {
            assert(graph.contains_key(graph[key].parents[i]));
        }
    }
    assert forall|key: Board| #[trigger] after.contains_key(key) implies after[key].children
        <= 99 && after[key].outcome >= WIN by {
        assert(graph.contains_key(key));
    }
    assert forall|x: Board| #[trigger]
        after.contains_key(x) && after[x].outcome != WIN implies after[x].outcome + named(
        after,
        x,
    ) + waiting_for(rest, x) + count_of(Seq::<Board>::empty(), x) <= after[x].children by {
        assert(graph.contains_key(x));
        lemma_named_insert(graph, board, node, x);
        lemma_count_of_join(graph[board].parents, from, x);
        lemma_waiting_for_first(queue, x);
        assert(count_of(Seq::<Board>::empty(), x) == 0);
        lemma_count_of_one(queue[0].1, x);
    }
}

/// What holds of the table once a board without a node got one: nothing names the
/// board yet, and the counts hold with the parents of the node counted.
proof fn lemma_node_added(graph: Graph, queue: Seq<Entry>, children: u8)
    requires
        counted(graph, queue),
        queue.len() > 0,
        !graph.contains_key(queue[0].0),
        children <= 99,
    ensures
        nodes_hold(
            graph.insert(
                queue[0].0,
                Node { parents: came_from(queue[0].1), children, outcome: 0 },
            ),
        ),
        forall|x: Board| #[trigger]
            graph.contains_key(x) && graph[x].outcome != WIN ==> graph[x].outcome + named(
                graph.insert(
                    queue[0].0,
                    Node { parents: came_from(queue[0].1), children, outcome: 0 },
                ),
                x,
            ) + waiting_for(queue.subrange(1, queue.len() as int), x) <= graph[x].children,
        named(
            graph.insert(
                queue[0].0,
                Node { parents: came_from(queue[0].1), children, outcome: 0 },
            ),
            queue[0].0,
        ) == 0,
        waiting_for(queue.subrange(1, queue.len() as int), queue[0].0) == 0,
{
    let board = queue[0].0;
    let from = came_from(queue[0].1);
    let rest = queue.subrange(1, queue.len() as int);
    let node = Node { parents: from, children, outcome: 0 };
    let after = graph.insert(board, node);
    assert(queue[0].1 matches Some(parent) ==> graph.contains_key(parent));
    assert forall|key: Board, i: int| #[trigger]
        after.contains_key(key) && 0 <= i < after[key].parents.len() implies after.contains_key(
        #[trigger] after[key].parents[i],
    ) by {
        if key != board {
            assert(graph.contains_key(graph[key].parents[i]));
        }
    }
    assert forall|key: Board| #[trigger] after.contains_key(key) implies after[key].children
        <= 99 && after[key].outcome >= WIN by {
        if key != board {
            assert(graph.contains_key(key));
        }
    }
    assert forall|x: Board| #[trigger]
        graph.contains_key(x) && graph[x].outcome != WIN implies graph[x].outcome + named(
        after,
        x,
    ) + waiting_for(rest, x) <= graph[x].children by {
        lemma_named_insert(graph, board, node, x);
        lemma_waiting_for_first(queue, x);
        assert(count_of(Seq::<Board>::empty(), x) == 0);
        lemma_count_of_one(queue[0].1, x);
    }
    assert forall|key: Board, i: int| #[trigger]
        graph.contains_key(key) && 0 <= i < graph[key].parents.len()
            implies #[trigger] graph[key].parents[i] != board by {
        assert(graph.contains_key(graph[key].parents[i]));
    }
    lemma_named_none(graph, board);
    lemma_named_insert(graph, board, node, board);
    lemma_count_of_one(queue[0].1, board);
    lemma_rest_explored(graph, queue, after);
    assert forall|i: int| 0 <= i < rest.len() implies (#[trigger] rest[i]).1 != Some(board) by {
        assert(rest[i] == queue[i + 1]);
    }
    lemma_waiting_for_none(rest, board);
}

/// A visit of a won board keeps what the table and the queue keep to, and the waves
/// that it sends can be carried through.
pub proof fn lemma_decided_explored(graph: Graph, queue: Seq<Entry>)
    requires
        explored(graph, queue),
        queue.len() > 0,
        !graph.contains_key(queue[0].0),
        winner(queue[0].0) != EMPTY,
    ensures
        explored(visit_step(graph, queue).0, visit_step(graph, queue).1),
        outcomes_valid(
            graph.insert(
                queue[0].0,
                Node { parents: came_from(queue[0].1), children: 0, outcome: 0 },
            ),
        ),
        waves_fit(
            graph.insert(
                queue[0].0,
                Node { parents: came_from(queue[0].1), children: 0, outcome: 0 },
            ),
            came_from(queue[0].1),
        ),
{
    reveal(judged);
    reveal(held);
    let board = queue[0].0;
    let from = came_from(queue[0].1);
    let first = graph.insert(board, Node { parents: from, children: 0, outcome: 0 });
    let rest = queue.subrange(1, queue.len() as int);
    lemma_decided_counted(graph, queue);
    lemma_decided_first(graph, queue);
    lemma_added_kept(graph, queue, 0, Seq::empty());
    assert(rest + Seq::<Entry>::empty() =~= rest);
    lemma_added_judged(graph, queue, 0);
    assert forall|i: int| 0 <= i < from.len() implies has_beaten_child(
        first,
        #[trigger] from[i],
    ) by {
        assert(is_beaten(first, board) && first[board].parents.contains(from[i]));
    }
    lemma_waves_rest(first, from);
    let n = choose|n: nat| rests_after(first, from, n);
    lemma_settled(first, from, n);
    lemma_waves_sound(first, rest, from, n);
}

/// A node that is added leaves the outcomes true.
proof fn lemma_added_judged(graph: Graph, queue: Seq<Entry>, children: u8)
    requires
        judged(graph),
        queue.len() > 0,
        is_state(queue[0].0),
        !graph.contains_key(queue[0].0),
    ensures
        judged(
            graph.insert(
                queue[0].0,
                Node { parents: came_from(queue[0].1), children, outcome: 0 },
            ),
        ),
{
    reveal(judged);
    let board = queue[0].0;
    let after = graph.insert(board, Node { parents: came_from(queue[0].1), children, outcome: 0 });
    assert forall|key: Board| graph.contains_key(key) implies is_beaten(after, key) == is_beaten(
        graph,
        key,
    ) by {
    }
    assert forall|key: Board| #[trigger]
        after.contains_key(key) && after[key].outcome == WIN implies has_beaten_child(
        after,
        key,
    ) by {
        assert(graph.contains_key(key));
        assert(has_beaten_child(graph, key));
        let child = choose|child: Board| #[trigger]
            is_beaten(graph, child) && graph[child].parents.contains(key);
        assert(is_beaten(after, child) && after[child].parents.contains(key));
    }
    assert forall|key: Board| #[trigger] after.contains_key(key) implies (after[key].outcome
        == WIN ==> forced_win(key)) && (is_beaten(after, key) ==> forced_loss(key)) by {
        if key == board {
            if is_beaten(after, key) {
                assert(loses_within(key, 0));
            }
        } else {
            assert(graph.contains_key(key));
        }
    }
}

/// Once a won board got its node, the counts hold, and the first wave is known.
proof fn lemma_decided_first(graph: Graph, queue: Seq<Entry>)
    requires
        counted(graph, queue),
        queue.len() > 0,
        !graph.contains_key(queue[0].0),
    ensures
        counted(
            graph.insert(
                queue[0].0,
                Node { parents: came_from(queue[0].1), children: 0, outcome: 0 },
            ),
            queue.subrange(1, queue.len() as int),
        ),
        wave_known(
            graph.insert(
                queue[0].0,
                Node { parents: came_from(queue[0].1), children: 0, outcome: 0 },
            ),
            came_from(queue[0].1),
        ),
{
    let board = queue[0].0;
    let from = came_from(queue[0].1);
    let rest = queue.subrange(1, queue.len() as int);
    let first = graph.insert(board, Node { parents: from, children: 0, outcome: 0 });
    lemma_node_added(graph, queue, 0);
    lemma_rest_explored(graph, queue, first);
    assert(queue[0].1 matches Some(parent) ==> graph.contains_key(parent));
    assert forall|x: Board| #[trigger]
        first.contains_key(x) && first[x].outcome != WIN implies first[x].outcome + named(
        first,
        x,
    ) + waiting_for(rest, x) + count_of(Seq::<Board>::empty(), x) <= first[x].children by {
        assert(count_of(Seq::<Board>::empty(), x) == 0);
        if x != board {
            assert(graph.contains_key(x));
        }
    }
}

/// A visit of a won board leaves the counts in order, and the waves that it sends can
/// be carried through.
proof fn lemma_decided_counted(graph: Graph, queue: Seq<Entry>)
    requires
        counted(graph, queue),
        queue.len() > 0,
        !graph.contains_key(queue[0].0),
        winner(queue[0].0) != EMPTY,
    ensures
        counted(visit_step(graph, queue).0, visit_step(graph, queue).1),
        outcomes_valid(
            graph.insert(
                queue[0].0,
                Node { parents: came_from(queue[0].1), children: 0, outcome: 0 },
            ),
        ),
        waves_fit(
            graph.insert(
                queue[0].0,
                Node { parents: came_from(queue[0].1), children: 0, outcome: 0 },
            ),
            came_from(queue[0].1),
        ),
{
    let board = queue[0].0;
    let from = came_from(queue[0].1);
    let rest = queue.subrange(1, queue.len() as int);
    let first = graph.insert(board, Node { parents: from, children: 0, outcome: 0 });
    lemma_decided_first(graph, queue);
    assert forall|n: nat|
        wave_fits(
            (#[trigger] waves_after(first, from, n)).0,
            waves_after(first, from, n).1,
            n % 2 == 0,
        ) by {
        lemma_waves_hold(first, rest, from, n);
    }
    lemma_waves_rest(first, from);
    let n = choose|n: nat| rests_after(first, from, n);
    lemma_settled(first, from, n);
    lemma_waves_hold(first, rest, from, n);
    assert(waves_after(first, from, n).1 =~= Seq::<Board>::empty());
    lemma_rest_explored(graph, queue, waves_after(first, from, n).0);
}

/// The waves from a first wave come to rest.
proof fn lemma_waves_rest(graph: Graph, wave: Seq<Board>)
    requires
        outcomes_valid(graph),
        waves_fit(graph, wave),
    ensures
        exists|n: nat| rests_after(graph, wave, n),
{
    lemma_waves_end(graph, wave, 0);
}

/// A visit of a board that nobody has won keeps what the table and the queue keep to.
pub proof fn lemma_expanded_explored(graph: Graph, queue: Seq<Entry>)
    requires
        explored(graph, queue),
        queue.len() > 0,
        !graph.contains_key(queue[0].0),
        winner(queue[0].0) == EMPTY,
    ensures
        explored(visit_step(graph, queue).0, visit_step(graph, queue).1),
        moves_of(queue[0].0).len() <= 99,
{
    reveal(judged);
    reveal(held);
    let board = queue[0].0;
    assert(is_state(board));
    lemma_moves_of_sound(board);
    lemma_expanded_counted(graph, queue);
    lemma_added_kept(graph, queue, moves_of(board).len() as u8, moves_of(board));
    lemma_added_judged(graph, queue, moves_of(board).len() as u8);
}

/// A visit of a board that nobody has won leaves the counts in order.
proof fn lemma_expanded_counted(graph: Graph, queue: Seq<Entry>)
    requires
        counted(graph, queue),
        queue.len() > 0,
        !graph.contains_key(queue[0].0),
        winner(queue[0].0) == EMPTY,
    ensures
        counted(visit_step(graph, queue).0, visit_step(graph, queue).1),
{
    let board = queue[0].0;
    let from = came_from(queue[0].1);
    let rest = queue.subrange(1, queue.len() as int);
    let moves = moves_of(board);
    assert(is_state(board));
    lemma_moves_of_sound(board);
    let children = moves.len() as u8;
    let node = Node { parents: from, children, outcome: 0 };
    let after = graph.insert(board, node);
    lemma_node_added(graph, queue, children);
    lemma_rest_explored(graph, queue, after);
    let waiting = rest + moves;
    assert forall|i: int| 0 <= i < waiting.len() implies is_state((#[trigger] waiting[i]).0) && (
    waiting[i].1 matches Some(parent) ==> after.contains_key(parent)) by {
        if i < rest.len() {
            assert(waiting[i] == rest[i]);
        } else {
            assert(waiting[i] == moves[i - rest.len()]);
        }
    }
    assert forall|x: Board| #[trigger]
        after.contains_key(x) && after[x].outcome != WIN implies after[x].outcome + named(
        after,
        x,
    ) + waiting_for(waiting, x) + count_of(Seq::<Board>::empty(), x) <= after[x].children by {
        assert(count_of(Seq::<Board>::empty(), x) == 0);
        lemma_waiting_for_join(rest, moves, x);
        if x == board {
            lemma_waiting_for_all(moves, board);
        } else {
            assert(graph.contains_key(x));
            lemma_waiting_for_none(moves, x);
        }
    }
}

/// Every visit keeps what the table and the queue keep to.
pub proof fn lemma_visit_step_explored(graph: Graph, queue: Seq<Entry>)
    requires
        explored(graph, queue),
    ensures
        explored(visit_step(graph, queue).0, visit_step(graph, queue).1),
{
    if queue.len() > 0 {
        if graph.contains_key(queue[0].0) {
            lemma_known_explored(graph, queue);
        } else if winner(queue[0].0) != EMPTY {
            lemma_decided_explored(graph, queue);
        } else {
            lemma_expanded_explored(graph, queue);
        }
    }
}

/// Once the queue is empty, every move of every board with a node leads to a board
/// with a node that names where the move came from.
pub proof fn lemma_all_moves_visited(graph: Graph, queue: Seq<Entry>, parent: Board, i: int)
    requires
        explored(graph, queue),
        queue.len() == 0,
        graph.contains_key(parent),
        winner(parent) == EMPTY,
        0 <= i < moves_of(parent).len(),
    ensures
        graph.contains_key(moves_of(parent)[i].0),
        graph[moves_of(parent)[i].0].parents.contains(parent),
{
    let board = moves_of(parent)[i].0;
    lemma_moves_of_sound(parent);
    lemma_count_of_member(moves_of(parent), i);
    assert(made(parent, board) == kept(graph, board, parent) + count_of(
        queue,
        (board, Some(parent)),
    ));
    lemma_count_of_found(graph[board].parents, parent);
}

/// A won node has a move to a beaten board: its player can move there and leave the
/// opponent with losing moves only.
pub proof fn lemma_won_has_winning_move(graph: Graph, queue: Seq<Entry>, key: Board)
    requires
        explored(graph, queue),
        graph.contains_key(key),
        graph[key].outcome == WIN,
    ensures
        winner(key) == EMPTY,
        exists|child: Board| #[trigger]
            is_beaten(graph, child) && moves_of(key).contains((child, Some(key))),
{
    reveal(judged);
    assert(has_beaten_child(graph, key));
    let child = choose|child: Board| #[trigger]
        is_beaten(graph, child) && graph[child].parents.contains(key);
    let i = choose|i: int| 0 <= i < graph[child].parents.len() && graph[child].parents[i] == key;
    lemma_parent_made_move(graph, queue, child, i);
    assert(is_beaten(graph, child) && moves_of(key).contains((child, Some(key))));
}

/// Every move of a lost node leads to a board with a won node: whatever its player
/// does, the opponent can win.
pub proof fn lemma_lost_has_only_won_moves(graph: Graph, queue: Seq<Entry>, key: Board, i: int)
    requires
        explored(graph, queue),
        graph.contains_key(key),
        is_lost(graph[key]),
        winner(key) == EMPTY,
        0 <= i < moves_of(key).len(),
    ensures
        graph.contains_key(moves_of(key)[i].0),
        graph[moves_of(key)[i].0].outcome == WIN,
{
    reveal(held);
    lemma_lost_moves_won(graph, queue, key, i);
}

/// A board that is won on the board has a lost node without moves.
pub proof fn lemma_won_board_is_lost(graph: Graph, queue: Seq<Entry>, key: Board)
    requires
        explored(graph, queue),
        graph.contains_key(key),
        winner(key) != EMPTY,
    ensures
        graph[key].children == 0,
        graph[key].outcome == 0,
{
    if graph[key].outcome == WIN {
        lemma_won_has_winning_move(graph, queue, key);
    }
    lemma_named_bounds(graph, key);
}

/// The player of a won node can force a win.
pub proof fn lemma_won_is_forced_win(graph: Graph, queue: Seq<Entry>, key: Board)
    requires
        explored(graph, queue),
        graph.contains_key(key),
        graph[key].outcome == WIN,
    ensures
        forced_win(key),
{
    reveal(judged);
}

/// The player of a lost node that has moves, or whose board is won, cannot avoid a
/// loss.
pub proof fn lemma_beaten_is_forced_loss(graph: Graph, queue: Seq<Entry>, key: Board)
    requires
        explored(graph, queue),
        is_beaten(graph, key),
    ensures
        forced_loss(key),
{
    reveal(judged);
    assert(graph.contains_key(key));
}

/// Whether a later graph keeps what an earlier one held: every node is still there,
/// with the parents it had before any new ones, the same number of moves, won if it
/// was won, and no lower count.
pub open spec fn extends(later: Graph, earlier: Graph) -> bool {
    forall|key: Board| #[trigger]
        earlier.contains_key(key) ==> {
            &&& later.contains_key(key)
            &&& earlier[key].parents.is_prefix_of(later[key].parents)
            &&& later[key].children == earlier[key].children
            &&& later[key].outcome == WIN || (earlier[key].outcome != WIN && later[key].outcome
                >= earlier[key].outcome)
        }
}

/// A table and a queue that keep to what a search keeps to can be visited.
pub proof fn lemma_explored_can_visit(graph: Graph, queue: Seq<Entry>)
    requires
        explored(graph, queue),
    ensures
        can_visit(graph, queue),
{
    if queue.len() > 0 {
        assert(is_state(queue[0].0));
        if !graph.contains_key(queue[0].0) && winner(queue[0].0) != EMPTY {
            lemma_decided_explored(graph, queue);
        }
    }
}

/// A visit keeps what the table held.
pub proof fn lemma_visit_step_extends(graph: Graph, queue: Seq<Entry>)
    requires
        can_visit(graph, queue),
    ensures
        extends(visit_step(graph, queue).0, graph),
{
    let after = visit_step(graph, queue).0;
    if queue.len() > 0 {
        let board = queue[0].0;
        let from = came_from(queue[0].1);
        if !graph.contains_key(board) && winner(board) != EMPTY {
            let first = graph.insert(board, Node { parents: from, children: 0, outcome: 0 });
            assert forall|key: Board| #[trigger] first.contains_key(key) implies first[key].outcome
                >= WIN by {
                if key != board {
                    assert(graph.contains_key(key));
                }
            }
            lemma_waves_rest(first, from);
            let n = choose|n: nat| rests_after(first, from, n);
            lemma_settled(first, from, n);
            lemma_waves_grown(first, from, n);
            assert forall|key: Board| #[trigger] graph.contains_key(key) implies {
                &&& after.contains_key(key)
                &&& graph[key].parents.is_prefix_of(after[key].parents)
                &&& after[key].children == graph[key].children
                &&& after[key].outcome == WIN || (graph[key].outcome != WIN && after[key].outcome
                    >= graph[key].outcome)
            } by {
                assert(first.contains_key(key));
            }
        }
    }
}

} // verus!
