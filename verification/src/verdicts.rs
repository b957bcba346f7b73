//! What the outcomes say of the game: the player of a won node can force a win, the
//! player of a lost node cannot avoid a loss.

use vstd::prelude::*;
use crate::codec::{Board, EMPTY, player_of};
use crate::counts::{
    counts_hold, lemma_losing_wave, lemma_named_bounds, lemma_wave_grows, lemma_wave_members,
    lemma_winning_wave, named, named_by, nodes_hold, waiting_for, wave_known,
};
use crate::edges::{
    held, lemma_grown_keeps, lemma_lost_moves_won, lemma_parent_made_move,
    lemma_queue_holds,
};
use crate::moves::{Entry, moves_of};
use crate::outcome::{
    Graph, Node, WIN, lemma_wave_graph, settles, wave_graph, wave_next, waves_after,
};
use crate::rules::winner;
use crate::tally::{
    count_of, lemma_count_of_absent, lemma_count_of_found, lemma_count_of_member,
    lemma_count_of_take, lemma_sum_bounds,
};

verus! {

/// Whether the player to move has a way to win within `depth` moves of both players:
/// the board is not won yet, and a move leads to a board that the opponent loses
/// within one move less.
pub open spec fn wins_within(board: Board, depth: nat) -> bool
    decreases depth, 1int,
{
    &&& depth > 0
    &&& winner(board) == EMPTY
    &&& exists|i: int|
        0 <= i < moves_of(board).len() && loses_within(
            (#[trigger] moves_of(board)[i]).0,
            (depth - 1) as nat,
        )
}

/// Whether the player to move has lost within `depth` moves of both players: the
/// opponent has won the board already, or there are moves and every one of them leads
/// to a board that the opponent wins within one move less.
pub open spec fn loses_within(board: Board, depth: nat) -> bool
    decreases depth, 0int,
{
    ||| winner(board) != EMPTY && winner(board) != player_of(board)
    ||| {
        &&& depth > 0
        &&& moves_of(board).len() > 0
        &&& forall|i: int|
            0 <= i < moves_of(board).len() ==> wins_within(
                (#[trigger] moves_of(board)[i]).0,
                (depth - 1) as nat,
            )
    }
}

/// Whether the player to move can force a win.
pub open spec fn forced_win(board: Board) -> bool {
    exists|depth: nat| wins_within(board, depth)
}

/// Whether the player to move cannot avoid a loss.
pub open spec fn forced_loss(board: Board) -> bool {
    exists|depth: nat| loses_within(board, depth)
}

/// What is decided within some number of moves is decided within any larger one.
pub proof fn lemma_within_grows(board: Board, depth: nat, more: nat)
    requires
        depth <= more,
    ensures
        wins_within(board, depth) ==> wins_within(board, more),
        loses_within(board, depth) ==> loses_within(board, more),
    decreases depth,
{
    if wins_within(board, depth) {
        let i = choose|i: int|
            0 <= i < moves_of(board).len() && loses_within(
                (#[trigger] moves_of(board)[i]).0,
                (depth - 1) as nat,
            );
        lemma_within_grows(moves_of(board)[i].0, (depth - 1) as nat, (more - 1) as nat);
    }
    let won = winner(board) != EMPTY && winner(board) != player_of(board);
    if loses_within(board, depth) && !won {
        assert forall|i: int| 0 <= i < moves_of(board).len() implies wins_within(
            (#[trigger] moves_of(board)[i]).0,
            (more - 1) as nat,
        ) by {
            lemma_within_grows(moves_of(board)[i].0, (depth - 1) as nat, (more - 1) as nat);
        }
    }
}

/// Where each of the first `n` moves of a board leads to a board that can be won, all
/// of them lead to boards that can be won within one number of moves.
proof fn lemma_common_depth(board: Board, n: nat) -> (depth: nat)
    requires
        n <= moves_of(board).len(),
        forall|i: int| 0 <= i < n ==> forced_win((#[trigger] moves_of(board)[i]).0),
    ensures
        forall|i: int| 0 <= i < n ==> wins_within((#[trigger] moves_of(board)[i]).0, depth),
    decreases n,
{
    if n == 0 {
        0
    } else {
        let before = lemma_common_depth(board, (n - 1) as nat);
        let last = moves_of(board)[n - 1].0;
        assert(forced_win(last));
        let here = choose|depth: nat| wins_within(last, depth);
        let depth = if before <= here {
            here
        } else {
            before
        };
        lemma_within_grows(last, here, depth);
        assert forall|i: int| 0 <= i < n implies wins_within(
            (#[trigger] moves_of(board)[i]).0,
            depth,
        ) by {
            if i < n - 1 {
                lemma_within_grows(moves_of(board)[i].0, before, depth);
            }
        }
        depth
    }
}

/// Whether every move of a node is known to lose: the node is not won, and its count
/// has reached the number of its moves.
pub open spec fn is_lost(node: Node) -> bool {
    node.outcome != WIN && node.outcome == node.children
}

/// Whether the player of a board is known to lose: the board has a lost node, and it
/// is won on the board or has moves.
pub open spec fn is_beaten(graph: Graph, key: Board) -> bool {
    &&& graph.contains_key(key)
    &&& is_lost(graph[key])
    &&& graph[key].children > 0 || winner(key) != EMPTY
}

/// Whether a board is named as a parent by the node of a beaten board.
pub open spec fn has_beaten_child(graph: Graph, key: Board) -> bool {
    exists|child: Board| #[trigger] is_beaten(graph, child) && graph[child].parents.contains(key)
}

/// Whether every won node is a parent of a beaten one.
pub open spec fn wins_hold(graph: Graph) -> bool {
    forall|key: Board| #[trigger]
        graph.contains_key(key) && graph[key].outcome == WIN ==> has_beaten_child(graph, key)
}

/// Whether every board of a wave is a parent of a beaten one.
pub open spec fn wave_wins(graph: Graph, wave: Seq<Board>) -> bool {
    forall|i: int| 0 <= i < wave.len() ==> has_beaten_child(graph, #[trigger] wave[i])
}

/// Whether the outcomes are true of the game: the player of a won node can force a
/// win, the player of a beaten one cannot avoid a loss.
pub open spec fn verdicts_hold(graph: Graph) -> bool {
    forall|key: Board| #[trigger]
        graph.contains_key(key) ==> {
            &&& graph[key].outcome == WIN ==> forced_win(key)
            &&& is_beaten(graph, key) ==> forced_loss(key)
        }
}

/// Whether the won nodes are parents of beaten ones and the outcomes are true.
#[verifier::opaque]
pub open spec fn judged(graph: Graph) -> bool {
    wins_hold(graph) && verdicts_hold(graph)
}

/// Nothing that may still be counted names a lost node: no node that is not won, no
/// waiting entry, no board of the wave.
pub proof fn lemma_lost_unnamed(graph: Graph, queue: Seq<Entry>, wave: Seq<Board>, key: Board)
    requires
        counts_hold(graph, queue, wave),
        graph.contains_key(key),
        is_lost(graph[key]),
    ensures
        named(graph, key) == 0,
        waiting_for(queue, key) == 0,
        count_of(wave, key) == 0,
{
    lemma_named_bounds(graph, key);
}

/// A board that no node names that is not won is no parent of such a node.
pub proof fn lemma_unnamed_no_parent(graph: Graph, key: Board, child: Board)
    requires
        named(graph, key) == 0,
        graph.contains_key(child),
        graph[child].outcome != WIN,
    ensures
        !graph[child].parents.contains(key),
{
    lemma_sum_bounds(|k: Board| named_by(graph, key, k), child);
    if graph[child].parents.contains(key) {
        let i = choose|i: int|
            0 <= i < graph[child].parents.len() && graph[child].parents[i] == key;
        lemma_count_of_member(graph[child].parents, i);
    }
}

/// Every board that a wave hands on is a parent of a node that the wave decided.
proof fn lemma_wave_next_origin(graph: Graph, wave: Seq<Board>, winning: bool, n: nat, i: int)
    requires
        n <= wave.len(),
        wave_known(graph, wave),
        0 <= i < wave_next(graph, wave, winning, n).len(),
    ensures
        exists|j: int|
            0 <= j < n && settles(
                #[trigger] wave_graph(graph, wave, winning, j as nat)[wave[j]],
                winning,
            ) && graph[wave[j]].parents.contains(wave_next(graph, wave, winning, n)[i]),
    decreases n,
{
    let before = wave_graph(graph, wave, winning, (n - 1) as nat);
    let next = wave_next(graph, wave, winning, (n - 1) as nat);
    let key = wave[n - 1];
    if i < next.len() {
        lemma_wave_next_origin(graph, wave, winning, (n - 1) as nat, i);
        let j = choose|j: int|
            0 <= j < n - 1 && settles(
                #[trigger] wave_graph(graph, wave, winning, j as nat)[wave[j]],
                winning,
            ) && graph[wave[j]].parents.contains(next[i]);
        assert(wave_next(graph, wave, winning, n)[i] == next[i]);
        assert(0 <= j < n && settles(wave_graph(graph, wave, winning, j as nat)[wave[j]], winning)
            && graph[wave[j]].parents.contains(wave_next(graph, wave, winning, n)[i]));
    } else {
        lemma_wave_graph(graph, wave, winning, (n - 1) as nat);
        assert(graph.contains_key(key));
        let j = n - 1;
        assert(wave_next(graph, wave, winning, n)[i] == graph[key].parents[i - next.len()]);
        assert(settles(wave_graph(graph, wave, winning, j as nat)[wave[j]], winning));
        assert(graph[wave[j]].parents.contains(wave_next(graph, wave, winning, n)[i]));
    }
}

/// A lost node comes out of a wave as it went in.
proof fn lemma_lost_stays(
    graph: Graph,
    queue: Seq<Entry>,
    wave: Seq<Board>,
    winning: bool,
    key: Board,
)
    requires
        nodes_hold(graph),
        wave_known(graph, wave),
        counts_hold(graph, queue, if winning {
            Seq::empty()
        } else {
            wave
        }),
        winning ==> wave_wins(graph, wave),
        graph.contains_key(key),
        is_lost(graph[key]),
    ensures
        wave_graph(graph, wave, winning, wave.len())[key] == graph[key],
{
    lemma_wave_graph(graph, wave, winning, wave.len());
    assert(wave.take(wave.len() as int) =~= wave);
    if winning {
        lemma_lost_unnamed(graph, queue, Seq::empty(), key);
        assert forall|i: int| 0 <= i < wave.len() implies wave[i] != key by {
            if wave[i] == key {
                assert(has_beaten_child(graph, wave[i]));
                let child = choose|child: Board| #[trigger]
                    is_beaten(graph, child) && graph[child].parents.contains(key);
                lemma_unnamed_no_parent(graph, key, child);
            }
        }
        lemma_count_of_absent(wave, key);
    } else {
        lemma_lost_unnamed(graph, queue, wave, key);
    }
}

/// A winning wave leaves every won node a parent of a beaten one, and makes only nodes
/// won whose player can force a win.
proof fn lemma_winning_wave_sound(graph: Graph, queue: Seq<Entry>, wave: Seq<Board>)
    requires
        held(graph, queue),
        wave_known(graph, wave),
        counts_hold(graph, queue, Seq::empty()),
        judged(graph),
        wave_wins(graph, wave),
    ensures
        judged(wave_graph(graph, wave, true, wave.len())),
{
    reveal(held);
    reveal(judged);
    let after = wave_graph(graph, wave, true, wave.len());
    lemma_wave_graph(graph, wave, true, wave.len());
    assert(wave.take(wave.len() as int) =~= wave);
    assert forall|key: Board| #[trigger]
        after.contains_key(key) && after[key].outcome == WIN implies has_beaten_child(after, key)
        && forced_win(key) by {
        assert(graph.contains_key(key));
        if graph[key].outcome != WIN {
            assert(count_of(wave, key) > 0);
            lemma_count_of_found(wave, key);
            let i = choose|i: int| 0 <= i < wave.len() && wave[i] == key;
            assert(has_beaten_child(graph, wave[i]));
        }
        assert(has_beaten_child(graph, key));
        let child = choose|child: Board| #[trigger]
            is_beaten(graph, child) && graph[child].parents.contains(key);
        lemma_lost_stays(graph, queue, wave, true, child);
        assert(is_beaten(after, child) && after[child].parents.contains(key));
        if graph[key].outcome != WIN {
            let i = choose|i: int|
                0 <= i < graph[child].parents.len() && graph[child].parents[i] == key;
            lemma_parent_made_move(graph, queue, child, i);
            let j = choose|j: int|
                0 <= j < moves_of(key).len() && moves_of(key)[j] == (child, Some(key));
            assert(forced_loss(child));
            let depth = choose|depth: nat| loses_within(child, depth);
            assert(loses_within(moves_of(key)[j].0, depth));
            assert(wins_within(key, depth + 1));
        }
    }
    assert forall|key: Board| #[trigger] after.contains_key(key) && is_beaten(
        after,
        key,
    ) implies forced_loss(key) by {
        assert(graph.contains_key(key));
        assert(is_beaten(graph, key));
    }
}

/// A losing wave leaves every won node a parent of a beaten one, leaves only nodes
/// beaten whose player cannot avoid a loss, and hands on only parents of nodes that it
/// left beaten.
proof fn lemma_losing_wave_sound(graph: Graph, queue: Seq<Entry>, wave: Seq<Board>)
    requires
        held(graph, queue),
        wave_known(graph, wave),
        counts_hold(graph, queue, wave),
        judged(graph),
    ensures
        judged(wave_graph(graph, wave, false, wave.len())),
        wave_wins(
            wave_graph(graph, wave, false, wave.len()),
            wave_next(graph, wave, false, wave.len()),
        ),
{
    reveal(held);
    reveal(judged);
    let after = wave_graph(graph, wave, false, wave.len());
    let next = wave_next(graph, wave, false, wave.len());
    lemma_wave_graph(graph, wave, false, wave.len());
    assert(wave.take(wave.len() as int) =~= wave);
    lemma_wave_held(graph, queue, wave, false);
    assert forall|key: Board| #[trigger]
        after.contains_key(key) && after[key].outcome == WIN implies has_beaten_child(after, key)
        && forced_win(key) by {
        assert(graph.contains_key(key));
        assert(graph[key].outcome == WIN) by {
            lemma_named_bounds(graph, key);
        }
        assert(has_beaten_child(graph, key));
        let child = choose|child: Board| #[trigger]
            is_beaten(graph, child) && graph[child].parents.contains(key);
        lemma_lost_stays(graph, queue, wave, false, child);
        assert(is_beaten(after, child) && after[child].parents.contains(key));
    }
    assert forall|key: Board| #[trigger] after.contains_key(key) && is_beaten(
        after,
        key,
    ) implies forced_loss(key) by {
        assert(graph.contains_key(key));
        if winner(key) != EMPTY {
            assert(loses_within(key, 0));
        } else if is_beaten(graph, key) {
        } else {
            assert forall|i: int| 0 <= i < moves_of(key).len() implies forced_win(
                (#[trigger] moves_of(key)[i]).0,
            ) by {
                lemma_lost_moves_won(after, queue, key, i);
                let reached = moves_of(key)[i].0;
                assert(graph.contains_key(reached));
                lemma_named_bounds(graph, reached);
                assert(graph[reached].outcome == WIN);
            }
            let depth = lemma_common_depth(key, moves_of(key).len());
            assert(loses_within(key, depth + 1));
        }
    }
    assert forall|i: int| 0 <= i < next.len() implies has_beaten_child(
        after,
        #[trigger] next[i],
    ) by {
        lemma_wave_next_origin(graph, wave, false, wave.len(), i);
        let j = choose|j: int|
            0 <= j < wave.len() && settles(
                #[trigger] wave_graph(graph, wave, false, j as nat)[wave[j]],
                false,
            ) && graph[wave[j]].parents.contains(next[i]);
        let child = wave[j];
        assert(graph.contains_key(child));
        lemma_wave_graph(graph, wave, false, j as nat);
        lemma_count_of_take(wave, child, j + 1);
        assert(wave.take(j + 1).drop_last() =~= wave.take(j));
        lemma_named_bounds(graph, child);
        assert(is_beaten(after, child) && after[child].parents.contains(next[i]));
    }
}

/// What holds after `n` of the waves that start from the parents of a beaten node.
#[verifier::opaque]
spec fn sound_after(graph: Graph, queue: Seq<Entry>, wave: Seq<Board>, n: nat) -> bool {
    let after = waves_after(graph, wave, n);
    &&& held(after.0, queue)
    &&& judged(after.0)
    &&& wave_known(after.0, after.1)
    &&& counts_hold(after.0, queue, if n % 2 == 0 {
        Seq::empty()
    } else {
        after.1
    })
    &&& n % 2 == 0 ==> wave_wins(after.0, after.1)
}

/// A wave leaves the boards and their moves as they were, and the counts in order.
proof fn lemma_wave_held(graph: Graph, queue: Seq<Entry>, wave: Seq<Board>, winning: bool)
    requires
        held(graph, queue),
        wave_known(graph, wave),
        counts_hold(graph, queue, if winning {
            Seq::empty()
        } else {
            wave
        }),
    ensures
        held(wave_graph(graph, wave, winning, wave.len()), queue),
        wave_known(
            wave_graph(graph, wave, winning, wave.len()),
            wave_next(graph, wave, winning, wave.len()),
        ),
        counts_hold(wave_graph(graph, wave, winning, wave.len()), queue, if winning {
            wave_next(graph, wave, winning, wave.len())
        } else {
            Seq::empty()
        }),
{
    reveal(held);
    let after = wave_graph(graph, wave, winning, wave.len());
    if winning {
        lemma_winning_wave(graph, queue, wave);
    } else {
        lemma_losing_wave(graph, queue, wave);
    }
    lemma_wave_grows(graph, wave, winning);
    lemma_wave_members(graph, wave, winning, wave.len());
    lemma_grown_keeps(graph, queue, after);
    lemma_queue_holds(graph, queue, after);
}

/// One more wave leaves what held after the waves before it.
proof fn lemma_sound_step(graph: Graph, queue: Seq<Entry>, wave: Seq<Board>, n: nat)
    requires
        n > 0,
        sound_after(graph, queue, wave, (n - 1) as nat),
    ensures
        sound_after(graph, queue, wave, n),
{
    reveal(sound_after);
    let before = waves_after(graph, wave, (n - 1) as nat);
    if (n - 1) % 2 == 0 {
        lemma_wave_held(before.0, queue, before.1, true);
        lemma_winning_wave_sound(before.0, queue, before.1);
    } else {
        lemma_wave_held(before.0, queue, before.1, false);
        lemma_losing_wave_sound(before.0, queue, before.1);
    }
}

/// What holds before the first wave holds after any number of waves.
proof fn lemma_sound_after(graph: Graph, queue: Seq<Entry>, wave: Seq<Board>, n: nat)
    requires
        sound_after(graph, queue, wave, 0),
    ensures
        sound_after(graph, queue, wave, n),
    decreases n,
{
    if n > 0 {
        lemma_sound_after(graph, queue, wave, (n - 1) as nat);
        lemma_sound_step(graph, queue, wave, n);
    }
}

/// Waves that start from the parents of a beaten node leave the outcomes true.
pub proof fn lemma_waves_sound(graph: Graph, queue: Seq<Entry>, wave: Seq<Board>, n: nat)
    requires
        held(graph, queue),
        wave_known(graph, wave),
        counts_hold(graph, queue, Seq::empty()),
        judged(graph),
        wave_wins(graph, wave),
    ensures
        judged(waves_after(graph, wave, n).0),
        held(waves_after(graph, wave, n).0, queue),
{
    assert(sound_after(graph, queue, wave, 0)) by {
        reveal(sound_after);
    }
    lemma_sound_after(graph, queue, wave, n);
    reveal(sound_after);
}

} // verus!
