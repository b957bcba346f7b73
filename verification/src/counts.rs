//! The count that every node keeps of its losing moves, and why it never runs over:
//! each move of a board is counted at most once.

use vstd::prelude::*;
use crate::codec::Board;
use crate::moves::Entry;
use crate::outcome::{
    Graph, Node, WIN, grown_from, lemma_wave_graph, outcomes_valid, settles, wave_fits,
    wave_graph, wave_next, waves_after,
};
use crate::tally::{
    count_of, lemma_count_of_absent, lemma_count_of_join, lemma_count_of_take,
    lemma_sum_bounds, lemma_sum_point, lemma_sum_zero, sum_all,
};

verus! {

/// Number of waiting entries that name `board` as their parent.
pub open spec fn waiting_for(queue: Seq<Entry>, board: Board) -> nat
    decreases queue.len(),
{
    if queue.len() == 0 {
        0
    } else {
        waiting_for(queue.drop_last(), board) + if queue.last().1 == Some(board) {
            1nat
        } else {
            0nat
        }
    }
}

/// Two queues joined hold as many entries of a parent as both together.
pub proof fn lemma_waiting_for_join(a: Seq<Entry>, b: Seq<Entry>, board: Board)
    ensures
        waiting_for(a + b, board) == waiting_for(a, board) + waiting_for(b, board),
    decreases b.len(),
{
    if b.len() == 0 {
        assert(a + b =~= a);
    } else {
        lemma_waiting_for_join(a, b.drop_last(), board);
        assert((a + b).drop_last() =~= a + b.drop_last());
    }
}

/// A queue holds as many entries of a parent as its first entry and the rest together.
pub proof fn lemma_waiting_for_first(queue: Seq<Entry>, board: Board)
    requires
        queue.len() > 0,
    ensures
        waiting_for(queue, board) == waiting_for(queue.subrange(1, queue.len() as int), board)
            + if queue[0].1 == Some(board) {
            1nat
        } else {
            0nat
        },
{
    let first = queue.subrange(0, 1);
    let rest = queue.subrange(1, queue.len() as int);
    assert(first + rest =~= queue);
    lemma_waiting_for_join(first, rest, board);
    assert(first.drop_last() =~= Seq::<Entry>::empty());
    assert(waiting_for(first.drop_last(), board) == 0);
}

/// Number of times that the node of `key` names `board` as a parent, nothing where the
/// node is won.
pub open spec fn named_by(graph: Graph, board: Board, key: Board) -> int {
    if graph.contains_key(key) && graph[key].outcome != WIN {
        count_of(graph[key].parents, board) as int
    } else {
        0
    }
}

/// Number of times that nodes that are not won name `board` as a parent.
pub open spec fn named(graph: Graph, board: Board) -> int {
    sum_all(|key: Board| named_by(graph, board, key))
}

/// Whether every count leaves room for the moves that may still come to be known as
/// losing: those that lead to a node that is not won, those that wait, and those that
/// stand in the wave.
pub open spec fn counts_hold(graph: Graph, queue: Seq<Entry>, wave: Seq<Board>) -> bool {
    forall|board: Board| #[trigger]
        graph.contains_key(board) && graph[board].outcome != WIN ==> graph[board].outcome
            + named(graph, board) + waiting_for(queue, board) + count_of(wave, board)
            <= graph[board].children
}

/// Whether the nodes of a graph name only boards that have a node, and hold counts of
/// moves that fit.
pub open spec fn nodes_hold(graph: Graph) -> bool {
    &&& outcomes_valid(graph)
    &&& forall|key: Board| #[trigger] graph.contains_key(key) ==> graph[key].children <= 99
    &&& forall|key: Board, i: int| #[trigger]
        graph.contains_key(key) && 0 <= i < graph[key].parents.len() ==> graph.contains_key(
            #[trigger] graph[key].parents[i],
        )
}

/// Whether every board of a wave has a node.
pub open spec fn wave_known(graph: Graph, wave: Seq<Board>) -> bool {
    forall|i: int| 0 <= i < wave.len() ==> graph.contains_key(#[trigger] wave[i])
}

/// A board is named no less than never.
pub proof fn lemma_named_bounds(graph: Graph, board: Board)
    ensures
        named(graph, board) >= 0,
{
    lemma_sum_bounds(|key: Board| named_by(graph, board, key), 0);
}

/// While a wave is carried through, a board is named as often as before, counting the
/// names that a winning wave has handed on.
pub proof fn lemma_wave_named(
    graph: Graph,
    wave: Seq<Board>,
    winning: bool,
    n: nat,
    board: Board,
)
    requires
        n <= wave.len(),
        outcomes_valid(graph),
        wave_fits(graph, wave, winning),
    ensures
        named(wave_graph(graph, wave, winning, n), board) + (if winning {
            count_of(wave_next(graph, wave, winning, n), board)
        } else {
            0
        }) == named(graph, board),
    decreases n,
{
    if n > 0 {
        lemma_wave_named(graph, wave, winning, (n - 1) as nat, board);
        lemma_wave_graph(graph, wave, winning, (n - 1) as nat);
        let before = wave_graph(graph, wave, winning, (n - 1) as nat);
        let next = wave_next(graph, wave, winning, (n - 1) as nat);
        let key = wave[n - 1];
        let after = wave_graph(graph, wave, winning, n);
        assert(graph.contains_key(key));
        assert(before.dom().contains(key));
        lemma_sum_point(
            |k: Board| named_by(before, board, k),
            |k: Board| named_by(after, board, k),
            key,
        );
        if settles(before[key], winning) {
            lemma_count_of_join(next, before[key].parents, board);
        }
        if !winning && before[key].outcome != WIN {
            lemma_count_of_take(wave, key, n as int);
            assert(wave.take(n as int).drop_last() =~= wave.take(n - 1));
        }
    }
}

/// A wave hands on only boards that have a node.
pub proof fn lemma_wave_members(graph: Graph, wave: Seq<Board>, winning: bool, n: nat)
    requires
        n <= wave.len(),
        nodes_hold(graph),
        wave_known(graph, wave),
    ensures
        wave_known(graph, wave_next(graph, wave, winning, n)),
    decreases n,
{
    if n > 0 {
        lemma_wave_members(graph, wave, winning, (n - 1) as nat);
        lemma_wave_graph(graph, wave, winning, (n - 1) as nat);
        let before = wave_graph(graph, wave, winning, (n - 1) as nat);
        let next = wave_next(graph, wave, winning, (n - 1) as nat);
        let key = wave[n - 1];
        assert(graph.contains_key(key));
        let after = wave_next(graph, wave, winning, n);
        assert forall|i: int| 0 <= i < after.len() implies graph.contains_key(
            #[trigger] after[i],
        ) by {
            if i < next.len() {
                assert(after[i] == next[i]);
            } else {
                assert(after[i] == graph[key].parents[i - next.len()]);
            }
        }
    }
}

/// A wave leaves nodes that hold, in a graph that has grown.
pub proof fn lemma_wave_grows(graph: Graph, wave: Seq<Board>, winning: bool)
    requires
        nodes_hold(graph),
        wave_fits(graph, wave, winning),
    ensures
        grown_from(wave_graph(graph, wave, winning, wave.len()), graph),
        nodes_hold(wave_graph(graph, wave, winning, wave.len())),
{
    lemma_wave_graph(graph, wave, winning, wave.len());
    assert(wave.take(wave.len() as int) =~= wave);
    let after = wave_graph(graph, wave, winning, wave.len());
    assert forall|key: Board, i: int| #[trigger]
        after.contains_key(key) && 0 <= i < after[key].parents.len() implies after.contains_key(
        #[trigger] after[key].parents[i],
    ) by {
        assert(graph.contains_key(key));
        assert(graph.contains_key(graph[key].parents[i]));
    }
    assert forall|key: Board| #[trigger] after.contains_key(key) implies after[key].children
        <= 99 && after[key].outcome >= WIN by {
        assert(graph.contains_key(key));
    }
}

/// A winning wave hands the moves that its nodes named over to the wave that follows.
pub proof fn lemma_winning_wave(graph: Graph, queue: Seq<Entry>, wave: Seq<Board>)
    requires
        nodes_hold(graph),
        wave_known(graph, wave),
        counts_hold(graph, queue, Seq::empty()),
    ensures
        wave_fits(graph, wave, true),
        counts_hold(
            wave_graph(graph, wave, true, wave.len()),
            queue,
            wave_next(graph, wave, true, wave.len()),
        ),
{
    let after = wave_graph(graph, wave, true, wave.len());
    let next = wave_next(graph, wave, true, wave.len());
    lemma_wave_graph(graph, wave, true, wave.len());
    assert(wave.take(wave.len() as int) =~= wave);
    assert forall|board: Board| #[trigger]
        after.contains_key(board) && after[board].outcome != WIN implies after[board].outcome
        + named(after, board) + waiting_for(queue, board) + count_of(next, board)
        <= after[board].children by {
        assert(graph.contains_key(board));
        lemma_wave_named(graph, wave, true, wave.len(), board);
        assert(count_of(Seq::<Board>::empty(), board) == 0);
    }
}

/// A losing wave counts the moves that stood in it.
pub proof fn lemma_losing_wave(graph: Graph, queue: Seq<Entry>, wave: Seq<Board>)
    requires
        nodes_hold(graph),
        wave_known(graph, wave),
        counts_hold(graph, queue, wave),
    ensures
        wave_fits(graph, wave, false),
        counts_hold(wave_graph(graph, wave, false, wave.len()), queue, Seq::empty()),
{
    assert forall|key: Board| #[trigger]
        graph.contains_key(key) && graph[key].outcome != WIN implies graph[key].outcome
        + count_of(wave, key) <= i8::MAX by {
        lemma_named_bounds(graph, key);
    }
    let after = wave_graph(graph, wave, false, wave.len());
    lemma_wave_graph(graph, wave, false, wave.len());
    assert(wave.take(wave.len() as int) =~= wave);
    assert forall|board: Board| #[trigger]
        after.contains_key(board) && after[board].outcome != WIN implies after[board].outcome
        + named(after, board) + waiting_for(queue, board) + count_of(
        Seq::<Board>::empty(),
        board,
    ) <= after[board].children by {
        assert(graph.contains_key(board));
        lemma_wave_named(graph, wave, false, wave.len(), board);
        assert(count_of(Seq::<Board>::empty(), board) == 0);
    }
}

/// What holds of a graph and a queue after any number of waves that started from a
/// graph whose counts held: the nodes hold, the graph has grown, the wave is known and
/// fits, and the counts hold, with the wave where it is a losing one.
pub open spec fn waves_hold(graph: Graph, queue: Seq<Entry>, wave: Seq<Board>, n: nat) -> bool {
    let after = waves_after(graph, wave, n);
    &&& nodes_hold(after.0)
    &&& grown_from(after.0, graph)
    &&& wave_known(after.0, after.1)
    &&& wave_fits(after.0, after.1, n % 2 == 0)
    &&& counts_hold(after.0, queue, if n % 2 == 0 {
        Seq::empty()
    } else {
        after.1
    })
}

/// The counts hold after any number of waves.
pub proof fn lemma_waves_hold(graph: Graph, queue: Seq<Entry>, wave: Seq<Board>, n: nat)
    requires
        nodes_hold(graph),
        wave_known(graph, wave),
        counts_hold(graph, queue, Seq::empty()),
    ensures
        waves_hold(graph, queue, wave, n),
    decreases n,
{
    if n == 0 {
        lemma_winning_wave(graph, queue, wave);
    } else {
        lemma_waves_hold(graph, queue, wave, (n - 1) as nat);
        let before = waves_after(graph, wave, (n - 1) as nat);
        let after = waves_after(graph, wave, n);
        let winning = (n - 1) % 2 == 0;
        lemma_wave_grows(before.0, before.1, winning);
        lemma_wave_members(before.0, before.1, winning, before.1.len());
        assert(wave_known(after.0, after.1));
        if winning {
            lemma_winning_wave(before.0, queue, before.1);
            lemma_losing_wave(after.0, queue, after.1);
        } else {
            lemma_losing_wave(before.0, queue, before.1);
            lemma_winning_wave(after.0, queue, after.1);
        }
        assert(grown_from(after.0, graph)) by {
            assert forall|key: Board| #[trigger] graph.contains_key(key) implies {
                &&& after.0[key].parents == graph[key].parents
                &&& after.0[key].children == graph[key].children
                &&& after.0[key].outcome == WIN || (graph[key].outcome != WIN
                    && after.0[key].outcome >= graph[key].outcome)
            } by {
                assert(before.0.contains_key(key));
            }
        }
    }
}

/// A queue without entries of a parent holds none of them.
pub proof fn lemma_waiting_for_none(queue: Seq<Entry>, board: Board)
    requires
        forall|i: int| 0 <= i < queue.len() ==> (#[trigger] queue[i]).1 != Some(board),
    ensures
        waiting_for(queue, board) == 0,
    decreases queue.len(),
{
    if queue.len() > 0 {
        lemma_waiting_for_none(queue.drop_last(), board);
    }
}

/// A queue of entries of one parent holds as many of them as it is long.
pub proof fn lemma_waiting_for_all(queue: Seq<Entry>, board: Board)
    requires
        forall|i: int| 0 <= i < queue.len() ==> (#[trigger] queue[i]).1 == Some(board),
    ensures
        waiting_for(queue, board) == queue.len(),
    decreases queue.len(),
{
    if queue.len() > 0 {
        lemma_waiting_for_all(queue.drop_last(), board);
    }
}

/// A board that stands in no list of parents is not named.
pub proof fn lemma_named_none(graph: Graph, board: Board)
    requires
        forall|key: Board, i: int| #[trigger]
            graph.contains_key(key) && 0 <= i < graph[key].parents.len()
                ==> #[trigger] graph[key].parents[i] != board,
    ensures
        named(graph, board) == 0,
{
    assert forall|key: Board| #[trigger] named_by(graph, board, key) == 0 by {
        if graph.contains_key(key) {
            lemma_count_of_absent(graph[key].parents, board);
        }
    }
    lemma_sum_zero(|key: Board| named_by(graph, board, key));
}

/// Writing one node changes how often a board is named by what that node names.
pub proof fn lemma_named_insert(graph: Graph, key: Board, node: Node, board: Board)
    ensures
        named(graph.insert(key, node), board) - named(graph, board) == named_by(
            graph.insert(key, node),
            board,
            key,
        ) - named_by(graph, board, key),
{
    let after = graph.insert(key, node);
    lemma_sum_point(
        |k: Board| named_by(graph, board, k),
        |k: Board| named_by(after, board, k),
        key,
    );
}

} // verus!
