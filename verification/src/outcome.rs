//! The table of visited boards, and the waves that carry a decided game back to the
//! boards it was reached from.

use vstd::prelude::*;
use std::collections::HashMap;
use crate::codec::Board;
use crate::tally::{count_of, lemma_count_of_take, lemma_sum_bounds, lemma_sum_point, sum_all};

verus! {

broadcast use vstd::std_specs::hash::group_hash_axioms;

/// What is kept of a visited board: the boards it was reached from, the number of its
/// moves, and its outcome (`WIN`, or the number of its moves known to lose).
pub type Record = (Vec<Board>, u8, i8);

/// The outcome of a board whose player can force a win.
pub const WIN: i8 = -1;

/// A record as plain values.
pub struct Node {
    pub parents: Seq<Board>,
    pub children: u8,
    pub outcome: i8,
}

/// A table as plain values.
pub type Graph = Map<Board, Node>;

/// The plain values of a record.
pub open spec fn node_of(record: Record) -> Node {
    Node { parents: record.0@, children: record.1, outcome: record.2 }
}

/// The plain values of a table.
pub open spec fn graph_of(table: Map<Board, Record>) -> Graph {
    Map::new(|key: Board| table.contains_key(key), |key: Board| node_of(table[key]))
}

/// A node after word came that one of its moves leads to a decided board: a won node
/// stays as it is; in a winning wave the node is won; in a losing wave one more of its
/// moves is known to lose.
pub open spec fn notified(node: Node, winning: bool) -> Node {
    if node.outcome == WIN {
        node
    } else if winning {
        Node { outcome: WIN, ..node }
    } else {
        Node { outcome: (node.outcome + 1) as i8, ..node }
    }
}

/// Whether that word decides the node: it was not won before, and now it is won or all
/// its moves are known to lose.
pub open spec fn settles(node: Node, winning: bool) -> bool {
    node.outcome != WIN && (winning || node.outcome + 1 == node.children)
}

/// The graph after the first `n` boards of a wave were notified.
pub open spec fn wave_graph(graph: Graph, wave: Seq<Board>, winning: bool, n: nat) -> Graph
    decreases n,
{
    if n == 0 {
        graph
    } else {
        let before = wave_graph(graph, wave, winning, (n - 1) as nat);
        let key = wave[n - 1];
        before.insert(key, notified(before[key], winning))
    }
}

/// The next wave after the first `n` boards of a wave were notified: the parents of
/// each node that its notification decided, in the order of the wave.
pub open spec fn wave_next(graph: Graph, wave: Seq<Board>, winning: bool, n: nat) -> Seq<Board>
    decreases n,
{
    if n == 0 {
        seq![]
    } else {
        let before = wave_graph(graph, wave, winning, (n - 1) as nat);
        let key = wave[n - 1];
        let next = wave_next(graph, wave, winning, (n - 1) as nat);
        if settles(before[key], winning) {
            next + before[key].parents
        } else {
            next
        }
    }
}

/// Whether every outcome is `WIN` or a count.
pub open spec fn outcomes_valid(graph: Graph) -> bool {
    forall|key: Board| #[trigger] graph.contains_key(key) ==> graph[key].outcome >= WIN
}

/// Whether a wave can be carried through a graph: each of its boards has a node, and in
/// a losing wave each count has room for as many moves as the board stands in the wave.
pub open spec fn wave_fits(graph: Graph, wave: Seq<Board>, winning: bool) -> bool {
    &&& forall|i: int| 0 <= i < wave.len() ==> graph.contains_key(#[trigger] wave[i])
    &&& !winning ==> forall|key: Board| #[trigger]
        graph.contains_key(key) && graph[key].outcome != WIN ==> graph[key].outcome
            + count_of(wave, key) <= i8::MAX
}

/// Whether a later graph has the nodes of an earlier one with the same parents and
/// moves, the won ones still won and no count lower.
pub open spec fn grown_from(later: Graph, earlier: Graph) -> bool {
    &&& later.dom() == earlier.dom()
    &&& forall|key: Board| #[trigger]
        earlier.contains_key(key) ==> {
            &&& later[key].parents == earlier[key].parents
            &&& later[key].children == earlier[key].children
            &&& later[key].outcome == WIN || (earlier[key].outcome != WIN && later[key].outcome
                >= earlier[key].outcome)
        }
}

/// What a wave leaves of the graph, said node by node.
pub proof fn lemma_wave_graph(graph: Graph, wave: Seq<Board>, winning: bool, n: nat)
    requires
        n <= wave.len(),
        forall|i: int| 0 <= i < wave.len() ==> graph.contains_key(#[trigger] wave[i]),
    ensures
        wave_graph(graph, wave, winning, n).dom() == graph.dom(),
        forall|key: Board| #[trigger]
            graph.contains_key(key) ==> {
                let after = wave_graph(graph, wave, winning, n)[key];
                &&& after.parents == graph[key].parents
                &&& after.children == graph[key].children
                &&& graph[key].outcome == WIN ==> after.outcome == WIN
                &&& graph[key].outcome != WIN && winning ==> after.outcome == if count_of(
                    wave.take(n as int),
                    key,
                ) > 0 {
                    WIN
                } else {
                    graph[key].outcome
                }
                &&& graph[key].outcome > WIN && !winning && graph[key].outcome + count_of(
                    wave.take(n as int),
                    key,
                ) <= i8::MAX ==> after.outcome == graph[key].outcome + count_of(
                    wave.take(n as int),
                    key,
                )
            },
    decreases n,
{
    if n > 0 {
        lemma_wave_graph(graph, wave, winning, (n - 1) as nat);
        let before = wave_graph(graph, wave, winning, (n - 1) as nat);
        let key = wave[n - 1];
        assert(graph.contains_key(key));
        assert(before.dom().contains(key));
        assert(wave_graph(graph, wave, winning, n).dom() =~= graph.dom());
        assert(wave.take(n as int).drop_last() =~= wave.take(n - 1));
    } else {
        assert(wave.take(0).len() == 0);
    }
}

/// A number of moves equals a count that is not negative where it does so as a count.
proof fn lemma_count_as_outcome(children: u8, outcome: i8)
    by (bit_vector)
    requires
        outcome >= 0,
    ensures
        ((children as i8) == outcome) == (children == outcome),
{
}

/// Carries one wave through the table. Each board of the wave is notified in turn: a
/// won record stays as it is; in a winning wave the record is won; in a losing wave its
/// count grows by one. The parents of each record that is won, or whose count reaches
/// the number of its moves, by its notification go into the wave that is returned. Every
/// board of the wave must have a record, and the counts must have room.
pub fn modify_parents(
    parents: Vec<u64>,
    parent_is_winner: bool,
    visited: &mut HashMap<Board, (Vec<Board>, u8, i8)>,
) -> (next_parents: Vec<u64>)
    requires
        outcomes_valid(graph_of(old(visited)@)),
        wave_fits(graph_of(old(visited)@), parents@, parent_is_winner),
    ensures
        graph_of(final(visited)@) == wave_graph(
            graph_of(old(visited)@),
            parents@,
            parent_is_winner,
            parents@.len(),
        ),
        next_parents@ == wave_next(
            graph_of(old(visited)@),
            parents@,
            parent_is_winner,
            parents@.len(),
        ),
        final(visited)@.dom() == old(visited)@.dom(),
        outcomes_valid(graph_of(final(visited)@)),
        grown_from(graph_of(final(visited)@), graph_of(old(visited)@)),
        forall|key: Board| #[trigger]
            old(visited)@.contains_key(key) ==> {
                let before = graph_of(old(visited)@)[key];
                let after = graph_of(final(visited)@)[key];
                &&& after.parents == before.parents
                &&& after.children == before.children
                &&& after.outcome == if before.outcome == WIN {
                    WIN as int
                } else if parent_is_winner {
                    if count_of(parents@, key) > 0 {
                        WIN as int
                    } else {
                        before.outcome as int
                    }
                } else {
                    before.outcome + count_of(parents@, key)
                }
            },
{
    let ghost start = graph_of(visited@);
    let ghost wave = parents@;
    let mut next_parents: Vec<u64> = Vec::new();
    let mut i: usize = 0;
    while i < parents.len()
        invariant
            i <= parents.len(),
            wave == parents@,
            outcomes_valid(start),
            wave_fits(start, wave, parent_is_winner),
            visited@.dom() == start.dom(),
            graph_of(visited@) == wave_graph(start, wave, parent_is_winner, i as nat),
            next_parents@ == wave_next(start, wave, parent_is_winner, i as nat),
        decreases parents.len() - i,
    {
        let key = parents[i];
        let ghost before = graph_of(visited@);
        proof {
            lemma_wave_graph(start, wave, parent_is_winner, i as nat);
            lemma_count_of_take(wave, key, i + 1);
            assert(wave.take(i + 1).drop_last() =~= wave.take(i as int));
            assert(start.contains_key(wave[i as int]));
            assert(before.contains_key(key));
            assert(visited@.contains_key(key));
        }
        let state = visited.get(&key).unwrap();
        assert(node_of(*state) == before[key]);
        if state.2 != WIN {
            let new_state: (Vec<u64>, u8, i8) = if parent_is_winner {
                (state.0.clone(), state.1, WIN)
            } else {
                (state.0.clone(), state.1, state.2 + 1)
            };
            assert(new_state.0@ =~= state.0@);
            proof {
                if !parent_is_winner {
                    lemma_count_as_outcome(new_state.1, new_state.2);
                }
            }
            let moves: i8 = #[verifier::truncate]
            (new_state.1 as i8);
            if new_state.2 == WIN || moves == new_state.2 {
                let mut temp = new_state.0.clone();
                assert(temp@ =~= state.0@);
                next_parents.append(&mut temp);
            }
            assert(node_of(new_state) == notified(before[key], parent_is_winner));
            visited.insert(key, new_state);
        }
        proof {
            assert(graph_of(visited@) =~= wave_graph(
                start,
                wave,
                parent_is_winner,
                (i + 1) as nat,
            ));
            assert(visited@.dom() =~= start.dom());
        }
        i += 1;
    }
    proof {
        lemma_wave_graph(start, wave, parent_is_winner, wave.len());
        assert(wave.take(wave.len() as int) =~= wave);
        assert forall|key: Board| #[trigger]
            graph_of(visited@).contains_key(key) implies graph_of(visited@)[key].outcome
            >= WIN by {
            assert(start.contains_key(key));
        }
        assert forall|key: Board| #[trigger] old(visited)@.contains_key(key) implies {
            let before = start[key];
            let after = graph_of(visited@)[key];
            &&& after.parents == before.parents
            &&& after.children == before.children
            &&& after.outcome == if before.outcome == WIN {
                WIN as int
            } else if parent_is_winner {
                if count_of(parents@, key) > 0 {
                    WIN as int
                } else {
                    before.outcome as int
                }
            } else {
                before.outcome + count_of(parents@, key)
            }
        } by {
            assert(start.contains_key(key));
        }
        lemma_wave_grown(start, wave, parent_is_winner);
    }
    next_parents
}

/// The room left in the count of a node, nothing for a board without a node or with a
/// won one.
pub open spec fn room(graph: Graph, key: Board) -> int {
    if graph.contains_key(key) && graph[key].outcome != WIN {
        128 - graph[key].outcome
    } else {
        0
    }
}

/// The room left in all the counts of a graph.
pub open spec fn total_room(graph: Graph) -> int {
    sum_all(|key: Board| room(graph, key))
}

/// The room left is never negative.
proof fn lemma_total_room_bounds(graph: Graph)
    ensures
        total_room(graph) >= 0,
{
    lemma_sum_bounds(|key: Board| room(graph, key), 0);
}

/// A notification takes no room back, and takes some from a node that is not won.
proof fn lemma_notified_room(graph: Graph, key: Board, winning: bool)
    requires
        graph.contains_key(key),
        graph[key].outcome >= WIN,
        !winning && graph[key].outcome != WIN ==> graph[key].outcome < i8::MAX,
    ensures
        total_room(graph.insert(key, notified(graph[key], winning))) <= total_room(graph),
        graph[key].outcome != WIN ==> total_room(graph.insert(key, notified(graph[key], winning)))
            < total_room(graph),
{
    let after = graph.insert(key, notified(graph[key], winning));
    lemma_sum_point(|k: Board| room(graph, k), |k: Board| room(after, k), key);
}

/// A wave takes room from the counts, and some wherever it gives rise to another wave.
pub proof fn lemma_wave_room(graph: Graph, wave: Seq<Board>, winning: bool, n: nat)
    requires
        n <= wave.len(),
        outcomes_valid(graph),
        wave_fits(graph, wave, winning),
    ensures
        total_room(wave_graph(graph, wave, winning, n)) <= total_room(graph),
        wave_next(graph, wave, winning, n).len() > 0 ==> total_room(
            wave_graph(graph, wave, winning, n),
        ) < total_room(graph),
    decreases n,
{
    if n > 0 {
        lemma_wave_room(graph, wave, winning, (n - 1) as nat);
        lemma_wave_graph(graph, wave, winning, (n - 1) as nat);
        let before = wave_graph(graph, wave, winning, (n - 1) as nat);
        let key = wave[n - 1];
        assert(graph.contains_key(key));
        assert(before.dom().contains(key));
        lemma_count_of_take(wave, key, n as int);
        assert(wave.take(n as int).drop_last() =~= wave.take(n - 1));
        lemma_notified_room(before, key, winning);
    }
}

/// The graph and the wave after `n` waves, the first of them a winning one and each
/// next one of the other kind.
pub open spec fn waves_after(graph: Graph, wave: Seq<Board>, n: nat) -> (Graph, Seq<Board>)
    decreases n,
{
    if n == 0 {
        (graph, wave)
    } else {
        let before = waves_after(graph, wave, (n - 1) as nat);
        let winning = (n - 1) % 2 == 0;
        (
            wave_graph(before.0, before.1, winning, before.1.len()),
            wave_next(before.0, before.1, winning, before.1.len()),
        )
    }
}

/// Whether each of the waves that follow one another from a first wave can be carried
/// through the graph that the waves before it left.
pub open spec fn waves_fit(graph: Graph, wave: Seq<Board>) -> bool {
    forall|n: nat|
        wave_fits(
            (#[trigger] waves_after(graph, wave, n)).0,
            waves_after(graph, wave, n).1,
            n % 2 == 0,
        )
}

/// Whether the waves from a first wave have come to rest after `n` of them: the wave
/// that would follow is empty.
pub open spec fn rests_after(graph: Graph, wave: Seq<Board>, n: nat) -> bool {
    waves_after(graph, wave, n).1.len() == 0
}

/// The graph that the waves from a first wave leave once they have come to rest.
pub open spec fn settled(graph: Graph, wave: Seq<Board>) -> Graph {
    waves_after(graph, wave, choose|n: nat| rests_after(graph, wave, n)).0
}

/// Waves that have come to rest stay at rest.
proof fn lemma_rest_stays(graph: Graph, wave: Seq<Board>, n: nat, m: nat)
    requires
        n <= m,
        rests_after(graph, wave, n),
    ensures
        waves_after(graph, wave, m) == waves_after(graph, wave, n),
    decreases m,
{
    if n < m {
        lemma_rest_stays(graph, wave, n, (m - 1) as nat);
    }
}

/// Waves that fit until they have come to rest fit for good.
pub proof fn lemma_waves_fit(graph: Graph, wave: Seq<Board>, n: nat)
    requires
        rests_after(graph, wave, n),
        forall|m: nat|
            m <= n ==> wave_fits(
                (#[trigger] waves_after(graph, wave, m)).0,
                waves_after(graph, wave, m).1,
                m % 2 == 0,
            ),
    ensures
        waves_fit(graph, wave),
{
    assert forall|m: nat|
        wave_fits(
            (#[trigger] waves_after(graph, wave, m)).0,
            waves_after(graph, wave, m).1,
            m % 2 == 0,
        ) by {
        if m > n {
            lemma_rest_stays(graph, wave, n, m);
            let here = waves_after(graph, wave, n);
            assert(wave_fits(here.0, here.1, n % 2 == 0));
            assert forall|key: Board| count_of(here.1, key) == 0 by {
            }
        }
    }
}

/// Waves that have come to rest leave the same graph, however many more are counted.
pub proof fn lemma_settled(graph: Graph, wave: Seq<Board>, n: nat)
    requires
        rests_after(graph, wave, n),
    ensures
        settled(graph, wave) == waves_after(graph, wave, n).0,
{
    let m = choose|m: nat| rests_after(graph, wave, m);
    if n <= m {
        lemma_rest_stays(graph, wave, n, m);
    } else {
        lemma_rest_stays(graph, wave, m, n);
    }
}

/// Waves that can be carried through come to rest: each that gives rise to another takes
/// room from the counts.
pub proof fn lemma_waves_end(graph: Graph, wave: Seq<Board>, n: nat)
    requires
        outcomes_valid(graph),
        waves_fit(graph, wave),
        outcomes_valid(waves_after(graph, wave, n).0),
    ensures
        exists|m: nat| rests_after(graph, wave, m),
    decreases
            2 * total_room(waves_after(graph, wave, n).0) + if waves_after(graph, wave, n).1.len()
                > 0 {
                1int
            } else {
                0int
            },
{
    let here = waves_after(graph, wave, n);
    lemma_total_room_bounds(here.0);
    if here.1.len() == 0 {
        assert(rests_after(graph, wave, n));
    } else {
        let winning = n % 2 == 0;
        assert(wave_fits(here.0, here.1, winning));
        lemma_wave_room(here.0, here.1, winning, here.1.len());
        lemma_wave_grown(here.0, here.1, winning);
        let there = waves_after(graph, wave, n + 1);
        lemma_total_room_bounds(there.0);
        lemma_waves_end(graph, wave, n + 1);
    }
}

/// A wave leaves a graph that has grown from the one it found.
pub proof fn lemma_wave_grown(graph: Graph, wave: Seq<Board>, winning: bool)
    requires
        outcomes_valid(graph),
        wave_fits(graph, wave, winning),
    ensures
        outcomes_valid(wave_graph(graph, wave, winning, wave.len())),
        grown_from(wave_graph(graph, wave, winning, wave.len()), graph),
{
    lemma_wave_graph(graph, wave, winning, wave.len());
    assert(wave.take(wave.len() as int) =~= wave);
    let after = wave_graph(graph, wave, winning, wave.len());
    assert forall|key: Board| #[trigger] after.contains_key(key) implies after[key].outcome
        >= WIN by {
        assert(graph.contains_key(key));
    }
}

/// Waves leave a graph that has grown from the one they found.
pub proof fn lemma_waves_grown(graph: Graph, wave: Seq<Board>, n: nat)
    requires
        outcomes_valid(graph),
        waves_fit(graph, wave),
    ensures
        outcomes_valid(waves_after(graph, wave, n).0),
        grown_from(waves_after(graph, wave, n).0, graph),
    decreases n,
{
    if n > 0 {
        lemma_waves_grown(graph, wave, (n - 1) as nat);
        let before = waves_after(graph, wave, (n - 1) as nat);
        let after = waves_after(graph, wave, n);
        let winning = (n - 1) % 2 == 0;
        assert(wave_fits(before.0, before.1, winning));
        lemma_wave_grown(before.0, before.1, winning);
        assert forall|key: Board| #[trigger] graph.contains_key(key) implies {
            &&& after.0[key].parents == graph[key].parents
            &&& after.0[key].children == graph[key].children
            &&& after.0[key].outcome == WIN || (graph[key].outcome != WIN && after.0[key].outcome
                >= graph[key].outcome)
        } by {
            assert(before.0.contains_key(key));
        }
    }
}

/// Carries a first wave and all the waves it gives rise to through the table, until a
/// wave gives rise to none.
pub fn propagate(parents: Vec<Board>, visited: &mut HashMap<Board, (Vec<Board>, u8, i8)>)
    requires
        outcomes_valid(graph_of(old(visited)@)),
        waves_fit(graph_of(old(visited)@), parents@),
    ensures
        graph_of(final(visited)@) == settled(graph_of(old(visited)@), parents@),
        exists|n: nat|
            #[trigger] rests_after(graph_of(old(visited)@), parents@, n) && graph_of(
                final(visited)@,
            ) == waves_after(graph_of(old(visited)@), parents@, n).0,
        final(visited)@.dom() == old(visited)@.dom(),
        outcomes_valid(graph_of(final(visited)@)),
        grown_from(graph_of(final(visited)@), graph_of(old(visited)@)),
{
    let ghost start = graph_of(visited@);
    let ghost first = parents@;
    let ghost mut n: nat = 0;
    let mut parents = parents;
    let mut parent_is_winner = true;
    proof {
        lemma_total_room_bounds(start);
    }
    while parents.len() > 0
        invariant
            outcomes_valid(start),
            waves_fit(start, first),
            visited@.dom() == old(visited)@.dom(),
            outcomes_valid(graph_of(visited@)),
            waves_after(start, first, n) == (graph_of(visited@), parents@),
            parent_is_winner == (n % 2 == 0),
            total_room(graph_of(visited@)) >= 0,
        decreases
                2 * total_room(graph_of(visited@)) + if parents.len() > 0 {
                    1int
                } else {
                    0int
                },
    {
        proof {
            let before = waves_after(start, first, n);
            assert(wave_fits(before.0, before.1, n % 2 == 0));
            lemma_wave_room(graph_of(visited@), parents@, parent_is_winner, parents@.len());
        }
        parents = modify_parents(parents, parent_is_winner, visited);
        parent_is_winner = !parent_is_winner;
        proof {
            n = n + 1;
            lemma_total_room_bounds(graph_of(visited@));
        }
    }
    proof {
        assert(rests_after(start, first, n));
        lemma_settled(start, first, n);
        lemma_waves_grown(start, first, n);
    }
}

} // verus!
