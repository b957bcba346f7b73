//! Visiting the boards that can be reached, breadth first, each once.

use vstd::prelude::*;
use std::collections::HashMap;
use std::collections::VecDeque;
use crate::canonical::{canonical, lemma_canonical_idempotent, lemma_turn_lines, normalize_board};
use crate::codec::{
    Board, Position, Square, BLUE, EMPTY, LARGE, MEDIUM, ORANGE, SMALL, encoded,
    get_board_player, lemma_empty_board, lemma_encode_decoded, set_board_player,
    set_board_square, square_at, squares_of,
};
use crate::moves::{Entry, add_moved_items, add_new_items, moves_of};
use crate::outcome::{
    Graph, Node, WIN, graph_of, lemma_settled, outcomes_valid, propagate, rests_after,
    settled, waves_fit,
};
use crate::rules::{
    get_opponent, get_winner, is_state, lemma_only_winner, line_color_at, lines,
    lines_show_only, top_color_at, winner,
};
use crate::sound::{
    explored, extends, lemma_beaten_is_forced_loss, lemma_explored_can_visit,
    lemma_visit_step_explored, lemma_visit_step_extends, lemma_won_is_forced_win,
};
use crate::tally::count_of;
use crate::verdicts::{forced_loss, forced_win, is_beaten, judged};

verus! {

broadcast use vstd::std_specs::hash::group_hash_axioms;

/// The parents that an entry brings to the node of its board.
pub open spec fn came_from(parent: Option<Board>) -> Seq<Board> {
    match parent {
        Some(parent) => seq![parent],
        None => seq![],
    }
}

/// What became of an entry that was taken from the queue.
#[derive(Clone, Copy, Debug, PartialEq, Eq, Structural)]
pub enum Visit {
    /// Its board had a node already, which now names the entry's parent too.
    Known,
    /// Its board is won: it got a node without moves, and word went back to its parents.
    Decided,
    /// Its board got a node, and its moves wait in the queue.
    Expanded,
}

/// The kind of visit that the first entry of a queue gets, none where the queue is
/// empty.
pub open spec fn visit_of(graph: Graph, queue: Seq<Entry>) -> Option<Visit> {
    if queue.len() == 0 {
        None
    } else if graph.contains_key(queue[0].0) {
        Some(Visit::Known)
    } else if winner(queue[0].0) != EMPTY {
        Some(Visit::Decided)
    } else {
        Some(Visit::Expanded)
    }
}

/// The graph and the queue after the first entry of the queue was visited.
pub open spec fn visit_step(graph: Graph, queue: Seq<Entry>) -> (Graph, Seq<Entry>) {
    if queue.len() == 0 {
        (graph, queue)
    } else {
        let board = queue[0].0;
        let from = came_from(queue[0].1);
        let rest = queue.subrange(1, queue.len() as int);
        if graph.contains_key(board) {
            (
                graph.insert(board, Node { parents: graph[board].parents + from, ..graph[board] }),
                rest,
            )
        } else if winner(board) != EMPTY {
            (
                settled(graph.insert(board, Node { parents: from, children: 0, outcome: 0 }), from),
                rest,
            )
        } else {
            (
                graph.insert(
                    board,
                    Node { parents: from, children: moves_of(board).len() as u8, outcome: 0 },
                ),
                rest + moves_of(board),
            )
        }
    }
}

/// Whether the first entry of a queue can be visited: its board is fit to be visited,
/// and where the board is won and has no node, the outcomes of the graph are `WIN` or
/// counts and the waves that go back from the board can be carried through. An empty
/// queue can always be visited.
pub open spec fn can_visit(graph: Graph, queue: Seq<Entry>) -> bool {
    queue.len() > 0 ==> {
        &&& is_state(queue[0].0)
        &&& !graph.contains_key(queue[0].0) && winner(queue[0].0) != EMPTY ==> {
            &&& outcomes_valid(graph)
            &&& waves_fit(
                graph.insert(
                    queue[0].0,
                    Node { parents: came_from(queue[0].1), children: 0, outcome: 0 },
                ),
                came_from(queue[0].1),
            )
        }
    }
}

/// Takes the first entry from the queue and visits its board. A board that has a
/// record gets the entry's parent added to it. A board that is won gets a record
/// without moves, and word is carried back from it. Any other board gets a record with
/// the number of its moves, which are put at the end of the queue. The table keeps what
/// it held, and a table and a queue that kept to what a search keeps to still do.
pub fn visit_next(
    visited: &mut HashMap<Board, (Vec<Board>, u8, i8)>,
    to_visit: &mut VecDeque<(Board, Option<Board>)>,
) -> (visit: Option<Visit>)
    requires
        can_visit(graph_of(old(visited)@), old(to_visit)@),
    ensures
        visit == visit_of(graph_of(old(visited)@), old(to_visit)@),
        (graph_of(final(visited)@), final(to_visit)@) == visit_step(
            graph_of(old(visited)@),
            old(to_visit)@,
        ),
        extends(graph_of(final(visited)@), graph_of(old(visited)@)),
        explored(graph_of(old(visited)@), old(to_visit)@) ==> explored(
            graph_of(final(visited)@),
            final(to_visit)@,
        ),
{
    let ghost graph = graph_of(visited@);
    let ghost queue = to_visit@;
    proof {
        if explored(graph, queue) {
            lemma_visit_step_explored(graph, queue);
        }
        lemma_visit_step_extends(graph, queue);
    }
    let state_option = to_visit.pop_front();
    if state_option.is_none() {
        assert(to_visit@ =~= queue);
        return None;
    }
    let (board, parent) = state_option.unwrap();
    let ghost rest = queue.subrange(1, queue.len() as int);
    let ghost from = came_from(parent);
    assert(is_state(queue[0].0));
    let playing = get_board_player(board);
    let opponent = get_opponent(playing);

    if visited.contains_key(&board) {
        let state = visited.get(&board).unwrap();
        let mut new_parents = state.0.clone();
        assert(new_parents@ =~= state.0@);
        if parent.is_some() {
            new_parents.push(parent.unwrap());
        }
        assert(new_parents@ =~= graph[board].parents + from);
        let new_state = (new_parents, state.1, state.2);
        visited.insert(board, new_state);
        assert(graph_of(visited@) =~= visit_step(graph, queue).0);
        return Some(Visit::Known);
    }
    let winner = get_winner(board);
    if winner != EMPTY {
        assert(winner != playing);
        let mut parents: Vec<Board> = Vec::new();
        if parent.is_some() {
            parents.push(parent.unwrap());
        }
        assert(parents@ =~= from);
        let kept = parents.clone();
        assert(kept@ =~= from);
        visited.insert(board, (kept, 0, 0));
        let ghost first = graph.insert(board, Node { parents: from, children: 0, outcome: 0 });
        proof {
            assert(graph_of(visited@) =~= first);
            assert forall|key: Board| #[trigger] first.contains_key(key) implies first[key].outcome
                >= WIN by {
                if key != board {
                    assert(graph.contains_key(key));
                }
            }
        }
        propagate(parents, visited);
        return Some(Visit::Decided);
    }
    let mut num_of_children = add_new_items(board, playing, opponent, to_visit);
    num_of_children += add_moved_items(board, playing, opponent, to_visit);

    let mut parents: Vec<Board> = Vec::new();
    if parent.is_some() {
        parents.push(parent.unwrap());
    }
    assert(parents@ =~= from);
    visited.insert(board, (parents, num_of_children, 0));
    proof {
        assert(to_visit@ =~= rest + moves_of(board));
        assert(graph_of(visited@) =~= visit_step(graph, queue).0);
    }
    Some(Visit::Expanded)
}

/// What a search leaves: the table of the visited boards, the entries that still
/// wait, how many of the visited entries held a won board or a board that had a record,
/// and whether the queue ran empty within the limit.
pub struct Exploration {
    /// The record of every board that was visited.
    pub visited: HashMap<Board, (Vec<Board>, u8, i8)>,
    /// The entries that were not visited.
    pub to_visit: VecDeque<(Board, Option<Board>)>,
    /// Number of visits that found a won board.
    pub winners: u64,
    /// Number of visits that found a board with a record.
    pub same: u64,
    /// Whether the queue was found empty before the limit was reached.
    pub done: bool,
}

/// The graph and the queue of a search from `initial` after `n` visits. Nothing
/// changes once the queue is empty.
pub open spec fn explore_after(initial: Board, n: nat) -> (Graph, Seq<Entry>)
    decreases n,
{
    if n == 0 {
        (Map::empty(), seq![(initial, None::<Board>)])
    } else {
        let before = explore_after(initial, (n - 1) as nat);
        visit_step(before.0, before.1)
    }
}

/// Number of the first `n` visits of a search from `initial` that were of one kind.
pub open spec fn visits_of_kind(initial: Board, kind: Visit, n: nat) -> nat
    decreases n,
{
    if n == 0 {
        0
    } else {
        let before = explore_after(initial, (n - 1) as nat);
        visits_of_kind(initial, kind, (n - 1) as nat) + if visit_of(before.0, before.1) == Some(
            kind,
        ) {
            1nat
        } else {
            0nat
        }
    }
}

/// Once the queue is empty further visits change nothing.
proof fn lemma_explore_rests(initial: Board, n: nat, m: nat, kind: Visit)
    requires
        n <= m,
        explore_after(initial, n).1.len() == 0,
    ensures
        explore_after(initial, m) == explore_after(initial, n),
        visits_of_kind(initial, kind, m) == visits_of_kind(initial, kind, n),
    decreases m,
{
    if n < m {
        lemma_explore_rests(initial, n, (m - 1) as nat, kind);
    }
}

/// No more visits are of one kind than there are visits.
proof fn lemma_visits_bound(initial: Board, kind: Visit, n: nat)
    ensures
        visits_of_kind(initial, kind, n) <= n,
    decreases n,
{
    if n > 0 {
        lemma_visits_bound(initial, kind, (n - 1) as nat);
    }
}

/// A search keeps, visit after visit, what the table and the queue keep to.
pub proof fn lemma_explore_explored(initial: Board, n: nat)
    requires
        is_state(initial),
    ensures
        explored(explore_after(initial, n).0, explore_after(initial, n).1),
    decreases n,
{
    if n == 0 {
        let graph = Map::<Board, Node>::empty();
        let queue = seq![(initial, None::<Board>)];
        assert(count_of(Seq::<Board>::empty(), 0) == 0);
        reveal(judged);
        assert(explored(graph, queue));
    } else {
        lemma_explore_explored(initial, (n - 1) as nat);
        let before = explore_after(initial, (n - 1) as nat);
        lemma_visit_step_explored(before.0, before.1);
    }
}

/// A search keeps, visit after visit, what the table held.
pub proof fn lemma_explore_extends(initial: Board, n: nat, m: nat)
    requires
        is_state(initial),
        n <= m,
    ensures
        extends(explore_after(initial, m).0, explore_after(initial, n).0),
    decreases m,
{
    if n < m {
        lemma_explore_extends(initial, n, (m - 1) as nat);
        lemma_explore_explored(initial, (m - 1) as nat);
        let before = explore_after(initial, (m - 1) as nat);
        lemma_explored_can_visit(before.0, before.1);
        lemma_visit_step_extends(before.0, before.1);
        let start = explore_after(initial, n).0;
        let after = explore_after(initial, m).0;
        assert forall|key: Board| #[trigger] start.contains_key(key) implies {
            &&& after.contains_key(key)
            &&& start[key].parents.is_prefix_of(after[key].parents)
            &&& after[key].children == start[key].children
            &&& after[key].outcome == WIN || (start[key].outcome != WIN && after[key].outcome
                >= start[key].outcome)
        } by {
            assert(before.0.contains_key(key));
        }
    }
}

/// Once the start was visited it has a node.
pub proof fn lemma_start_visited(initial: Board, n: nat)
    requires
        is_state(initial),
        n > 0,
    ensures
        explore_after(initial, n).0.contains_key(initial),
{
    reveal_with_fuel(explore_after, 2);
    let graph = Map::<Board, Node>::empty();
    let queue = seq![(initial, None::<Board>)];
    assert(explore_after(initial, 1) == visit_step(graph, queue));
    if winner(initial) != EMPTY {
        let first = graph.insert(initial, Node { parents: seq![], children: 0, outcome: 0 });
        assert(came_from(queue[0].1) =~= Seq::<Board>::empty());
        assert(rests_after(first, Seq::<Board>::empty(), 0));
        lemma_settled(first, Seq::<Board>::empty(), 0);
    }
    assert(explore_after(initial, 1).0.contains_key(initial));
    lemma_explore_extends(initial, 1, n);
}

/// Searches from `initial`, breadth first, until the queue is empty or `limit` entries
/// were visited. Whatever the limit, the outcomes that the table holds are true: the
/// player of a won board can force a win, and the player of a lost board that has moves,
/// or is won on the board, cannot avoid a loss.
pub fn explore(initial: Board, limit: u64) -> (found: Exploration)
    requires
        is_state(initial),
    ensures
        (graph_of(found.visited@), found.to_visit@) == explore_after(initial, limit as nat),
        found.winners == visits_of_kind(initial, Visit::Decided, limit as nat),
        found.same == visits_of_kind(initial, Visit::Known, limit as nat),
        explored(graph_of(found.visited@), found.to_visit@),
        limit > 0 ==> found.visited@.contains_key(initial),
        found.done == (limit > 0 && explore_after(initial, (limit - 1) as nat).1.len() == 0),
        forall|key: Board| #[trigger]
            found.visited@.contains_key(key) ==> {
                &&& found.visited@[key].2 == WIN ==> forced_win(key)
                &&& is_beaten(graph_of(found.visited@), key) ==> forced_loss(key)
            },
{
    let mut visited: HashMap<Board, (Vec<Board>, u8, i8)> = HashMap::new();
    let mut to_visit: VecDeque<(Board, Option<Board>)> = VecDeque::new();
    to_visit.push_back((initial, None));
    let mut winners: u64 = 0;
    let mut same: u64 = 0;
    let mut visits: u64 = 0;
    let mut done = false;
    proof {
        assert(graph_of(visited@) =~= Map::<Board, Node>::empty());
        assert(to_visit@ =~= seq![(initial, None::<Board>)]);
        lemma_explore_explored(initial, 0);
    }
    while visits < limit && !done
        invariant
            visits <= limit,
            (graph_of(visited@), to_visit@) == explore_after(initial, visits as nat),
            winners == visits_of_kind(initial, Visit::Decided, visits as nat),
            same == visits_of_kind(initial, Visit::Known, visits as nat),
            explored(graph_of(visited@), to_visit@),
            done ==> visits < limit && to_visit@.len() == 0,
            !done && visits > 0 ==> explore_after(initial, (visits - 1) as nat).1.len() > 0,
        decreases
                limit - visits + if done {
                    0int
                } else {
                    1int
                },
    {
        proof {
            lemma_visits_bound(initial, Visit::Decided, visits as nat);
            lemma_visits_bound(initial, Visit::Known, visits as nat);
            lemma_explored_can_visit(graph_of(visited@), to_visit@);
        }
        match visit_next(&mut visited, &mut to_visit) {
            None => {
                done = true;
            },
            Some(Visit::Known) => {
                same += 1;
                visits += 1;
            },
            Some(Visit::Decided) => {
                winners += 1;
                visits += 1;
            },
            Some(Visit::Expanded) => {
                visits += 1;
            },
        }
    }
    proof {
        if visits < limit {
            lemma_explore_rests(initial, visits as nat, limit as nat, Visit::Decided);
            lemma_explore_rests(initial, visits as nat, limit as nat, Visit::Known);
            lemma_explore_rests(initial, visits as nat, (limit - 1) as nat, Visit::Known);
        }
        if limit > 0 {
            lemma_start_visited(initial, limit as nat);
        }
        assert forall|key: Board| #[trigger] visited@.contains_key(key) implies {
            &&& visited@[key].2 == WIN ==> forced_win(key)
            &&& is_beaten(graph_of(visited@), key) ==> forced_loss(key)
        } by {
            if visited@[key].2 == WIN {
                lemma_won_is_forced_win(graph_of(visited@), to_visit@, key);
            }
            if is_beaten(graph_of(visited@), key) {
                lemma_beaten_is_forced_loss(graph_of(visited@), to_visit@, key);
            }
        }
    }
    Exploration { visited, to_visit, winners, same, done }
}

/// The squares of the board from which the search starts, by cell.
pub open spec fn initial_squares() -> Seq<Square> {
    seq![16u8, 0u8, 9u8, 8u8, 4u8, 38u8, 0u8, 16u8, 32u8]
}

/// The board from which the search starts, with orange to move, in its smallest form.
pub fn get_initial_board() -> (board: Board)
    ensures
        board == canonical(encoded(ORANGE, initial_squares())),
        is_state(board),
        winner(board) == EMPTY,
{
    let mut board: Board = 0;
    proof {
        lemma_empty_board();
        assert(squares_of(0) =~= seq![0u8, 0u8, 0u8, 0u8, 0u8, 0u8, 0u8, 0u8, 0u8]);
    }

    board = set_board_square(board, 0, LARGE * ORANGE);
    board = set_board_square(board, 5, SMALL * BLUE + MEDIUM * ORANGE + LARGE * BLUE);
    board = set_board_square(board, 2, SMALL * ORANGE + MEDIUM * BLUE);
    board = set_board_square(board, 8, LARGE * BLUE);
    board = set_board_square(board, 4, MEDIUM * ORANGE);
    board = set_board_square(board, 7, LARGE * ORANGE);
    board = set_board_square(board, 3, MEDIUM * BLUE);

    board = set_board_player(board, ORANGE);
    proof {
        assert(squares_of(board) =~= initial_squares());
        lemma_encode_decoded(board);
        lemma_initial_lines(board);
        lemma_canonical_idempotent(board);
        lemma_turn_lines(canonical(board), board, EMPTY);
        lemma_only_winner(canonical(board), EMPTY);
    }
    board = normalize_board(board);

    board
}

/// No line is filled on the board from which the search starts.
proof fn lemma_initial_lines(board: Board)
    requires
        squares_of(board) == initial_squares(),
    ensures
        lines_show_only(board, EMPTY),
{
    assert forall|p: Position| p < 9 implies #[trigger] square_at(board, p)
        == initial_squares()[p as int] by {
        assert(squares_of(board)[p as int] == square_at(board, p));
    }
    assert(top_color_at(board, 0) == ORANGE);
    assert(top_color_at(board, 1) == EMPTY);
    assert(top_color_at(board, 2) == BLUE);
    assert(top_color_at(board, 3) == BLUE);
    assert(top_color_at(board, 4) == ORANGE);
    assert(top_color_at(board, 5) == BLUE);
    assert(top_color_at(board, 6) == EMPTY);
    assert(top_color_at(board, 7) == ORANGE);
    assert(top_color_at(board, 8) == BLUE);
    assert forall|i: int| 0 <= i < 8 implies #[trigger] line_color_at(board, i) == EMPTY by {
        assert(lines()[i].len() == 3);
    }
}

} // verus!
