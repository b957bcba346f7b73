//! Counting: sums over all boards, and how often a board stands in a list.

use vstd::prelude::*;
use crate::codec::Board;

verus! {

/// One more than the largest board.
pub open spec fn board_count() -> nat {
    0x1_0000_0000_0000_0000
}

/// The sum of `f` over the boards below `n`.
pub open spec fn sum_below(f: spec_fn(Board) -> int, n: nat) -> int
    decreases n,
{
    if n == 0 {
        0
    } else {
        sum_below(f, (n - 1) as nat) + f((n - 1) as u64)
    }
}

/// The sum of `f` over all boards.
pub open spec fn sum_all(f: spec_fn(Board) -> int) -> int {
    sum_below(f, board_count())
}

/// Below any bound, two functions that differ at one board have sums that differ by as
/// much, or by nothing where the board lies at or above the bound.
proof fn lemma_sum_below_point(
    f: spec_fn(Board) -> int,
    g: spec_fn(Board) -> int,
    at: Board,
    n: nat,
)
    requires
        n <= board_count(),
        forall|key: Board| key != at ==> #[trigger] f(key) == g(key),
    ensures
        sum_below(g, n) - sum_below(f, n) == if at < n {
            g(at) - f(at)
        } else {
            0
        },
    decreases n,
{
    if n > 0 {
        lemma_sum_below_point(f, g, at, (n - 1) as nat);
        let key = (n - 1) as u64;
        if key != at {
            assert(f(key) == g(key));
        }
    }
}

/// Two functions that differ at one board have sums that differ by as much.
pub proof fn lemma_sum_point(f: spec_fn(Board) -> int, g: spec_fn(Board) -> int, at: Board)
    requires
        forall|key: Board| key != at ==> #[trigger] f(key) == g(key),
    ensures
        sum_all(g) - sum_all(f) == g(at) - f(at),
{
    lemma_sum_below_point(f, g, at, board_count());
}

/// Below any bound, a sum of values that are not negative is at least each of them.
proof fn lemma_sum_below_bounds(f: spec_fn(Board) -> int, at: Board, n: nat)
    requires
        n <= board_count(),
        forall|key: Board| #[trigger] f(key) >= 0,
    ensures
        sum_below(f, n) >= if at < n {
            f(at)
        } else {
            0
        },
    decreases n,
{
    if n > 0 {
        lemma_sum_below_bounds(f, at, (n - 1) as nat);
        assert(f((n - 1) as u64) >= 0);
    }
}

/// A sum of values that are not negative is at least each of them.
pub proof fn lemma_sum_bounds(f: spec_fn(Board) -> int, at: Board)
    requires
        forall|key: Board| #[trigger] f(key) >= 0,
    ensures
        sum_all(f) >= f(at),
        sum_all(f) >= 0,
{
    lemma_sum_below_bounds(f, at, board_count());
    assert(f(at) >= 0);
}

/// Below any bound, a function that is nothing everywhere sums to nothing.
proof fn lemma_sum_below_zero(f: spec_fn(Board) -> int, n: nat)
    requires
        n <= board_count(),
        forall|key: Board| #[trigger] f(key) == 0,
    ensures
        sum_below(f, n) == 0,
    decreases n,
{
    if n > 0 {
        lemma_sum_below_zero(f, (n - 1) as nat);
        assert(f((n - 1) as u64) == 0);
    }
}

/// A function that is nothing everywhere sums to nothing.
pub proof fn lemma_sum_zero(f: spec_fn(Board) -> int)
    requires
        forall|key: Board| #[trigger] f(key) == 0,
    ensures
        sum_all(f) == 0,
{
    lemma_sum_below_zero(f, board_count());
}

/// Number of times `key` stands in a list.
pub open spec fn count_of<T>(list: Seq<T>, key: T) -> nat
    decreases list.len(),
{
    if list.len() == 0 {
        0
    } else {
        count_of(list.drop_last(), key) + if list.last() == key {
            1nat
        } else {
            0nat
        }
    }
}

/// A list joined to another holds a value as often as both together.
pub proof fn lemma_count_of_join<T>(a: Seq<T>, b: Seq<T>, key: T)
    ensures
        count_of(a + b, key) == count_of(a, key) + count_of(b, key),
    decreases b.len(),
{
    if b.len() == 0 {
        assert(a + b =~= a);
    } else {
        lemma_count_of_join(a, b.drop_last(), key);
        assert((a + b).drop_last() =~= a + b.drop_last());
    }
}

/// A value that stands in a list is counted.
pub proof fn lemma_count_of_member<T>(list: Seq<T>, i: int)
    requires
        0 <= i < list.len(),
    ensures
        count_of(list, list[i]) >= 1,
    decreases list.len(),
{
    if i < list.len() - 1 {
        lemma_count_of_member(list.drop_last(), i);
    }
}

/// A value that stands nowhere in a list is not counted.
pub proof fn lemma_count_of_absent<T>(list: Seq<T>, key: T)
    requires
        forall|i: int| 0 <= i < list.len() ==> list[i] != key,
    ensures
        count_of(list, key) == 0,
    decreases list.len(),
{
    if list.len() > 0 {
        lemma_count_of_absent(list.drop_last(), key);
    }
}

/// A value that is counted stands in the list.
pub proof fn lemma_count_of_found<T>(list: Seq<T>, key: T)
    requires
        count_of(list, key) > 0,
    ensures
        exists|i: int| 0 <= i < list.len() && list[i] == key,
    decreases list.len(),
{
    if list.last() == key {
        assert(list[list.len() - 1] == key);
    } else {
        lemma_count_of_found(list.drop_last(), key);
        let i = choose|i: int| 0 <= i < list.drop_last().len() && list.drop_last()[i] == key;
        assert(list[i] == key);
    }
}

/// A list holds a value as often as its first entry and the rest together.
pub proof fn lemma_count_of_first<T>(list: Seq<T>, key: T)
    requires
        list.len() > 0,
    ensures
        count_of(list, key) == count_of(list.subrange(1, list.len() as int), key) + if list[0]
            == key {
            1nat
        } else {
            0nat
        },
{
    let first = list.subrange(0, 1);
    let rest = list.subrange(1, list.len() as int);
    assert(first + rest =~= list);
    lemma_count_of_join(first, rest, key);
    assert(first.drop_last() =~= Seq::<T>::empty());
    assert(count_of(first.drop_last(), key) == 0);
}

/// The start of a list holds a value no more often than the list.
pub proof fn lemma_count_of_take<T>(list: Seq<T>, key: T, n: int)
    requires
        0 <= n <= list.len(),
    ensures
        count_of(list.take(n), key) <= count_of(list, key),
{
    lemma_count_of_join(list.take(n), list.skip(n), key);
    assert(list.take(n) + list.skip(n) =~= list);
}

} // verus!
