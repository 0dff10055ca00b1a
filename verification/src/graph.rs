//! Walks in a directed graph of ids: reachability, cycles, and counting.

use crate::order::Id;
use vstd::prelude::*;

verus! {

/// The edges of a graph; `(x, y)` stands for an edge from `x` to `y`.
pub type Edges = Set<(Id, Id)>;

/// Place `i` of `walk` and the next are joined by an edge.
pub open spec fn is_step(edges: Edges, walk: Seq<Id>, i: int) -> bool {
    edges.contains((walk[i], walk[i + 1]))
}

/// Each place of `walk` but the last is joined to the next by an edge.
pub open spec fn is_walk(edges: Edges, walk: Seq<Id>) -> bool {
    forall|i: int| 0 <= i < walk.len() - 1 ==> #[trigger] is_step(edges, walk, i)
}

/// There is a walk of one edge or more from `a` to `b`.
pub open spec fn reaches(edges: Edges, a: Id, b: Id) -> bool {
    exists|walk: Seq<Id>|
        walk.len() >= 2 && walk[0] == a && walk.last() == b && #[trigger] is_walk(edges, walk)
}

/// Nothing reaches itself.
pub open spec fn acyclic(edges: Edges) -> bool {
    forall|a: Id| !#[trigger] reaches(edges, a, a)
}

/// How often `x` occurs in `ids`.
pub open spec fn occurrences(ids: Seq<Id>, x: Id) -> nat
    decreases ids.len(),
{
    if ids.len() == 0 {
        0
    } else {
        occurrences(ids.drop_last(), x) + if ids.last() == x {
            1nat
        } else {
            0nat
        }
    }
}

/// How many places of `ids` hold an id that is not in `done`.
pub open spec fn outstanding(ids: Seq<Id>, done: Set<Id>) -> nat
    decreases ids.len(),
{
    if ids.len() == 0 {
        0
    } else {
        outstanding(ids.drop_last(), done) + if done.contains(ids.last()) {
            0nat
        } else {
            1nat
        }
    }
}

pub proof fn lemma_edge_reaches(edges: Edges, a: Id, b: Id)
    requires
        edges.contains((a, b)),
    ensures
        reaches(edges, a, b),
{
    let walk = seq![a, b];
    assert(is_step(edges, walk, 0));
    assert(is_walk(edges, walk));
}

pub proof fn lemma_reaches_then_edge(edges: Edges, a: Id, b: Id, c: Id)
    requires
        reaches(edges, a, b),
        edges.contains((b, c)),
    ensures
        reaches(edges, a, c),
{
    let walk = choose|walk: Seq<Id>|
        walk.len() >= 2 && walk[0] == a && walk.last() == b && #[trigger] is_walk(edges, walk);
    let longer = walk.push(c);
    assert forall|i: int| 0 <= i < longer.len() - 1 implies #[trigger] is_step(edges, longer, i) by {
        if i < walk.len() - 1 {
            assert(is_step(edges, walk, i));
        }
    }
    assert(is_walk(edges, longer));
}

/// What reaches `b` does so by a last edge.
pub proof fn lemma_last_edge(edges: Edges, a: Id, b: Id) -> (x: Id)
    requires
        reaches(edges, a, b),
    ensures
        edges.contains((x, b)),
        x == a || reaches(edges, a, x),
{
    let walk = choose|walk: Seq<Id>|
        walk.len() >= 2 && walk[0] == a && walk.last() == b && #[trigger] is_walk(edges, walk);
    let x = walk[walk.len() - 2];
    assert(is_step(edges, walk, walk.len() - 2));
    if walk.len() > 2 {
        let shorter = walk.drop_last();
        assert forall|i: int| 0 <= i < shorter.len() - 1 implies #[trigger] is_step(edges, shorter, i) by {
            assert(is_step(edges, walk, i));
        }
        assert(is_walk(edges, shorter));
        assert(shorter.last() == x);
    }
    x
}

/// A set that the edges lead out of neither from `a` nor from its members
/// holds all that `a` reaches.
pub proof fn lemma_closed_set(edges: Edges, a: Id, set: Set<Id>, b: Id)
    requires
        forall|x: Id, y: Id| (x == a || set.contains(x)) && #[trigger] edges.contains((x, y)) ==> set.contains(y),
        reaches(edges, a, b),
    ensures
        set.contains(b),
{
    let walk = choose|walk: Seq<Id>|
        walk.len() >= 2 && walk[0] == a && walk.last() == b && #[trigger] is_walk(edges, walk);
    lemma_closed_set_along(edges, a, set, walk, walk.len() - 1);
}

proof fn lemma_closed_set_along(edges: Edges, a: Id, set: Set<Id>, walk: Seq<Id>, i: int)
    requires
        forall|x: Id, y: Id| (x == a || set.contains(x)) && #[trigger] edges.contains((x, y)) ==> set.contains(y),
        is_walk(edges, walk),
        walk[0] == a,
        1 <= i < walk.len(),
    ensures
        set.contains(walk[i]),
    decreases i,
{
    if i > 1 {
        lemma_closed_set_along(edges, a, set, walk, i - 1);
    }
    assert(is_step(edges, walk, i - 1));
}

/// Where every edge leads to a higher rank there is no cycle.
pub proof fn lemma_rank_acyclic(edges: Edges, rank: spec_fn(Id) -> int)
    requires
        forall|x: Id, y: Id| #[trigger] edges.contains((x, y)) ==> rank(x) < rank(y),
    ensures
        acyclic(edges),
{
    assert forall|a: Id| !#[trigger] reaches(edges, a, a) by {
        if reaches(edges, a, a) {
            let walk = choose|walk: Seq<Id>|
                walk.len() >= 2 && walk[0] == a && walk.last() == a && #[trigger] is_walk(edges, walk);
            lemma_rank_along(edges, rank, walk, walk.len() - 1);
        }
    }
}

proof fn lemma_rank_along(edges: Edges, rank: spec_fn(Id) -> int, walk: Seq<Id>, i: int)
    requires
        forall|x: Id, y: Id| #[trigger] edges.contains((x, y)) ==> rank(x) < rank(y),
        is_walk(edges, walk),
        1 <= i < walk.len(),
    ensures
        rank(walk[0]) < rank(walk[i]),
    decreases i,
{
    if i > 1 {
        lemma_rank_along(edges, rank, walk, i - 1);
    }
    assert(is_step(edges, walk, i - 1));
}

/// A walk of `n` edges that ends in `y` and never leaves `set`.
proof fn lemma_walk_back(edges: Edges, set: Set<Id>, y: Id, n: nat) -> (walk: Seq<Id>)
    requires
        set.contains(y),
        forall|b: Id| #[trigger] set.contains(b) ==> exists|a: Id| set.contains(a) && edges.contains((a, b)),
    ensures
        walk.len() == n + 1,
        walk.last() == y,
        is_walk(edges, walk),
        forall|i: int| 0 <= i < walk.len() ==> set.contains(#[trigger] walk[i]),
    decreases n,
{
    if n == 0 {
        seq![y]
    } else {
        let x = choose|a: Id| set.contains(a) && edges.contains((a, y));
        let shorter = lemma_walk_back(edges, set, x, (n - 1) as nat);
        let walk = shorter.push(y);
        assert forall|i: int| 0 <= i < walk.len() - 1 implies #[trigger] is_step(edges, walk, i) by {
            if i < shorter.len() - 1 {
                assert(is_step(edges, shorter, i));
            }
        }
        walk
    }
}

/// A finite set in which every member has an edge from a member holds one
/// that reaches itself.
pub proof fn lemma_cycle_exists(edges: Edges, set: Set<Id>, y: Id) -> (c: Id)
    requires
        set.finite(),
        set.contains(y),
        forall|b: Id| #[trigger] set.contains(b) ==> exists|a: Id| set.contains(a) && edges.contains((a, b)),
    ensures
        set.contains(c),
        reaches(edges, c, c),
{
    let walk = lemma_walk_back(edges, set, y, set.len());
    if walk.no_duplicates() {
        walk.unique_seq_to_set();
        assert(walk.to_set().subset_of(set));
        vstd::set_lib::lemma_len_subset(walk.to_set(), set);
        assert(false);
    }
    let (i, j) = choose|i: int, j: int| 0 <= i < j < walk.len() && walk[i] == walk[j];
    let c = walk[i];
    let part = walk.subrange(i, j + 1);
    assert forall|k: int| 0 <= k < part.len() - 1 implies #[trigger] is_step(edges, part, k) by {
        assert(is_step(edges, walk, i + k));
    }
    assert(is_walk(edges, part));
    assert(part.len() >= 2 && part[0] == c && part.last() == c);
    c
}

pub proof fn lemma_occurrences_contains(ids: Seq<Id>, x: Id)
    ensures
        occurrences(ids, x) > 0 <==> ids.contains(x),
    decreases ids.len(),
{
    if ids.len() > 0 {
        lemma_occurrences_contains(ids.drop_last(), x);
        assert(ids =~= ids.drop_last().push(ids.last()));
        if ids.contains(x) && ids.last() != x {
            let i = choose|i: int| 0 <= i < ids.len() && ids[i] == x;
            assert(ids.drop_last()[i] == x);
        }
        if ids.drop_last().contains(x) {
            let i = choose|i: int| 0 <= i < ids.drop_last().len() && ids.drop_last()[i] == x;
            assert(ids[i] == x);
        }
        if ids.last() == x {
            assert(ids[ids.len() - 1] == x);
        }
    }
}

pub proof fn lemma_occurrences_push(ids: Seq<Id>, y: Id, x: Id)
    ensures
        occurrences(ids.push(y), x) == occurrences(ids, x) + if y == x {
            1nat
        } else {
            0nat
        },
{
    assert(ids.push(y).drop_last() =~= ids);
}

pub proof fn lemma_occurrences_take(ids: Seq<Id>, k: int, x: Id)
    requires
        0 <= k < ids.len(),
    ensures
        occurrences(ids.take(k + 1), x) == occurrences(ids.take(k), x) + if ids[k] == x {
            1nat
        } else {
            0nat
        },
        occurrences(ids.take(k + 1), x) <= occurrences(ids, x),
    decreases ids.len() - k,
{
    assert(ids.take(k + 1).drop_last() =~= ids.take(k));
    if k + 1 < ids.len() {
        lemma_occurrences_take(ids, k + 1, x);
    } else {
        assert(ids.take(k + 1) =~= ids);
    }
}

/// One more done id takes away its own occurrences.
pub proof fn lemma_outstanding_insert(ids: Seq<Id>, done: Set<Id>, x: Id)
    requires
        !done.contains(x),
    ensures
        outstanding(ids, done.insert(x)) + occurrences(ids, x) == outstanding(ids, done),
    decreases ids.len(),
{
    if ids.len() > 0 {
        lemma_outstanding_insert(ids.drop_last(), done, x);
    }
}

pub proof fn lemma_outstanding_none(ids: Seq<Id>)
    ensures
        outstanding(ids, Set::empty()) == ids.len(),
    decreases ids.len(),
{
    if ids.len() > 0 {
        lemma_outstanding_none(ids.drop_last());
    }
}

pub proof fn lemma_outstanding_zero(ids: Seq<Id>, done: Set<Id>)
    ensures
        outstanding(ids, done) == 0 <==> forall|i: int| 0 <= i < ids.len() ==> done.contains(#[trigger] ids[i]),
    decreases ids.len(),
{
    if ids.len() > 0 {
        let front = ids.drop_last();
        lemma_outstanding_zero(front, done);
        if outstanding(ids, done) == 0 {
            assert forall|i: int| 0 <= i < ids.len() implies done.contains(#[trigger] ids[i]) by {
                if i < front.len() {
                    assert(front[i] == ids[i]);
                }
            }
        } else if forall|i: int| 0 <= i < ids.len() ==> done.contains(#[trigger] ids[i]) {
            assert forall|i: int| 0 <= i < front.len() implies done.contains(#[trigger] front[i]) by {
                assert(front[i] == ids[i]);
            }
            assert(done.contains(ids[ids.len() - 1]));
        }
    }
}

} // verus!
