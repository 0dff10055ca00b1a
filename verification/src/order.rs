//! The order of task ids: lexicographic by character, which is how `str`
//! itself is ordered.

use vstd::prelude::*;
use vstd::std_specs::iter::IteratorSpec;

verus! {

/// The characters of a task id.
pub type Id = Seq<char>;

/// `a` comes strictly before `b`.
pub open spec fn id_lt(a: Id, b: Id) -> bool
    decreases a.len(),
{
    if b.len() == 0 {
        false
    } else if a.len() == 0 {
        true
    } else if a[0] != b[0] {
        a[0] < b[0]
    } else {
        id_lt(a.drop_first(), b.drop_first())
    }
}

/// The ids stand in strictly increasing order, so none occurs twice.
pub open spec fn strictly_sorted(ids: Seq<Id>) -> bool {
    forall|i: int, j: int| 0 <= i < j < ids.len() ==> id_lt(#[trigger] ids[i], #[trigger] ids[j])
}

/// `ids` lists exactly the members of `set`, in order.
pub open spec fn lists_in_order(ids: Seq<Id>, set: Set<Id>) -> bool {
    &&& strictly_sorted(ids)
    &&& forall|x: Id| #[trigger] ids.contains(x) <==> set.contains(x)
}

/// The members of a finite set of ids in increasing order.
pub open spec fn sorted_ids(set: Set<Id>) -> Seq<Id> {
    choose|ids: Seq<Id>| lists_in_order(ids, set)
}

/// No id comes before itself.
pub proof fn lemma_id_lt_irreflexive(a: Id)
    ensures
        !id_lt(a, a),
    decreases a.len(),
{
    if a.len() > 0 {
        lemma_id_lt_irreflexive(a.drop_first());
    }
}

/// The order is transitive.
pub proof fn lemma_id_lt_transitive(a: Id, b: Id, c: Id)
    requires
        id_lt(a, b),
        id_lt(b, c),
    ensures
        id_lt(a, c),
    decreases a.len(),
{
    if a.len() > 0 && b.len() > 0 && c.len() > 0 && a[0] == b[0] && b[0] == c[0] {
        lemma_id_lt_transitive(a.drop_first(), b.drop_first(), c.drop_first());
    }
}

/// Of two different ids one comes first.
pub proof fn lemma_id_lt_total(a: Id, b: Id)
    ensures
        a == b || id_lt(a, b) || id_lt(b, a),
    decreases a.len(),
{
    if a.len() == 0 || b.len() == 0 {
        assert(a.len() == 0 && b.len() == 0 ==> a =~= b);
    } else if a[0] == b[0] {
        lemma_id_lt_total(a.drop_first(), b.drop_first());
        if a.drop_first() == b.drop_first() {
            assert(a =~= seq![a[0]] + a.drop_first());
            assert(b =~= seq![b[0]] + b.drop_first());
        }
    }
}

/// No two ids come each before the other.
pub proof fn lemma_id_lt_asymmetric(a: Id, b: Id)
    requires
        id_lt(a, b),
    ensures
        !id_lt(b, a),
        a != b,
{
    lemma_id_lt_irreflexive(a);
    if id_lt(b, a) {
        lemma_id_lt_transitive(a, b, a);
    }
}

/// Two lists in order of the same set are the same list.
pub proof fn lemma_order_is_unique(a: Seq<Id>, b: Seq<Id>, set: Set<Id>)
    requires
        lists_in_order(a, set),
        lists_in_order(b, set),
    ensures
        a == b,
    decreases a.len(),
{
    if a.len() == 0 {
        if b.len() > 0 {
            assert(b.contains(b[0]));
            assert(a.contains(b[0]));
        }
        assert(a =~= b);
    } else {
        assert(a.contains(a[0]));
        assert(b.contains(a[0]));
        let j = choose|j: int| 0 <= j < b.len() && b[j] == a[0];
        assert(b.contains(b[0]));
        assert(a.contains(b[0]));
        let i = choose|i: int| 0 <= i < a.len() && a[i] == b[0];
        if i > 0 && j > 0 {
            assert(id_lt(a[0], a[i]));
            assert(id_lt(b[0], b[j]));
            lemma_id_lt_asymmetric(a[0], b[0]);
        }
        assert(a[0] == b[0]);
        let rest = set.remove(a[0]);
        assert forall|x: Id| #[trigger] a.drop_first().contains(x) <==> rest.contains(x) by {
            lemma_drop_first_contains(a, x);
        }
        assert forall|x: Id| #[trigger] b.drop_first().contains(x) <==> rest.contains(x) by {
            lemma_drop_first_contains(b, x);
        }
        lemma_order_is_unique(a.drop_first(), b.drop_first(), rest);
        assert(a =~= seq![a[0]] + a.drop_first());
        assert(b =~= seq![b[0]] + b.drop_first());
    }
}

proof fn lemma_drop_first_contains(ids: Seq<Id>, x: Id)
    requires
        strictly_sorted(ids),
        ids.len() > 0,
    ensures
        ids.drop_first().contains(x) <==> ids.contains(x) && x != ids[0],
{
    if ids.drop_first().contains(x) {
        let i = choose|i: int| 0 <= i < ids.drop_first().len() && ids.drop_first()[i] == x;
        assert(ids[i + 1] == x);
        assert(id_lt(ids[0], ids[i + 1]));
        lemma_id_lt_irreflexive(x);
    }
    if ids.contains(x) && x != ids[0] {
        let i = choose|i: int| 0 <= i < ids.len() && ids[i] == x;
        assert(ids.drop_first()[i - 1] == x);
    }
}

/// A list in order of a set is the one that `sorted_ids` names.
pub proof fn lemma_sorted_ids(ids: Seq<Id>, set: Set<Id>)
    requires
        lists_in_order(ids, set),
    ensures
        sorted_ids(set) == ids,
{
    lemma_order_is_unique(sorted_ids(set), ids, set);
}

/// Ids in order occur once each.
pub proof fn lemma_sorted_no_duplicates(ids: Seq<Id>)
    requires
        strictly_sorted(ids),
    ensures
        ids.no_duplicates(),
{
    assert forall|i: int, j: int| 0 <= i < j < ids.len() implies ids[i] != ids[j] by {
        lemma_id_lt_asymmetric(ids[i], ids[j]);
    }
}

/// A list in order is as long as its set is large.
pub proof fn lemma_order_len(ids: Seq<Id>, set: Set<Id>)
    requires
        lists_in_order(ids, set),
    ensures
        set.finite(),
        set.len() == ids.len(),
{
    lemma_sorted_no_duplicates(ids);
    assert(ids.to_set() =~= set);
    ids.unique_seq_to_set();
}

/// An id that a list in order does not hold has its place in it.
proof fn lemma_place_in_order(ids: Seq<Id>, set: Set<Id>, x: Id) -> (r: Seq<Id>)
    requires
        lists_in_order(ids, set),
        !set.contains(x),
    ensures
        lists_in_order(r, set.insert(x)),
    decreases ids.len(),
{
    if ids.len() == 0 {
        let r = seq![x];
        assert forall|y: Id| #[trigger] r.contains(y) <==> set.insert(x).contains(y) by {
            if y == x {
                assert(r[0] == x);
            }
            if set.contains(y) {
                assert(ids.contains(y));
            }
        }
        r
    } else {
        let first = ids[0];
        let tail = ids.drop_first();
        assert(ids.contains(first));
        lemma_id_lt_total(x, first);
        assert forall|y: Id| #[trigger] ids.contains(y) implies y == first || id_lt(first, y) by {
            let i = choose|i: int| 0 <= i < ids.len() && ids[i] == y;
        }
        let (head, rest, more) = if id_lt(x, first) {
            (x, ids, set)
        } else {
            assert forall|y: Id| #[trigger] tail.contains(y) <==> set.remove(first).contains(y) by {
                lemma_drop_first_contains(ids, y);
            }
            (first, lemma_place_in_order(tail, set.remove(first), x), set.remove(first).insert(x))
        };
        let r = seq![head] + rest;
        assert(r.drop_first() =~= rest);
        assert forall|y: Id| #[trigger] more.contains(y) implies id_lt(head, y) by {
            if head == x {
                assert(ids.contains(y));
                if y != first {
                    lemma_id_lt_transitive(x, first, y);
                }
            } else if y != x {
                assert(ids.contains(y));
            }
        }
        assert(strictly_sorted(r)) by {
            assert forall|i: int, j: int| 0 <= i < j < r.len() implies id_lt(#[trigger] r[i], #[trigger] r[j]) by {
                assert(rest.contains(rest[j - 1]));
                if i > 0 {
                    assert(id_lt(rest[i - 1], rest[j - 1]));
                }
            }
        }
        assert forall|y: Id| #[trigger] r.contains(y) <==> set.insert(x).contains(y) by {
            lemma_drop_first_contains(r, y);
            if y == head {
                assert(r[0] == y);
            }
            assert(rest.contains(y) <==> more.contains(y));
        }
        r
    }
}

/// The members of every finite set of ids can be listed in order.
pub proof fn lemma_finite_set_is_listed(set: Set<Id>)
    requires
        set.finite(),
    ensures
        lists_in_order(sorted_ids(set), set),
    decreases set.len(),
{
    let ids = if set.is_empty() {
        let none = Seq::<Id>::empty();
        assert forall|x: Id| #[trigger] none.contains(x) <==> set.contains(x) by {}
        none
    } else {
        let x = set.choose();
        let rest = set.remove(x);
        lemma_finite_set_is_listed(rest);
        assert(rest.insert(x) =~= set);
        lemma_place_in_order(sorted_ids(rest), rest, x)
    };
    lemma_sorted_ids(ids, set);
}

/// The ids of the list that are in the set, in the order of the list.
pub open spec fn pick(ids: Seq<Id>, set: Set<Id>) -> Seq<Id>
    decreases ids.len(),
{
    if ids.len() == 0 {
        Seq::empty()
    } else if set.contains(ids.last()) {
        pick(ids.drop_last(), set).push(ids.last())
    } else {
        pick(ids.drop_last(), set)
    }
}

/// The first `i + 1` entries hold what the first `i` hold, and entry `i`.
pub proof fn lemma_take_next(ids: Seq<Id>, i: int)
    requires
        0 <= i < ids.len(),
    ensures
        forall|x: Id| #[trigger] ids.take(i + 1).contains(x) <==> ids.take(i).contains(x) || x == ids[i],
{
    let next = ids.take(i + 1);
    let front = ids.take(i);
    assert forall|x: Id| #[trigger] next.contains(x) <==> front.contains(x) || x == ids[i] by {
        if next.contains(x) {
            let j = choose|j: int| 0 <= j < next.len() && next[j] == x;
            if j < i {
                assert(front[j] == x);
            }
        }
        if front.contains(x) {
            let j = choose|j: int| 0 <= j < front.len() && front[j] == x;
            assert(next[j] == x);
        }
        if x == ids[i] {
            assert(next[i] == x);
        }
    }
}

/// Picking goes on with one id after the other.
pub proof fn lemma_pick_next(ids: Seq<Id>, set: Set<Id>, i: int)
    requires
        0 <= i < ids.len(),
    ensures
        pick(ids.take(i + 1), set) == if set.contains(ids[i]) {
            pick(ids.take(i), set).push(ids[i])
        } else {
            pick(ids.take(i), set)
        },
{
    assert(ids.take(i + 1).drop_last() =~= ids.take(i));
}

/// What is picked is in the list and in the set, and in order where the list
/// is.
pub proof fn lemma_pick(ids: Seq<Id>, set: Set<Id>)
    requires
        strictly_sorted(ids),
    ensures
        strictly_sorted(pick(ids, set)),
        forall|x: Id| #[trigger] pick(ids, set).contains(x) <==> ids.contains(x) && set.contains(x),
    decreases ids.len(),
{
    if ids.len() > 0 {
        let front = ids.drop_last();
        let before = pick(front, set);
        let last = ids.last();
        lemma_pick(front, set);
        assert forall|x: Id| #[trigger] ids.contains(x) <==> front.contains(x) || x == last by {
            if ids.contains(x) {
                let i = choose|i: int| 0 <= i < ids.len() && ids[i] == x;
                if i < front.len() {
                    assert(front[i] == x);
                }
            }
            if front.contains(x) {
                let i = choose|i: int| 0 <= i < front.len() && front[i] == x;
                assert(ids[i] == x);
            }
            if x == last {
                assert(ids[ids.len() - 1] == x);
            }
        }
        if set.contains(last) {
            let after = before.push(last);
            assert forall|x: Id| #[trigger] after.contains(x) <==> before.contains(x) || x == last by {
                if before.contains(x) {
                    let i = choose|i: int| 0 <= i < before.len() && before[i] == x;
                    assert(after[i] == x);
                }
                if x == last {
                    assert(after[before.len() as int] == x);
                }
            }
            assert forall|a: int, b: int| 0 <= a < b < after.len() implies
                id_lt(#[trigger] after[a], #[trigger] after[b]) by {
                if b == before.len() {
                    assert(before.contains(before[a]));
                    let i = choose|i: int| 0 <= i < front.len() && front[i] == before[a];
                    assert(id_lt(ids[i], ids[ids.len() - 1]));
                }
            }
        }
    }
}

/// Picking all members of a set from a list in order lists the set.
pub proof fn lemma_pick_all(ids: Seq<Id>, set: Set<Id>)
    requires
        strictly_sorted(ids),
        forall|x: Id| #[trigger] set.contains(x) ==> ids.contains(x),
    ensures
        lists_in_order(pick(ids, set), set),
        sorted_ids(set) == pick(ids, set),
{
    lemma_pick(ids, set);
    lemma_sorted_ids(pick(ids, set), set);
}

/// Whether `a` comes strictly before `b`.
pub fn str_lt(a: &str, b: &str) -> (r: bool)
    ensures
        r == id_lt(a@, b@),
{
    let mut left = a.chars();
    let mut right = b.chars();
    loop
        invariant
            IteratorSpec::decrease(&left) is Some,
            id_lt(a@, b@) == id_lt(IteratorSpec::remaining(&left), IteratorSpec::remaining(&right)),
        decreases IteratorSpec::decrease(&left)->0,
    {
        match right.next() {
            None => {
                return false;
            },
            Some(d) => {
                match left.next() {
                    None => {
                        return true;
                    },
                    Some(c) => {
                        if c != d {
                            return c < d;
                        }
                    },
                }
            },
        }
    }
}

/// Whether `a` and `b` hold the same characters.
pub fn same_text(a: &str, b: &str) -> (r: bool)
    ensures
        r == (a@ == b@),
{
    proof {
        lemma_id_lt_total(a@, b@);
        lemma_id_lt_irreflexive(a@);
    }
    !str_lt(a, b) && !str_lt(b, a)
}

} // verus!
