//! Collections keyed by task id, kept in id order.

use crate::order::{
    id_lt, lemma_id_lt_asymmetric, lemma_id_lt_total, lemma_id_lt_transitive, lemma_sorted_ids,
    lemma_sorted_no_duplicates, lemma_take_next, lists_in_order, sorted_ids, str_lt, strictly_sorted, Id,
};
use vstd::prelude::*;

verus! {

pub type TaskId = String;

/// A map from task ids to values. No id occurs twice, and the entries stand
/// in increasing order of their ids.
#[derive(Debug)]
pub struct IdMap<V> {
    entries: Vec<(TaskId, V)>,
}

impl<V> IdMap<V> {
    /// The ids of the map in the order in which they are stored.
    pub closed spec fn ids(self) -> Seq<Id> {
        Seq::new(self.entries@.len(), |i: int| self.entries@[i].0@)
    }

    /// The stored values, in the order of `ids`.
    pub closed spec fn values(self) -> Seq<V> {
        Seq::new(self.entries@.len(), |i: int| self.entries@[i].1)
    }

    #[verifier::type_invariant]
    closed spec fn in_order(self) -> bool {
        strictly_sorted(self.ids())
    }
}

impl<V: DeepView> View for IdMap<V> {
    type V = Map<Id, V::V>;

    open spec fn view(&self) -> Map<Id, V::V> {
        Map::new(
            |k: Id| self.ids().contains(k),
            |k: Id| self.values()[self.ids().index_of(k)].deep_view(),
        )
    }
}

impl<V: DeepView> IdMap<V> {
    /// An empty map.
    pub fn new() -> (r: Self)
        ensures
            r@ == Map::<Id, V::V>::empty(),
    {
        let r = IdMap { entries: Vec::new() };
        assert(r@ =~= Map::<Id, V::V>::empty());
        r
    }

    /// How many ids are bound. The further clauses are what holds of every
    /// map: its ids are the domain of its view, listed in order.
    pub fn len(&self) -> (r: usize)
        ensures
            r == self.ids().len(),
            r == self@.len(),
            r == self.values().len(),
            self@.dom().finite(),
            lists_in_order(self.ids(), self@.dom()),
            self.ids() == sorted_ids(self@.dom()),
            forall|i: int| 0 <= i < r ==> #[trigger] self@[self.ids()[i]] == self.values()[i].deep_view(),
    {
        proof {
            use_type_invariant(self);
            lemma_sorted_no_duplicates(self.ids());
            lemma_sorted_ids(self.ids(), self@.dom());
            assert(self.ids().to_set() =~= self@.dom());
            self.ids().unique_seq_to_set();
            assert forall|i: int| 0 <= i < self.ids().len() implies
                #[trigger] self@[self.ids()[i]] == self.values()[i].deep_view() by {
                lemma_index_of(self.ids(), i);
            }
        }
        self.entries.len()
    }

    pub fn is_empty(&self) -> (r: bool)
        ensures
            r == (self@.len() == 0),
            r == (self@ == Map::<Id, V::V>::empty()),
    {
        let n = self.len();
        proof {
            if n == 0 {
                assert(self@ =~= Map::<Id, V::V>::empty());
            } else {
                assert(self@.dom().contains(self.ids()[0]));
            }
        }
        n == 0
    }

    /// The position of `key`, or else where it belongs.
    fn locate(&self, key: &str) -> (r: (usize, bool))
        ensures
            r.0 <= self.ids().len(),
            strictly_sorted(self.ids()),
            forall|i: int| 0 <= i < r.0 ==> id_lt(#[trigger] self.ids()[i], key@),
            r.1 ==> r.0 < self.ids().len() && self.ids()[r.0 as int] == key@,
            !r.1 ==> forall|i: int| r.0 <= i < self.ids().len() ==> id_lt(key@, #[trigger] self.ids()[i]),
            r.1 == self.ids().contains(key@),
    {
        proof {
            use_type_invariant(self);
        }
        let mut lo: usize = 0;
        let mut hi: usize = self.entries.len();
        while lo < hi
            invariant
                strictly_sorted(self.ids()),
                lo <= hi <= self.entries@.len(),
                forall|i: int| 0 <= i < lo ==> id_lt(#[trigger] self.ids()[i], key@),
                forall|i: int| hi <= i < self.ids().len() ==> !id_lt(#[trigger] self.ids()[i], key@),
            decreases hi - lo,
        {
            let mid: usize = lo + (hi - lo) / 2;
            if str_lt(self.entries[mid].0.as_str(), key) {
                assert forall|i: int| 0 <= i < mid + 1 implies id_lt(#[trigger] self.ids()[i], key@) by {
                    if i < mid {
                        lemma_id_lt_transitive(self.ids()[i], self.ids()[mid as int], key@);
                    }
                }
                lo = mid + 1;
            } else {
                assert forall|i: int| mid <= i < self.ids().len() implies !id_lt(#[trigger] self.ids()[i], key@) by {
                    if i > mid && id_lt(self.ids()[i], key@) {
                        lemma_id_lt_transitive(self.ids()[mid as int], self.ids()[i], key@);
                    }
                }
                hi = mid;
            }
        }
        let found = lo < self.entries.len() && !str_lt(key, self.entries[lo].0.as_str());
        proof {
            if lo < self.ids().len() {
                lemma_id_lt_total(self.ids()[lo as int], key@);
            }
            if !found {
                assert forall|i: int| lo <= i < self.ids().len() implies id_lt(key@, #[trigger] self.ids()[i]) by {
                    if i > lo {
                        lemma_id_lt_transitive(key@, self.ids()[lo as int], self.ids()[i]);
                    }
                }
                assert forall|i: int| 0 <= i < self.ids().len() implies self.ids()[i] != key@ by {
                    if i < lo {
                        lemma_id_lt_asymmetric(self.ids()[i], key@);
                    } else {
                        lemma_id_lt_asymmetric(key@, self.ids()[i]);
                    }
                }
            } else {
                assert(self.ids()[lo as int] == key@);
            }
        }
        (lo, found)
    }

    pub fn contains_key(&self, key: &str) -> (r: bool)
        ensures
            r == self@.contains_key(key@),
    {
        self.locate(key).1
    }

    /// The place of `key` in the order of the map.
    pub fn index_of(&self, key: &str) -> (r: Option<usize>)
        ensures
            r is Some <==> self@.contains_key(key@),
            r matches Some(i) ==> i < self.ids().len() && self.ids()[i as int] == key@,
    {
        let (at, found) = self.locate(key);
        if found {
            Some(at)
        } else {
            None
        }
    }

    pub fn get(&self, key: &str) -> (r: Option<&V>)
        ensures
            r matches Some(v) ==> self@.contains_key(key@) && v.deep_view() == self@[key@],
            r is None ==> !self@.contains_key(key@),
    {
        let (at, found) = self.locate(key);
        if found {
            proof {
                lemma_index_of(self.ids(), at as int);
            }
            Some(&self.entries[at].1)
        } else {
            None
        }
    }

    /// The id at place `i` of the order.
    pub fn id_at(&self, i: usize) -> (r: &TaskId)
        requires
            i < self.ids().len(),
        ensures
            r@ == self.ids()[i as int],
            self@.contains_key(r@),
    {
        &self.entries[i].0
    }

    /// The value at place `i` of the order.
    pub fn value_at(&self, i: usize) -> (r: &V)
        requires
            i < self.ids().len(),
        ensures
            *r == self.values()[i as int],
            self@.contains_key(self.ids()[i as int]),
            r.deep_view() == self@[self.ids()[i as int]],
    {
        proof {
            use_type_invariant(self);
            lemma_index_of(self.ids(), i as int);
            assert(self.ids().contains(self.ids()[i as int]));
        }
        &self.entries[i].1
    }

    /// The ids of the map in increasing order.
    pub fn keys(&self) -> (r: Vec<TaskId>)
        ensures
            r.deep_view() == self.ids(),
            r.deep_view() == sorted_ids(self@.dom()),
    {
        let n = self.len();
        let mut r: Vec<TaskId> = Vec::new();
        let mut i: usize = 0;
        while i < n
            invariant
                i <= n == self.ids().len(),
                r@.len() == i,
                forall|j: int| 0 <= j < i ==> (#[trigger] r@[j])@ == self.ids()[j],
            decreases n - i,
        {
            r.push(self.id_at(i).clone());
            i += 1;
        }
        assert(r.deep_view() =~= self.ids());
        r
    }

    /// Binds `key` to `value`, in place of what it was bound to.
    pub fn insert(&mut self, key: TaskId, value: V)
        ensures
            final(self)@ == old(self)@.insert(key@, value.deep_view()),
    {
        let (at, found) = self.locate(key.as_str());
        let ghost before = *self;
        let ghost k = key@;
        let mut entries: Vec<(TaskId, V)> = Vec::new();
        std::mem::swap(&mut entries, &mut self.entries);
        if found {
            entries.set(at, (key, value));
        } else {
            entries.insert(at, (key, value));
        }
        proof {
            let after = IdMap { entries };
            if found {
                assert(after.ids() =~= before.ids());
                assert(after@ =~= before@.insert(k, value.deep_view())) by {
                    assert forall|x: Id| after@.contains_key(x) implies
                        after@[x] == before@.insert(k, value.deep_view())[x] by {
                        let i = after.ids().index_of(x);
                        assert(after.ids()[i] == x);
                        if x == k {
                            lemma_index_of(after.ids(), at as int);
                        }
                    }
                }
            } else {
                assert(after.ids() =~= before.ids().insert(at as int, k));
                lemma_insert_sorted(before.ids(), at as int, k);
                assert(after.values() =~= before.values().insert(at as int, value));
                assert(after@ =~= before@.insert(k, value.deep_view())) by {
                    lemma_insert_contains(before.ids(), at as int, k);
                    assert forall|x: Id| after@.contains_key(x) implies
                        after@[x] == before@.insert(k, value.deep_view())[x] by {
                        if x == k {
                            lemma_index_of(after.ids(), at as int);
                        } else {
                            let j = before.ids().index_of(x);
                            assert(before.ids()[j] == x);
                            let i = if j < at { j } else { j + 1 };
                            assert(after.ids()[i] == x);
                            lemma_index_of(after.ids(), i);
                        }
                    }
                }
            }
        }
        self.entries = entries;
    }

    /// Takes the binding of `key` out of the map.
    pub fn remove(&mut self, key: &str) -> (r: Option<V>)
        ensures
            final(self)@ == old(self)@.remove(key@),
            r matches Some(v) ==> old(self)@.contains_key(key@) && v.deep_view() == old(self)@[key@],
            r is None ==> !old(self)@.contains_key(key@),
    {
        let (at, found) = self.locate(key);
        let ghost before = *self;
        if !found {
            assert(self@.remove(key@) =~= self@);
            return None;
        }
        let mut entries: Vec<(TaskId, V)> = Vec::new();
        std::mem::swap(&mut entries, &mut self.entries);
        let (_, value) = entries.remove(at);
        proof {
            let after = IdMap { entries };
            assert(after.ids() =~= before.ids().remove(at as int));
            lemma_index_of(before.ids(), at as int);
            assert(strictly_sorted(after.ids()));
            assert(after@ =~= before@.remove(key@)) by {
                assert forall|x: Id| after@.contains_key(x) <==> before@.remove(key@).contains_key(x) by {
                    if after@.contains_key(x) {
                        let i = after.ids().index_of(x);
                        let j = if i < at { i } else { i + 1 };
                        assert(before.ids()[j] == x);
                        lemma_index_of(before.ids(), j);
                    }
                    if before@.remove(key@).contains_key(x) {
                        let j = before.ids().index_of(x);
                        let i = if j < at { j } else { j - 1 };
                        assert(after.ids()[i] == x);
                    }
                }
                assert forall|x: Id| after@.contains_key(x) implies after@[x] == before@.remove(key@)[x] by {
                    let i = after.ids().index_of(x);
                    let j = if i < at { i } else { i + 1 };
                    assert(before.ids()[j] == x);
                    lemma_index_of(before.ids(), j);
                }
            }
        }
        self.entries = entries;
        Some(value)
    }
}

/// A value of which a copy can be made.
pub trait Duplicate: DeepView + Sized {
    /// A copy that says the same.
    fn duplicate(&self) -> (r: Self)
        ensures
            r.deep_view() == self.deep_view(),
    ;
}

impl<V: Duplicate> Clone for IdMap<V> {
    fn clone(&self) -> (r: Self)
        ensures
            r@ == self@,
    {
        let n = self.len();
        let ghost ids = self.ids();
        let mut r: IdMap<V> = IdMap::new();
        let mut i: usize = 0;
        while i < n
            invariant
                i <= n == ids.len(),
                ids == self.ids(),
                forall|x: Id| #[trigger] r@.contains_key(x) <==> ids.take(i as int).contains(x),
                forall|x: Id| #[trigger] r@.contains_key(x) ==> r@[x] == self@[x],
            decreases n - i,
        {
            proof {
                lemma_take_next(ids, i as int);
            }
            r.insert(self.id_at(i).clone(), self.value_at(i).duplicate());
            i += 1;
        }
        proof {
            assert(ids.take(ids.len() as int) =~= ids);
            assert(r@ =~= self@);
        }
        r
    }
}

/// A set of task ids.
#[derive(Debug)]
pub struct IdSet {
    members: IdMap<()>,
}

impl View for IdSet {
    type V = Set<Id>;

    closed spec fn view(&self) -> Set<Id> {
        self.members@.dom()
    }
}

impl IdSet {
    /// The empty set.
    pub fn new() -> (r: Self)
        ensures
            r@ == Set::<Id>::empty(),
    {
        let r = IdSet { members: IdMap::new() };
        assert(r@ =~= Set::<Id>::empty());
        r
    }

    /// How many ids the set holds. No set is infinite.
    pub fn len(&self) -> (r: usize)
        ensures
            self@.finite(),
            r == self@.len(),
    {
        self.members.len()
    }

    pub fn contains(&self, id: &str) -> (r: bool)
        ensures
            r == self@.contains(id@),
    {
        self.members.contains_key(id)
    }

    /// Adds `id` and says whether it was new.
    pub fn insert(&mut self, id: TaskId) -> (r: bool)
        ensures
            final(self)@ == old(self)@.insert(id@),
            r == !old(self)@.contains(id@),
    {
        let ghost before = self@;
        let ghost k = id@;
        let known = self.members.contains_key(id.as_str());
        self.members.insert(id, ());
        assert(self@ =~= before.insert(k));
        !known
    }

    /// The members in increasing order.
    pub fn to_vec(&self) -> (r: Vec<TaskId>)
        ensures
            r.deep_view() == sorted_ids(self@),
            lists_in_order(r.deep_view(), self@),
    {
        let _n = self.members.len();
        self.members.keys()
    }
}

proof fn lemma_index_of(ids: Seq<Id>, i: int)
    requires
        strictly_sorted(ids),
        0 <= i < ids.len(),
    ensures
        ids.index_of(ids[i]) == i,
{
    lemma_sorted_no_duplicates(ids);
    assert(ids.contains(ids[i]));
}

proof fn lemma_insert_sorted(ids: Seq<Id>, at: int, k: Id)
    requires
        strictly_sorted(ids),
        0 <= at <= ids.len(),
        forall|i: int| 0 <= i < at ==> id_lt(#[trigger] ids[i], k),
        forall|i: int| at <= i < ids.len() ==> id_lt(k, #[trigger] ids[i]),
    ensures
        strictly_sorted(ids.insert(at, k)),
{
}

proof fn lemma_insert_contains(ids: Seq<Id>, at: int, k: Id)
    requires
        0 <= at <= ids.len(),
    ensures
        forall|x: Id| #[trigger] ids.insert(at, k).contains(x) <==> ids.contains(x) || x == k,
{
    let longer = ids.insert(at, k);
    assert forall|x: Id| #[trigger] longer.contains(x) <==> ids.contains(x) || x == k by {
        if longer.contains(x) {
            let i = choose|i: int| 0 <= i < longer.len() && longer[i] == x;
            if i < at {
                assert(ids[i] == x);
            } else if i > at {
                assert(ids[i - 1] == x);
            }
        }
        if ids.contains(x) {
            let i = choose|i: int| 0 <= i < ids.len() && ids[i] == x;
            assert(longer[if i < at { i } else { i + 1 }] == x);
        }
        if x == k {
            assert(longer[at] == x);
        }
    }
}

} // verus!
