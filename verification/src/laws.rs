//! Laws of the library: what holds of its operations taken together.

use crate::budget::{
    first_reservation, lemma_total_filter, lemma_total_swap_remove, of_others, GovernorView,
};
use crate::dag::{
    acyclic_tasks, blast_radius, dependencies_known, lemma_links_match_edges, links_match,
    repeats, task_edges, tasks_by_id, unique_ids, unknown_dependency,
};
use crate::graph::{lemma_rank_acyclic, reaches};
use crate::model::{release_all, RunEventView, SupervisorView};
use crate::order::Id;
use crate::task::TaskSpecView;
use vstd::prelude::*;

verus! {

/// A reservation, a settlement and a release each keep what is spent and
/// reserved within the budget.
pub proof fn books_stay_within_budget(g: GovernorView, task: Id, tokens: u64)
    requires
        g.within_budget(),
    ensures
        g.reserve(task, tokens).within_budget(),
        g.settle(task, tokens).within_budget(),
        g.release(task).within_budget(),
{
    assert(g.reservations.push((task, tokens)).drop_last() =~= g.reservations);
    if g.holds_reservation(task) {
        lemma_first_reservation(g.reservations, task);
        lemma_total_swap_remove(g.reservations, first_reservation(g.reservations, task));
    }
    lemma_total_filter(g.reservations, of_others(task));
}

/// The place that `first_reservation` names is in the list and holds the task,
/// or no place does.
pub proof fn lemma_first_reservation(reservations: Seq<(Id, u64)>, task: Id)
    ensures
        0 <= first_reservation(reservations, task) <= reservations.len(),
        first_reservation(reservations, task) < reservations.len() ==> reservations[first_reservation(
            reservations,
            task,
        )].0 == task,
        forall|i: int| 0 <= i < first_reservation(reservations, task) ==> (#[trigger] reservations[i]).0 != task,
    decreases reservations.len(),
{
    if reservations.len() > 0 && reservations[0].0 != task {
        let rest = reservations.drop_first();
        lemma_first_reservation(rest, task);
        assert forall|i: int| 0 <= i < first_reservation(reservations, task) implies (#[trigger] reservations[i]).0
            != task by {
            if i > 0 {
                assert(rest[i - 1] == reservations[i]);
            }
        }
    }
}

/// A settlement books what was spent, but never more than was reserved, and
/// gives the rest of the reservation back.
pub proof fn settlement_is_clamped(g: GovernorView, task: Id, actual: u64)
    requires
        g.holds_reservation(task),
    ensures
        ({
            let booked = g.settle(task, actual).settled - g.settled;
            &&& booked <= g.reservation(task)
            &&& booked <= actual
            &&& booked == actual || booked == g.reservation(task)
            &&& g.settle(task, actual).available() == g.available() + g.reservation(task) - booked
        }),
{
    lemma_first_reservation(g.reservations, task);
    lemma_total_swap_remove(g.reservations, first_reservation(g.reservations, task));
}

/// Releasing a reservation that was the task's only one undoes it.
pub proof fn release_undoes_reserve(g: GovernorView, task: Id, tokens: u64)
    requires
        !g.holds_reservation(task),
    ensures
        g.reserve(task, tokens).release(task) == g,
{
    let others = of_others(task);
    lemma_first_reservation(g.reservations, task);
    lemma_filter_keeps(g.reservations, others);
    let longer = g.reservations.push((task, tokens));
    assert(longer.drop_last() =~= g.reservations);
    assert(longer.filter(others) =~= g.reservations) by {
        reveal(Seq::filter);
    }
}

proof fn lemma_filter_keeps(all: Seq<(Id, u64)>, keep: spec_fn((Id, u64)) -> bool)
    requires
        forall|i: int| 0 <= i < all.len() ==> keep(#[trigger] all[i]),
    ensures
        all.filter(keep) == all,
    decreases all.len(),
{
    reveal(Seq::filter);
    if all.len() > 0 {
        lemma_filter_keeps(all.drop_last(), keep);
        assert(all =~= all.drop_last().push(all.last()));
    }
}

/// A reservation that fits and its settlement together cost what was spent,
/// but never more than was reserved; no other reservation is touched.
pub proof fn settle_closes_reserve(g: GovernorView, task: Id, tokens: u64, actual: u64)
    requires
        !g.holds_reservation(task),
        tokens <= g.available(),
    ensures
        ({
            let after = g.reserve(task, tokens).settle(task, actual);
            &&& after.reservations == g.reservations
            &&& after.settled == g.settled + if actual < tokens {
                actual
            } else {
                tokens
            }
            &&& after.global_budget == g.global_budget
        }),
{
    let longer = g.reservations.push((task, tokens));
    lemma_first_reservation(g.reservations, task);
    lemma_first_reservation(longer, task);
    let at = first_reservation(longer, task);
    if at < g.reservations.len() {
        assert(longer[at] == g.reservations[at]);
    }
    if at > g.reservations.len() {
        assert(longer[g.reservations.len() as int].0 != task);
    }
    if at == longer.len() {
        assert(longer[g.reservations.len() as int].0 != task);
    }
    assert(longer.update(at, longer.last()).drop_last() =~= g.reservations);
}

/// The blast radius of a task is all that depends on it, directly or through
/// others, and never the task itself.
pub proof fn blast_radius_is_all_that_depends_on_it(tasks: Map<Id, TaskSpecView>, links: Map<Id, Seq<Id>>, id: Id)
    requires
        links_match(tasks, links),
        acyclic_tasks(tasks),
    ensures
        forall|x: Id| #[trigger] blast_radius(links, id).contains(x) <==> reaches(task_edges(tasks), id, x),
        !blast_radius(links, id).contains(id),
{
    lemma_links_match_edges(tasks, links);
}

/// Releases keep the books within the budget.
proof fn lemma_release_all_within_budget(g: GovernorView, ids: Seq<Id>)
    requires
        g.within_budget(),
    ensures
        release_all(g, ids).within_budget(),
    decreases ids.len(),
{
    if ids.len() > 0 {
        lemma_release_all_within_budget(g, ids.drop_last());
        books_stay_within_budget(release_all(g, ids.drop_last()), ids.last(), 0);
    }
}

/// Nothing that a supervisor does with an event exceeds the budget.
pub proof fn events_stay_within_budget(s: SupervisorView, g: GovernorView, event: RunEventView, now_ns: u64)
    requires
        g.within_budget(),
    ensures
        s.books_after(g, event, now_ns).within_budget(),
{
    match event {
        RunEventView::Outcome { task, outcome } => {
            books_stay_within_budget(g, task, outcome.tokens());
        },
        RunEventView::Wake => {},
        RunEventView::Tick { .. } => {
            lemma_release_all_within_budget(g, s.aborts(event, now_ns));
        },
    }
}

/// Some spec before place `i` has the id `dep`.
pub open spec fn named_before(specs: Seq<TaskSpecView>, i: int, dep: Id) -> bool {
    exists|j: int| 0 <= j < i && (#[trigger] specs[j]).id == dep
}

/// Each spec depends only on specs that come before it.
pub open spec fn depends_on_earlier(specs: Seq<TaskSpecView>) -> bool {
    forall|i: int, dep: Id|
        0 <= i < specs.len() && #[trigger] specs[i].depends_on.contains(dep) ==> named_before(specs, i, dep)
}

/// Each task that is filed was given.
pub proof fn lemma_filed_spec(specs: Seq<TaskSpecView>, id: Id)
    requires
        tasks_by_id(specs).contains_key(id),
    ensures
        exists|i: int| 0 <= i < specs.len() && (#[trigger] specs[i]).id == id && specs[i] == tasks_by_id(specs)[id],
    decreases specs.len(),
{
    let n = specs.len() - 1;
    if specs.last().id == id {
        assert(specs[n].id == id);
    } else {
        let front = specs.drop_last();
        lemma_filed_spec(front, id);
        let i = choose|i: int| 0 <= i < front.len() && (#[trigger] front[i]).id == id
            && front[i] == tasks_by_id(front)[id];
        assert(specs[i] == front[i]);
    }
}

/// Each task that was given under an id of its own is filed.
proof fn lemma_spec_filed(specs: Seq<TaskSpecView>, i: int)
    requires
        0 <= i < specs.len(),
    ensures
        tasks_by_id(specs).contains_key(specs[i].id),
    decreases specs.len(),
{
    if i < specs.len() - 1 {
        lemma_spec_filed(specs.drop_last(), i);
    }
}

/// Specs with ids of their own, of which each depends only on earlier ones,
/// form a DAG.
pub proof fn specs_in_order_form_a_dag(specs: Seq<TaskSpecView>)
    requires
        unique_ids(specs),
        depends_on_earlier(specs),
    ensures
        dependencies_known(tasks_by_id(specs)),
        acyclic_tasks(tasks_by_id(specs)),
{
    let tasks = tasks_by_id(specs);
    assert forall|task: Id, dep: Id| !#[trigger] unknown_dependency(tasks, task, dep) by {
        if unknown_dependency(tasks, task, dep) {
            lemma_filed_spec(specs, task);
            let i = choose|i: int| 0 <= i < specs.len() && (#[trigger] specs[i]).id == task && specs[i] == tasks[task];
            assert(specs[i].depends_on.contains(dep));
            assert(named_before(specs, i, dep));
            let j = choose|j: int| 0 <= j < i && (#[trigger] specs[j]).id == dep;
            lemma_spec_filed(specs, j);
        }
    }
    let rank = |x: Id| choose|i: int| 0 <= i < specs.len() && (#[trigger] specs[i]).id == x;
    let edges = task_edges(tasks);
    assert forall|x: Id, y: Id| #[trigger] edges.contains((x, y)) implies rank(x) < rank(y) by {
        lemma_filed_spec(specs, y);
        let i = choose|i: int| 0 <= i < specs.len() && (#[trigger] specs[i]).id == y && specs[i] == tasks[y];
        assert(specs[i].depends_on.contains(x));
        assert(named_before(specs, i, x));
        let j = choose|j: int| 0 <= j < i && (#[trigger] specs[j]).id == x;
        assert(specs[j].id == x);
        lemma_unique_place(specs, rank(y), i);
        lemma_unique_place(specs, rank(x), j);
    }
    lemma_rank_acyclic(edges, rank);
}

/// No two places hold the same id.
proof fn lemma_unique_place(specs: Seq<TaskSpecView>, i: int, j: int)
    requires
        unique_ids(specs),
        0 <= i < specs.len(),
        0 <= j < specs.len(),
        specs[i].id == specs[j].id,
    ensures
        i == j,
{
    if i < j {
        assert(repeats(specs, j));
    }
    if j < i {
        assert(repeats(specs, i));
    }
}

} // verus!
