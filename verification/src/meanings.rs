//! What the notions behind the contracts mean: numbers as text, the order of
//! ids, time, and the DAG, each by a property that no other notion has.

use crate::dag::{
    acyclic_tasks, blast_radius, completed, dependencies_known, dependency_count, filed_by_id,
    first_unknown_dependency, is_first_repeat, is_ready, lemma_links_match_edges, link_count,
    links_match, ready_set, repeats, task_edges, tasks_by_id, unique_ids, unknown_dependency,
    DagError,
};
use crate::graph::{
    lemma_closed_set, lemma_edge_reaches, lemma_occurrences_contains, lemma_rank_acyclic,
    lemma_reaches_then_edge, occurrences, reaches, Edges,
};
use crate::laws::lemma_filed_spec;
use crate::model::{EventView, RunEventView};
use crate::order::{
    id_lt, lemma_finite_set_is_listed, lemma_order_len, lemma_sorted_no_duplicates, sorted_ids, Id,
};
use crate::supervisor::{Launch, RunEvent, RunReport, RuntimeEvent};
use crate::task::{TaskSpec, TaskSpecView, TaskState, TaskStateView};
use crate::text::decimal;
use crate::worker::{elapsed_ms, reading_ms, OutcomeView, WorkerOutcome};
use vstd::prelude::*;

verus! {

/// The number that a text of decimal digits stands for.
pub open spec fn number_of(text: Seq<char>) -> int
    decreases text.len(),
{
    if text.len() == 0 {
        0
    } else {
        10 * number_of(text.drop_last()) + (text.last() as int - '0' as int)
    }
}

/// A number is written in decimal digits that stand for it, at least one and no
/// zero too many.
pub proof fn numbers_are_written_in_decimal(n: nat)
    ensures
        number_of(decimal(n)) == n,
        decimal(n).len() >= 1,
        forall|i: int| 0 <= i < decimal(n).len() ==> '0' <= #[trigger] decimal(n)[i] <= '9',
        n > 0 ==> decimal(n)[0] != '0',
        n == 0 ==> decimal(n).len() == 1,
    decreases n,
{
    let text = decimal(n);
    if n < 10 {
        assert(text.drop_last() =~= Seq::<char>::empty());
        assert(number_of(text.drop_last()) == 0);
    } else {
        numbers_are_written_in_decimal(n / 10);
        assert(text.drop_last() =~= decimal(n / 10));
        assert(text[0] == decimal(n / 10)[0]);
    }
}

/// Different numbers are written differently.
pub proof fn numbers_can_be_told_apart(m: nat, n: nat)
    requires
        decimal(m) == decimal(n),
    ensures
        m == n,
{
    numbers_are_written_in_decimal(m);
    numbers_are_written_in_decimal(n);
}

/// Up to `k` the ids are the same, and at `k` `a` ends or has the smaller
/// character.
pub open spec fn parts_below_at(a: Id, b: Id, k: int) -> bool {
    &&& 0 <= k < b.len()
    &&& k <= a.len()
    &&& forall|i: int| 0 <= i < k ==> #[trigger] a[i] == b[i]
    &&& k == a.len() || a[k] < b[k]
}

/// Ids are ordered by their first difference.
pub proof fn ids_are_ordered_by_their_first_difference(a: Id, b: Id)
    ensures
        id_lt(a, b) <==> exists|k: int| parts_below_at(a, b, k),
    decreases a.len(),
{
    if b.len() == 0 {
    } else if a.len() == 0 {
        assert(parts_below_at(a, b, 0));
    } else if a[0] != b[0] {
        if a[0] < b[0] {
            assert(parts_below_at(a, b, 0));
        }
        assert forall|k: int| parts_below_at(a, b, k) implies a[0] < b[0] by {
            if k > 0 {
                assert(a[0] == b[0]);
            }
        }
    } else {
        let c = a.drop_first();
        let d = b.drop_first();
        ids_are_ordered_by_their_first_difference(c, d);
        if id_lt(c, d) {
            let k = choose|k: int| parts_below_at(c, d, k);
            assert forall|i: int| 0 <= i < k + 1 implies #[trigger] a[i] == b[i] by {
                if i > 0 {
                    assert(c[i - 1] == d[i - 1]);
                }
            }
            assert(parts_below_at(a, b, k + 1));
        }
        if exists|k: int| parts_below_at(a, b, k) {
            let k = choose|k: int| parts_below_at(a, b, k);
            assert(k > 0);
            assert forall|i: int| 0 <= i < k - 1 implies #[trigger] c[i] == d[i] by {
                assert(a[i + 1] == b[i + 1]);
            }
            assert(parts_below_at(c, d, k - 1));
        }
    }
}

/// A finite set of ids is listed whole, each id once, and in order.
pub proof fn sets_are_listed_whole_and_in_order(set: Set<Id>, x: Id, i: int, j: int)
    requires
        set.finite(),
    ensures
        sorted_ids(set).contains(x) <==> set.contains(x),
        sorted_ids(set).len() == set.len(),
        0 <= i < j < sorted_ids(set).len() ==> sorted_ids(set)[i] != sorted_ids(set)[j] && id_lt(
            sorted_ids(set)[i],
            sorted_ids(set)[j],
        ),
{
    lemma_finite_set_is_listed(set);
    lemma_order_len(sorted_ids(set), set);
    lemma_sorted_no_duplicates(sorted_ids(set));
}

/// The time that has passed, added to when it began, gives the present; a clock
/// that went back has let no time pass.
pub proof fn time_passes_forward(earlier_ms: u64, now_ms: u64)
    ensures
        earlier_ms <= now_ms ==> earlier_ms + elapsed_ms(earlier_ms, now_ms) == now_ms,
        now_ms <= earlier_ms ==> elapsed_ms(earlier_ms, now_ms) == 0,
{
}

/// A clock reading that fits in 64 bits counts as it is, and of any other what
/// is left of whole turns; no reading counts as zero.
pub proof fn readings_count_as_they_are(millis: u128)
    ensures
        millis <= u64::MAX ==> reading_ms(Some(millis)) == millis,
        exists|turns: int| #[trigger] (turns * 0x1_0000_0000_0000_0000) + reading_ms(Some(millis)) == millis,
        reading_ms(None) == 0,
{
    let turns = (millis / 0x1_0000_0000_0000_0000) as int;
    assert((turns * 0x1_0000_0000_0000_0000) + reading_ms(Some(millis)) == millis);
}

/// The spend of an attempt is what it reports, however it ended.
pub proof fn spend_is_what_is_reported(text: Seq<char>, tokens_used: u64)
    ensures
        (OutcomeView::Success { output: text, tokens_used }).tokens() == tokens_used,
        (OutcomeView::Retryable { error: text, tokens_used }).tokens() == tokens_used,
        (OutcomeView::Blocked { question: text, tokens_used }).tokens() == tokens_used,
        (OutcomeView::Fatal { error: text, tokens_used }).tokens() == tokens_used,
{
}

/// A task is at its end once it has completed, failed or been cancelled, and
/// not while it waits, runs or asks.
pub proof fn ends_are_final_states_only(text: Seq<char>, attempt: u32)
    ensures
        (TaskStateView::Completed { output: text }).terminal(),
        (TaskStateView::Failed { error: text }).terminal(),
        (TaskStateView::Cancelled { reason: text }).terminal(),
        !TaskStateView::Pending.terminal(),
        !(TaskStateView::Running { attempt }).terminal(),
        !(TaskStateView::Blocked { question: text }).terminal(),
{
}

/// Ids are unique if and only if any two specs have different ones.
pub proof fn unique_ids_differ_pairwise(specs: Seq<TaskSpecView>)
    ensures
        unique_ids(specs) <==> forall|i: int, j: int|
            0 <= i < specs.len() && 0 <= j < specs.len() && i != j ==> (#[trigger] specs[i]).id != (
            #[trigger] specs[j]).id,
{
    if unique_ids(specs) {
        assert forall|i: int, j: int| 0 <= i < specs.len() && 0 <= j < specs.len() && i != j implies (
        #[trigger] specs[i]).id != (#[trigger] specs[j]).id by {
            assert(!repeats(specs, i));
            assert(!repeats(specs, j));
        }
    }
}

/// The first spec that repeats an id repeats one of those before it, which all
/// differ; so there is one such spec at most, and one if ids repeat at all.
pub proof fn first_repeat_is_the_first(specs: Seq<TaskSpecView>, i: int, k: int)
    requires
        is_first_repeat(specs, i),
    ensures
        exists|j: int| 0 <= j < i < specs.len() && (#[trigger] specs[j]).id == specs[i].id,
        unique_ids(specs.take(i)),
        !unique_ids(specs),
        is_first_repeat(specs, k) ==> k == i,
{
    let front = specs.take(i);
    assert forall|j: int| 0 <= j < front.len() implies !#[trigger] repeats(front, j) by {
        assert(!repeats(specs, j));
        if repeats(front, j) {
            let n = choose|n: int| 0 <= n < j && (#[trigger] front[n]).id == front[j].id;
            assert(specs[n].id == specs[j].id);
        }
    }
    assert(repeats(specs, i));
    if is_first_repeat(specs, k) {
        assert(repeats(specs, k));
    }
}

/// Specs with ids of their own are filed all, each under its id, and nothing
/// else is.
pub proof fn specs_are_filed_under_their_ids(specs: Seq<TaskSpecView>, i: int, id: Id)
    requires
        unique_ids(specs),
    ensures
        0 <= i < specs.len() ==> tasks_by_id(specs).contains_key(specs[i].id) && tasks_by_id(specs)[specs[i].id]
            == specs[i],
        tasks_by_id(specs).contains_key(id) ==> exists|j: int|
            0 <= j < specs.len() && (#[trigger] specs[j]).id == id && specs[j] == tasks_by_id(specs)[id],
{
    if 0 <= i < specs.len() {
        lemma_filed(specs, i);
    }
    if tasks_by_id(specs).contains_key(id) {
        lemma_filed_spec(specs, id);
    }
}

proof fn lemma_filed(specs: Seq<TaskSpecView>, i: int)
    requires
        unique_ids(specs),
        0 <= i < specs.len(),
    ensures
        tasks_by_id(specs).contains_key(specs[i].id),
        tasks_by_id(specs)[specs[i].id] == specs[i],
    decreases specs.len(),
{
    let n = specs.len() - 1;
    if i < n {
        let front = specs.drop_last();
        assert forall|j: int| 0 <= j < front.len() implies !#[trigger] repeats(front, j) by {
            assert(!repeats(specs, j));
            if repeats(front, j) {
                let k = choose|k: int| 0 <= k < j && (#[trigger] front[k]).id == front[j].id;
                assert(specs[k].id == specs[j].id);
            }
        }
        lemma_filed(front, i);
        assert(front[i] == specs[i]);
        assert(!repeats(specs, n));
        assert(specs[i].id != specs[n].id);
    }
}

/// Dependencies are known if and only if every task depends on tasks only; one
/// that is not known is named by a task and is none.
pub proof fn dependencies_are_tasks(tasks: Map<Id, TaskSpecView>, task: Id, dep: Id)
    ensures
        dependencies_known(tasks) <==> forall|k: Id, i: int|
            tasks.contains_key(k) && 0 <= i < tasks[k].depends_on.len() ==> tasks.contains_key(
                #[trigger] tasks[k].depends_on[i],
            ),
        unknown_dependency(tasks, task, dep) <==> tasks.contains_key(task) && !tasks.contains_key(dep) && exists|i: int|
            0 <= i < tasks[task].depends_on.len() && #[trigger] tasks[task].depends_on[i] == dep,
        first_unknown_dependency(tasks, task, dep) ==> unknown_dependency(tasks, task, dep),
{
    if dependencies_known(tasks) {
        assert forall|k: Id, i: int| tasks.contains_key(k) && 0 <= i < tasks[k].depends_on.len() implies
            tasks.contains_key(#[trigger] tasks[k].depends_on[i]) by {
            assert(!unknown_dependency(tasks, k, tasks[k].depends_on[i]));
            assert(tasks[k].depends_on.contains(tasks[k].depends_on[i]));
        }
    } else {
        let (k, d) = choose|k: Id, d: Id| #[trigger] unknown_dependency(tasks, k, d);
        let i = choose|i: int| 0 <= i < tasks[k].depends_on.len() && tasks[k].depends_on[i] == d;
        assert(!tasks.contains_key(tasks[k].depends_on[i]));
    }
    if first_unknown_dependency(tasks, task, dep) {
        let i = choose|i: int|
            0 <= i < tasks[task].depends_on.len() && #[trigger] tasks[task].depends_on[i] == dep && forall|q: int|
                0 <= q < i ==> tasks.contains_key(#[trigger] tasks[task].depends_on[q]);
        assert(tasks[task].depends_on.contains(dep));
    }
}

/// No dependency before the first unknown one is unknown, so a task has one
/// such at most.
pub proof fn first_unknown_dependency_is_the_first(tasks: Map<Id, TaskSpecView>, task: Id, a: Id, b: Id)
    requires
        first_unknown_dependency(tasks, task, a),
        first_unknown_dependency(tasks, task, b),
    ensures
        a == b,
{
    let deps = tasks[task].depends_on;
    let i = choose|i: int|
        0 <= i < tasks[task].depends_on.len() && #[trigger] tasks[task].depends_on[i] == a && forall|q: int|
            0 <= q < i ==> tasks.contains_key(#[trigger] tasks[task].depends_on[q]);
    let j = choose|j: int|
        0 <= j < tasks[task].depends_on.len() && #[trigger] tasks[task].depends_on[j] == b && forall|q: int|
            0 <= q < j ==> tasks.contains_key(#[trigger] tasks[task].depends_on[q]);
    assert(tasks[task].depends_on[i] == a && tasks[task].depends_on[j] == b);
}

/// What `a` reaches is what is in every set that holds what an edge leads to
/// from `a` or from a member.
pub proof fn reach_is_the_least_closed_set(edges: Edges, a: Id, b: Id)
    ensures
        reaches(edges, a, b) <==> forall|set: Set<Id>|
            (forall|x: Id, y: Id| (x == a || set.contains(x)) && #[trigger] edges.contains((x, y)) ==> set.contains(y))
                ==> #[trigger] set.contains(b),
{
    if reaches(edges, a, b) {
        assert forall|set: Set<Id>|
            (forall|x: Id, y: Id| (x == a || set.contains(x)) && #[trigger] edges.contains((x, y)) ==> set.contains(
                y,
            )) implies #[trigger] set.contains(b) by {
            lemma_closed_set(edges, a, set, b);
        }
    } else {
        let set = Set::new(|x: Id| reaches(edges, a, x));
        assert forall|x: Id, y: Id| (x == a || set.contains(x)) && #[trigger] edges.contains((x, y)) implies
            set.contains(
            y,
        ) by {
            if x == a {
                lemma_edge_reaches(edges, a, y);
            } else {
                lemma_reaches_then_edge(edges, a, x, y);
            }
        }
        assert(!set.contains(b));
    }
}

/// An edge leads from each task to those that name it among their dependencies.
pub proof fn edges_follow_dependencies(tasks: Map<Id, TaskSpecView>, a: Id, b: Id)
    ensures
        task_edges(tasks).contains((a, b)) <==> tasks.contains_key(b) && exists|i: int|
            0 <= i < tasks[b].depends_on.len() && tasks[b].depends_on[i] == a,
{
}

/// Tasks that can be numbered so that each comes after all it depends on have
/// no cycle; and a task on a cycle is one that depends on itself in the end.
pub proof fn numbered_tasks_have_no_cycle(tasks: Map<Id, TaskSpecView>, number: spec_fn(Id) -> int, a: Id)
    ensures
        (forall|x: Id, y: Id| #[trigger] task_edges(tasks).contains((x, y))
            ==> number(x) < number(y)) ==> acyclic_tasks(
            tasks,
        ),
        reaches(task_edges(tasks), a, a) ==> !acyclic_tasks(tasks),
{
    if forall|x: Id, y: Id| #[trigger] task_edges(tasks).contains((x, y)) ==> number(x) < number(y) {
        lemma_rank_acyclic(task_edges(tasks), number);
    }
}

/// Where the links match, each task is listed with exactly those that depend on
/// it, as often as they name it; and its failure concerns all that depend on it
/// directly or through others.
pub proof fn links_list_the_dependents(tasks: Map<Id, TaskSpecView>, links: Map<Id, Seq<Id>>, dep: Id, task: Id)
    requires
        links_match(tasks, links),
    ensures
        links.contains_key(dep) && links[dep].contains(task) <==> tasks.contains_key(task)
            && tasks[task].depends_on.contains(dep),
        links.contains_key(dep) && tasks.contains_key(task) ==> occurrences(links[dep], task) == occurrences(
            tasks[task].depends_on,
            dep,
        ),
        links.contains_key(dep) ==> exists|k: Id| tasks.contains_key(k) && tasks[k].depends_on.contains(dep),
        blast_radius(links, dep).contains(task) <==> reaches(task_edges(tasks), dep, task),
{
    assert(link_count(links, dep, task) == dependency_count(tasks, dep, task));
    if links.contains_key(dep) {
        lemma_occurrences_contains(links[dep], task);
        let k = links[dep][0];
        assert(links[dep].contains(k));
        lemma_occurrences_contains(links[dep], k);
        assert(link_count(links, dep, k) == dependency_count(tasks, dep, k));
        lemma_occurrences_contains(tasks[k].depends_on, dep);
        assert(tasks.contains_key(k) && tasks[k].depends_on.contains(dep));
    }
    if tasks.contains_key(task) {
        lemma_occurrences_contains(tasks[task].depends_on, dep);
    }
    lemma_links_match_edges(tasks, links);
}

/// Each place of a list counts once for the id that it holds.
pub proof fn occurrences_are_counted(ids: Seq<Id>, y: Id, x: Id)
    ensures
        occurrences(Seq::<Id>::empty(), x) == 0,
        x == y ==> occurrences(ids.push(y), x) == occurrences(ids, x) + 1,
        x != y ==> occurrences(ids.push(y), x) == occurrences(ids, x),
{
    assert(ids.push(y).drop_last() =~= ids);
}

/// A task may start if and only if it waits and all it depends on has
/// completed: while one dependency has not, it may not.
pub proof fn ready_means_all_dependencies_completed(
    tasks: Map<Id, TaskSpecView>,
    states: Map<Id, TaskStateView>,
    id: Id,
)
    ensures
        ready_set(tasks, states).contains(id) <==> is_ready(tasks, states, id),
        is_ready(tasks, states, id) <==> tasks.contains_key(id) && states.contains_key(id) && states[id]
            == TaskStateView::Pending && forall|dep: Id| #[trigger]
            tasks[id].depends_on.contains(dep) ==> states.contains_key(dep) && states[dep] is Completed,
{
    let deps = tasks[id].depends_on;
    if is_ready(tasks, states, id) {
        assert forall|dep: Id| #[trigger] tasks[id].depends_on.contains(dep) implies states.contains_key(dep)
            && states[dep] is Completed by {
            let i = choose|i: int| 0 <= i < deps.len() && deps[i] == dep;
            assert(completed(states, tasks[id].depends_on[i]));
        }
    }
    if forall|dep: Id| #[trigger]
        tasks[id].depends_on.contains(dep) ==> states.contains_key(dep) && states[dep] is Completed {
        assert forall|i: int| 0 <= i < deps.len() implies completed(states, #[trigger] tasks[id].depends_on[i]) by {
            assert(tasks[id].depends_on.contains(deps[i]));
        }
    }
}

/// The errors of a DAG name what is wrong with it.
pub proof fn dag_errors_say_what_is_wrong(e: DagError)
    ensures
        e matches DagError::DuplicateId(id) ==> e.text() == "duplicate task id: "@ + id@,
        e matches DagError::UnknownDependency { task, dep } ==> e.text() == "task "@ + task@
            + " depends on unknown task "@ + dep@,
        e matches DagError::Cycle(id) ==> e.text() == "dependency cycle involving task "@ + id@,
{
}

/// Tasks are filed by id if and only if looking one up by its id finds it.
pub proof fn filed_tasks_are_found(tasks: Map<Id, TaskSpecView>, id: Id)
    requires
        filed_by_id(tasks),
        tasks.contains_key(id),
    ensures
        tasks[id].id == id,
        tasks[tasks[id].id] == tasks[id],
{
}

/// A task spec is seen field by field.
pub proof fn task_specs_are_seen_whole(spec: TaskSpec)
    ensures
        spec.deep_view().id == spec.id@,
        spec.deep_view().payload == spec.payload@,
        spec.deep_view().depends_on == spec.depends_on.deep_view(),
        spec.deep_view().token_budget == spec.token_budget,
        spec.deep_view().max_attempts == spec.max_attempts,
{
}

/// A task state is seen as what it is, with its text.
pub proof fn task_states_are_seen_whole(state: TaskState)
    ensures
        state is Pending <==> state.deep_view() is Pending,
        state matches TaskState::Running { attempt } ==> state.deep_view() == (TaskStateView::Running { attempt }),
        state matches TaskState::Blocked { question } ==> state.deep_view() == (TaskStateView::Blocked {
            question: question@,
        }),
        state matches TaskState::Completed { output } ==> state.deep_view() == (TaskStateView::Completed {
            output: output@,
        }),
        state matches TaskState::Failed { error } ==> state.deep_view() == (TaskStateView::Failed { error: error@ }),
        state matches TaskState::Cancelled { reason } ==> state.deep_view() == (TaskStateView::Cancelled {
            reason: reason@,
        }),
{
}

/// An outcome is seen as what it is, with its text and its spend.
pub proof fn outcomes_are_seen_whole(outcome: WorkerOutcome)
    ensures
        outcome matches WorkerOutcome::Success { output, tokens_used } ==> outcome@ == (OutcomeView::Success {
            output: output@,
            tokens_used,
        }),
        outcome matches WorkerOutcome::Retryable { error, tokens_used } ==> outcome@ == (OutcomeView::Retryable {
            error: error@,
            tokens_used,
        }),
        outcome matches WorkerOutcome::Blocked { question, tokens_used } ==> outcome@ == (OutcomeView::Blocked {
            question: question@,
            tokens_used,
        }),
        outcome matches WorkerOutcome::Fatal { error, tokens_used } ==> outcome@ == (OutcomeView::Fatal {
            error: error@,
            tokens_used,
        }),
{
}

/// A runtime event is seen as what it is, with all it says.
pub proof fn runtime_events_are_seen_whole(event: RuntimeEvent)
    ensures
        event matches RuntimeEvent::TaskStarted { task, attempt } ==> event.deep_view() == (EventView::TaskStarted {
            task: task@,
            attempt,
        }),
        event matches RuntimeEvent::TaskCompleted { task } ==> event.deep_view() == (EventView::TaskCompleted {
            task: task@,
        }),
        event matches RuntimeEvent::TaskRetrying { task, attempt, error } ==> event.deep_view() == (
        EventView::TaskRetrying { task: task@, attempt, error: error@ }),
        event matches RuntimeEvent::TaskBlocked { task, question } ==> event.deep_view() == (EventView::TaskBlocked {
            task: task@,
            question: question@,
        }),
        event matches RuntimeEvent::BlockerResolved { task } ==> event.deep_view() == (EventView::BlockerResolved {
            task: task@,
        }),
        event matches RuntimeEvent::TaskFailed { task, error } ==> event.deep_view() == (EventView::TaskFailed {
            task: task@,
            error: error@,
        }),
        event matches RuntimeEvent::TaskCancelled { task, reason } ==> event.deep_view() == (EventView::TaskCancelled {
            task: task@,
            reason: reason@,
        }),
        event matches RuntimeEvent::WorkerStallSuspected { task, heartbeat_age_ms } ==> event.deep_view() == (
        EventView::WorkerStallSuspected { task: task@, heartbeat_age_ms }),
        event matches RuntimeEvent::WorkerStallConfirmed { task } ==> event.deep_view() == (
        EventView::WorkerStallConfirmed { task: task@ }),
        event matches RuntimeEvent::BudgetRejected { task, requested, available } ==> event.deep_view() == (
        EventView::BudgetRejected { task: task@, requested, available }),
        event matches RuntimeEvent::RunFinished { completed, failed, cancelled } ==> event.deep_view() == (
        EventView::RunFinished { completed, failed, cancelled }),
{
}

/// What the run loop hands over and takes back is seen field by field.
pub proof fn run_values_are_seen_whole(launch: Launch, report: RunReport, event: RunEvent)
    ensures
        launch.deep_view().spec == launch.spec.deep_view(),
        launch.deep_view().attempt == launch.attempt,
        launch.answer is None <==> launch.deep_view().answer is None,
        launch.answer matches Some(answer) ==> launch.deep_view().answer == Some(answer@),
        report@.states == report.states@,
        report@.completed == report.completed && report@.failed == report.failed && report@.cancelled
            == report.cancelled,
        event matches RunEvent::Outcome { task, outcome } ==> event@ == (RunEventView::Outcome {
            task: task@,
            outcome: outcome@,
        }),
        event is Wake ==> event@ is Wake,
        event matches RunEvent::Tick { ages } ==> event@ == (RunEventView::Tick { ages: ages@ }),
{
}

} // verus!
