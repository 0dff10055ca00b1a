//! Laws of single calls: what follows from the contract of a function for
//! whoever calls it.

use crate::budget::{BudgetSnapshot, CostGovernor};
use crate::dag::{task_edges, TaskDag};
use crate::demo::{build_demo_supervisor, next_sleep, Demo};
use crate::graph::reaches;
use crate::ids::{IdMap, IdSet, TaskId};
use crate::meanings::{
    links_list_the_dependents, ready_means_all_dependencies_completed,
    sets_are_listed_whole_and_in_order,
};
use crate::order::{id_lt, Id};
use crate::scenes::snapshot_shows_every_task_once;
use crate::server::{
    connect_messages, ends_run, event_messages, node_of, run_messages, snapshot_of, sse_frame,
    StreamMsg, StreamMsgView,
};
use crate::supervisor::{RuntimeEvent, Supervisor, SupervisorConfig};
use crate::task::{TaskSpec, TaskState};
use crate::worker::Heartbeat;
use vstd::prelude::*;

verus! {

/// A new task has no dependencies, 100 000 tokens and three attempts.
pub proof fn new_task_is_unconstrained(id: &str, payload: &str, r: TaskSpec)
    requires
        call_ensures(TaskSpec::new, (id, payload), r),
    ensures
        r.id@ == id@,
        r.payload@ == payload@,
        r.depends_on.deep_view().len() == 0,
        r.token_budget == 100_000,
        r.max_attempts == 3,
{
}

/// Each builder of a task sets its own field and leaves the others alone: a
/// dependency comes behind those before it, a budget is taken as given, and so
/// is a number of attempts, but for zero, which counts as one.
pub proof fn builders_set_one_field_each(spec: TaskSpec, dep: &str, tokens: u64, n: u32, r: TaskSpec)
    ensures
        call_ensures(TaskSpec::after, (spec, dep), r) ==> {
            &&& r.depends_on.deep_view() == spec.depends_on.deep_view().push(dep@)
            &&& r.id@ == spec.id@ && r.payload@ == spec.payload@
            &&& r.token_budget == spec.token_budget && r.max_attempts == spec.max_attempts
        },
        call_ensures(TaskSpec::budget, (spec, tokens), r) ==> {
            &&& r.token_budget == tokens
            &&& r.id@ == spec.id@ && r.payload@ == spec.payload@
            &&& r.depends_on.deep_view() == spec.depends_on.deep_view() && r.max_attempts == spec.max_attempts
        },
        call_ensures(TaskSpec::attempts, (spec, n), r) ==> {
            &&& r.max_attempts >= 1
            &&& n >= 1 ==> r.max_attempts == n
            &&& n == 0 ==> r.max_attempts == 1
            &&& r.id@ == spec.id@ && r.payload@ == spec.payload@
            &&& r.depends_on.deep_view() == spec.depends_on.deep_view() && r.token_budget == spec.token_budget
        },
{
}

/// What may start is listed in id order: exactly the tasks that wait and have
/// all they depend on completed.
pub proof fn ready_tasks_are_listed(dag: TaskDag, states: IdMap<TaskState>, r: Vec<TaskId>, id: Id, i: int, j: int)
    requires
        call_ensures(TaskDag::ready, (&dag, &states), r),
    ensures
        r.deep_view().contains(id) <==> {
            &&& dag.tasks@.contains_key(id)
            &&& states@.contains_key(id) && states@[id] is Pending
            &&& forall|dep: Id| #[trigger]
                dag.tasks@[id].depends_on.contains(dep) ==> states@.contains_key(dep) && states@[dep] is Completed
        },
        0 <= i < j < r.deep_view().len() ==> id_lt(r.deep_view()[i], r.deep_view()[j]),
{
    ready_means_all_dependencies_completed(dag.tasks@, states@, id);
}

/// The dependents of a task are all that depend on it, directly or through
/// others, and nothing else.
pub proof fn dependents_are_all_that_depend_on_it(dag: TaskDag, id: &str, r: IdSet, k: Id)
    requires
        dag.valid(),
        call_ensures(TaskDag::transitive_dependents, (&dag, id), r),
    ensures
        r@.contains(k) <==> reaches(task_edges(dag.tasks@), id@, k),
        !r@.contains(id@),
{
    links_list_the_dependents(dag.tasks@, dag.dependents@, id@, k);
    links_list_the_dependents(dag.tasks@, dag.dependents@, id@, id@);
}

/// The settings that a supervisor has where nothing else is asked for.
pub proof fn settings_by_default(r: SupervisorConfig)
    requires
        call_ensures(SupervisorConfig::default, (), r),
    ensures
        r.max_concurrent == 8,
        r.stall_suspect_ms == 2_000,
        r.stall_confirm_ms == 1_000,
        r.retry_backoff_ms == 500,
        r.tick_ms == 100,
{
}

/// A supervisor names the running tasks in id order, and an attempt is under
/// way if and only if its task runs under that number.
pub proof fn running_tasks_are_named(
    s: Supervisor,
    named: Vec<TaskId>,
    task: &str,
    attempt: u32,
    under_way: bool,
    i: int,
    j: int,
)
    requires
        s@.wf(),
        call_ensures(Supervisor::running_tasks, (&s,), named),
        call_ensures(Supervisor::is_under_way, (&s, task, attempt), under_way),
    ensures
        named.deep_view().contains(task@) <==> s@.running.contains_key(task@),
        0 <= i < j < named.deep_view().len() ==> id_lt(named.deep_view()[i], named.deep_view()[j]),
        under_way <==> s@.running.contains_key(task@) && s@.running[task@].attempt == attempt,
{
    vstd::set_lib::lemma_set_subset_finite(s@.tasks.dom(), s@.running.dom());
    sets_are_listed_whole_and_in_order(s@.running.dom(), task@, i, j);
}

/// What a supervisor is asked for it gives as it is.
pub proof fn supervisor_hides_nothing(
    s: Supervisor,
    dag: &TaskDag,
    config: SupervisorConfig,
    states: IdMap<TaskState>,
)
    requires
        call_ensures(Supervisor::dag, (&s,), dag),
        call_ensures(Supervisor::config, (&s,), config),
        call_ensures(Supervisor::states, (&s,), states),
    ensures
        dag.tasks@ == s@.tasks,
        dag.dependents@ == s@.links,
        config == s@.config,
        states@ == s@.states,
{
}

/// New books have all of their budget available, and a snapshot accounts for
/// every token: what is spent, what is reserved and what is available make up
/// the budget.
pub proof fn snapshot_accounts_for_every_token(budget: u64, fresh: CostGovernor, g: CostGovernor, r: BudgetSnapshot)
    requires
        call_ensures(CostGovernor::new, (budget,), fresh),
        call_ensures(CostGovernor::snapshot, (&g,), r),
    ensures
        fresh@.global_budget == budget && fresh@.settled == 0 && fresh@.reservations.len() == 0,
        fresh@.available() == budget,
        r.settled + r.reserved + r.available == r.global_budget,
        r.global_budget == g@.global_budget,
        r.settled == g@.settled,
        r.reserved == g@.reserved(),
{
}

/// A heartbeat is as old as the time since it last beat.
pub proof fn heartbeat_ages_with_time(beat_ms: u64, h: Heartbeat, now_ms: u64, age_ms: u64)
    requires
        call_ensures(Heartbeat::new_at, (beat_ms,), h),
        call_ensures(Heartbeat::age_at, (&h, now_ms), age_ms),
    ensures
        now_ms >= beat_ms ==> beat_ms + age_ms == now_ms,
        now_ms <= beat_ms ==> age_ms == 0,
{
}

/// An agent that works never sleeps through a heartbeat: it sleeps a quarter of
/// a second at most, all that is left where that is less, and loses no work.
pub proof fn agent_beats_four_times_a_second(remaining_ms: u64, r: (u64, u64))
    requires
        call_ensures(next_sleep, (remaining_ms,), r),
    ensures
        r.0 + r.1 == remaining_ms,
        r.0 <= 250,
        r.1 > 0 ==> r.0 == 250,
{
}

/// The demo starts out with every example task waiting, half a million tokens
/// to spend, and agents that have not run.
pub proof fn demo_starts_afresh(r: Demo, id: Id)
    requires
        call_ensures(build_demo_supervisor, (), r),
    ensures
        r.supervisor@.states.contains_key(id) ==> r.supervisor@.states[id] is Pending,
        r.supervisor@.states.dom() == r.supervisor@.tasks.dom(),
        r.supervisor@.running.len() == 0,
        r.supervisor@.events.len() == 0,
        r.governor@.available() == 500_000,
        r.governor@.settled == 0,
        r.worker@.runs_of(id) == 0,
{
    assert(r.supervisor@.running.dom() =~= Set::<Id>::empty());
}

/// Every client is told of the start of a run first, and then sees all tasks.
pub proof fn start_is_told_before_the_tasks(states: IdMap<TaskState>, r: Vec<StreamMsg>)
    requires
        call_ensures(run_messages, (&states,), r),
    ensures
        r.deep_view().len() == 2,
        r.deep_view()[0] is RunStarted,
        shows_all_tasks(r.deep_view()[1], states),
{
    lemma_shows_all(states);
}

/// Every client is told of an event first, as it is, and then sees all tasks.
pub proof fn event_is_told_before_the_tasks(event: RuntimeEvent, states: IdMap<TaskState>, r: Vec<StreamMsg>)
    requires
        call_ensures(event_messages, (event, &states), r),
    ensures
        r.deep_view().len() == 2,
        r.deep_view()[0] == (StreamMsgView::Event { event: event.deep_view() }),
        shows_all_tasks(r.deep_view()[1], states),
{
    lemma_shows_all(states);
}

/// A client that connects sees all tasks where there is a run, and nothing
/// where there is none.
pub proof fn newcomer_sees_the_tasks(states: IdMap<TaskState>, some: Vec<StreamMsg>, none: Vec<StreamMsg>)
    requires
        call_ensures(connect_messages, (Some(&states),), some),
        call_ensures(connect_messages, (None::<&IdMap<TaskState>>,), none),
    ensures
        some.deep_view().len() == 1,
        shows_all_tasks(some.deep_view()[0], states),
        none.deep_view().len() == 0,
{
    lemma_shows_all(states);
}

/// The message shows every task in its state.
pub open spec fn shows_all_tasks(msg: StreamMsgView, states: IdMap<TaskState>) -> bool {
    msg matches StreamMsgView::Snapshot { tasks } && (forall|id: Id| #[trigger]
        states@.contains_key(id) ==> tasks.contains(node_of(id, states@[id]))) && tasks.len() == states@.dom().len()
}

proof fn lemma_shows_all(states: IdMap<TaskState>)
    ensures
        shows_all_tasks(StreamMsgView::Snapshot { tasks: snapshot_of(states@) }, states),
{
    let tasks = snapshot_of(states@);
    assert(states@.dom() =~= states.ids().to_set());
    vstd::seq_lib::seq_to_set_is_finite(states.ids());
    snapshot_shows_every_task_once(states@, Seq::empty(), 0, 0);
    assert forall|id: Id| #[trigger] states@.contains_key(id) implies tasks.contains(node_of(id, states@[id])) by {
        snapshot_shows_every_task_once(states@, id, 0, 0);
        let n = choose|n: int| 0 <= n < tasks.len() && (#[trigger] tasks[n]).id == id;
        snapshot_shows_every_task_once(states@, id, n, 0);
        assert(tasks[n] == node_of(id, states@[id]));
    }
}

/// A frame holds its message between the mark of the stream and a blank line.
pub proof fn frame_holds_its_message(json: &str, r: String)
    requires
        call_ensures(sse_frame, (json,), r),
    ensures
        r@.len() == 6 + json@.len() + 2,
        r@.take(6) == "data: "@,
        r@.subrange(6, 6 + json@.len() as int) == json@,
        r@[6 + json@.len() as int] == '\n' && r@.last() == '\n',
{
    reveal_strlit("data: ");
    reveal_strlit("\n\n");
    assert(r@.take(6) =~= "data: "@);
    assert(r@.subrange(6, 6 + json@.len() as int) =~= json@);
}

/// Of all events only the report of a run ends it.
pub proof fn only_the_report_ends_a_run(event: RuntimeEvent, r: bool)
    requires
        call_ensures(ends_run, (&event,), r),
    ensures
        r <==> event is RunFinished,
{
}

} // verus!
