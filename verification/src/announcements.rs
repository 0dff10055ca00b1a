//! Laws of the event stream: every decision is announced, so that who reads
//! the stream knows the state of every task.

use crate::budget::GovernorView;
use crate::dag::{is_ready, ready_set};
use crate::history::{every_run_is_sound, lemma_front_admitted, Desk, Step};
use crate::model::{
    budget_error, cancel_reason, cancellations, dispatched, exhausted_error, lemma_consider,
    lemma_recover_all, stalled_error, suspicions, Dispatch, EventView, RunEventView,
    SupervisorView,
};
use crate::order::{sorted_ids, Id};
use crate::orderly::{lemma_listed, lemma_ready_listed, lemma_stalled_listed};
use crate::task::TaskStateView;
use crate::worker::OutcomeView;
use vstd::prelude::*;

verus! {

/// What the stream tells of the state of a task: all but the output.
pub enum Status {
    Pending,
    Running { attempt: u32 },
    Blocked { question: Seq<char> },
    Completed,
    Failed { error: Seq<char> },
    Cancelled { reason: Seq<char> },
}

pub open spec fn status_of(state: TaskStateView) -> Status {
    match state {
        TaskStateView::Pending => Status::Pending,
        TaskStateView::Running { attempt } => Status::Running { attempt },
        TaskStateView::Blocked { question } => Status::Blocked { question },
        TaskStateView::Completed { .. } => Status::Completed,
        TaskStateView::Failed { error } => Status::Failed { error },
        TaskStateView::Cancelled { reason } => Status::Cancelled { reason },
    }
}

/// What a reader who took the task `k` to be in `status` takes it to be in
/// after `event`.
pub open spec fn told(status: Status, event: EventView, k: Id) -> Status {
    match event {
        EventView::TaskStarted { task, attempt } if task == k => Status::Running { attempt },
        EventView::TaskCompleted { task } if task == k => Status::Completed,
        EventView::TaskRetrying { task, .. } if task == k => Status::Pending,
        EventView::TaskBlocked { task, question } if task == k => Status::Blocked { question },
        EventView::BlockerResolved { task } if task == k => Status::Pending,
        EventView::TaskFailed { task, error } if task == k => Status::Failed { error },
        EventView::TaskCancelled { task, reason } if task == k => Status::Cancelled { reason },
        _ => status,
    }
}

/// What the reader takes the task `k` to be in after all of `events`.
pub open spec fn replay(status: Status, events: Seq<EventView>, k: Id) -> Status
    decreases events.len(),
{
    if events.len() == 0 {
        status
    } else {
        told(replay(status, events.drop_last(), k), events.last(), k)
    }
}

/// On the way from `s` to `t` the events tell every change of a state.
pub open spec fn tells(s: SupervisorView, t: SupervisorView) -> bool {
    let n = s.events.len() as int;
    &&& s.tasks == t.tasks
    &&& n <= t.events.len()
    &&& t.events.take(n) == s.events
    &&& forall|k: Id| #[trigger] s.tasks.contains_key(k) ==> status_of(t.states[k]) == replay(
        status_of(s.states[k]),
        t.events.skip(n),
        k,
    )
}

proof fn lemma_replay_append(status: Status, a: Seq<EventView>, b: Seq<EventView>, k: Id)
    ensures
        replay(status, a + b, k) == replay(replay(status, a, k), b, k),
    decreases b.len(),
{
    if b.len() == 0 {
        assert(a + b =~= a);
    } else {
        assert((a + b).drop_last() =~= a + b.drop_last());
        lemma_replay_append(status, a, b.drop_last(), k);
    }
}

proof fn lemma_tells_on(s: SupervisorView, m: SupervisorView, t: SupervisorView)
    requires
        tells(s, m),
        tells(m, t),
    ensures
        tells(s, t),
{
    let a = s.events.len() as int;
    let b = m.events.len() as int;
    let first = m.events.skip(a);
    let second = t.events.skip(b);
    assert(t.events.take(b).take(a) =~= t.events.take(a));
    assert(t.events.skip(a) =~= first + second) by {
        assert forall|i: int| 0 <= i < first.len() implies t.events.skip(a)[i] == first[i] by {
            assert(t.events.take(b)[i + a] == m.events[i + a]);
        }
    }
    assert forall|k: Id| #[trigger] s.tasks.contains_key(k) implies status_of(t.states[k]) == replay(
        status_of(s.states[k]),
        t.events.skip(a),
        k,
    ) by {
        assert(m.tasks.contains_key(k));
        lemma_replay_append(status_of(s.states[k]), first, second, k);
    }
}

proof fn lemma_tells_one(s: SupervisorView, t: SupervisorView, event: EventView)
    requires
        t.tasks == s.tasks,
        t.events == s.events.push(event),
        forall|k: Id| #[trigger] s.tasks.contains_key(k) ==> status_of(t.states[k]) == told(
            status_of(s.states[k]),
            event,
            k,
        ),
    ensures
        tells(s, t),
{
    let n = s.events.len() as int;
    assert(t.events.take(n) =~= s.events);
    let rest = t.events.skip(n);
    assert(rest =~= seq![event]);
    assert forall|k: Id| #[trigger] s.tasks.contains_key(k) implies status_of(t.states[k]) == replay(
        status_of(s.states[k]),
        rest,
        k,
    ) by {
        assert(rest.drop_last().len() == 0);
        assert(replay(status_of(s.states[k]), rest.drop_last(), k) == status_of(s.states[k]));
    }
}

proof fn lemma_tells_nothing(s: SupervisorView, t: SupervisorView)
    requires
        t.tasks == s.tasks,
        t.events == s.events,
        t.states == s.states,
    ensures
        tells(s, t),
{
    let n = s.events.len() as int;
    assert(t.events.take(n) =~= s.events);
    assert(t.events.skip(n).len() == 0);
}

/// Cancellations tell of the tasks that they cancel, and of no others.
proof fn lemma_replay_cancellations(status: Status, ids: Seq<Id>, cause: Id, k: Id)
    ensures
        replay(status, cancellations(ids, cause), k) == if ids.contains(k) {
            Status::Cancelled { reason: cancel_reason(cause) }
        } else {
            status
        },
    decreases ids.len(),
{
    let events = cancellations(ids, cause);
    if ids.len() > 0 {
        let front = ids.drop_last();
        assert(events.drop_last() =~= cancellations(front, cause));
        lemma_replay_cancellations(status, front, cause, k);
        if ids.contains(k) && k != ids.last() {
            let i = choose|i: int| 0 <= i < ids.len() && ids[i] == k;
            assert(front[i] == k);
        }
        if front.contains(k) {
            let i = choose|i: int| 0 <= i < front.len() && front[i] == k;
            assert(ids[i] == k);
        }
        assert(ids[ids.len() - 1] == ids.last());
    }
}

/// Suspicions tell of no state.
proof fn lemma_replay_suspicions(status: Status, ids: Seq<Id>, ages: Map<Id, u64>, k: Id)
    ensures
        replay(status, suspicions(ids, ages), k) == status,
    decreases ids.len(),
{
    if ids.len() > 0 {
        assert(suspicions(ids, ages).drop_last() =~= suspicions(ids.drop_last(), ages));
        lemma_replay_suspicions(status, ids.drop_last(), ages, k);
    }
}

proof fn lemma_fail_tells(s: SupervisorView, id: Id, error: Seq<char>)
    requires
        s.wf(),
        s.tasks.contains_key(id),
    ensures
        tells(s, s.fail(id, error)),
{
    let t = s.fail(id, error);
    let n = s.events.len() as int;
    let lost = s.casualties(id);
    let ids = sorted_ids(lost);
    let failed = EventView::TaskFailed { task: id, error };
    lemma_listed(s.tasks.dom(), lost);
    assert(t.events.take(n) =~= s.events);
    assert(t.events.skip(n) =~= seq![failed] + cancellations(ids, id));
    assert forall|k: Id| #[trigger] s.tasks.contains_key(k) implies status_of(t.states[k]) == replay(
        status_of(s.states[k]),
        t.events.skip(n),
        k,
    ) by {
        let first = seq![failed];
        let status = status_of(s.states[k]);
        assert(first.drop_last().len() == 0);
        assert(replay(status, first.drop_last(), k) == status);
        assert(replay(status, first, k) == told(status, failed, k));
        lemma_replay_append(status, first, cancellations(ids, id), k);
        lemma_replay_cancellations(told(status, failed, k), ids, id, k);
        assert(ids.contains(k) <==> lost.contains(k));
    }
}

/// An answer is announced.
pub proof fn answers_are_announced(s: SupervisorView, id: Id, answer: Seq<char>)
    ensures
        tells(s, s.resolve(id, answer)),
{
    if s.states.contains_key(id) && s.states[id] is Blocked {
        lemma_tells_one(s, s.resolve(id, answer), EventView::BlockerResolved { task: id });
    } else {
        lemma_tells_nothing(s, s);
    }
}

proof fn lemma_outcome_tells(s: SupervisorView, id: Id, outcome: OutcomeView, now_ns: u64)
    requires
        s.wf(),
        s.tasks.contains_key(id),
    ensures
        tells(s, s.after_outcome(id, outcome, now_ns)),
{
    let t = s.after_outcome(id, outcome, now_ns);
    match outcome {
        OutcomeView::Success { .. } => {
            lemma_tells_one(s, t, EventView::TaskCompleted { task: id });
        },
        OutcomeView::Blocked { question, .. } => {
            lemma_tells_one(s, t, EventView::TaskBlocked { task: id, question });
        },
        OutcomeView::Fatal { error, .. } => {
            lemma_fail_tells(s, id, error);
        },
        OutcomeView::Retryable { error, .. } => {
            let counted = s.count_attempt(id);
            let max = s.tasks[id].max_attempts;
            lemma_tells_nothing(s, counted);
            if counted.attempts(id) >= max {
                lemma_fail_tells(counted, id, exhausted_error(error, max));
                lemma_tells_on(s, counted, t);
            } else {
                lemma_tells_one(
                    s,
                    t,
                    EventView::TaskRetrying { task: id, attempt: (counted.attempts(id) + 1) as u32, error },
                );
            }
        },
    }
}

proof fn lemma_recover_tells(s: SupervisorView, id: Id, now_ns: u64)
    requires
        s.wf(),
        s.tasks.contains_key(id),
    ensures
        tells(s, s.recover(id, now_ns)),
{
    let removed = SupervisorView { running: s.running.remove(id), ..s };
    let confirmed = removed.emit(EventView::WorkerStallConfirmed { task: id });
    let counted = confirmed.count_attempt(id);
    let t = s.recover(id, now_ns);
    let max = s.tasks[id].max_attempts;
    lemma_tells_one(s, counted, EventView::WorkerStallConfirmed { task: id });
    if counted.attempts(id) >= max {
        lemma_fail_tells(counted, id, stalled_error(s.running[id].attempt, max));
    } else {
        lemma_tells_one(
            counted,
            t,
            EventView::TaskRetrying {
                task: id,
                attempt: (counted.attempts(id) + 1) as u32,
                error: "worker stalled (no heartbeat)"@,
            },
        );
    }
    lemma_tells_on(s, counted, t);
}

proof fn lemma_recover_all_tells(s: SupervisorView, ids: Seq<Id>, now_ns: u64)
    requires
        s.wf(),
        forall|i: int| 0 <= i < ids.len() ==> s.tasks.contains_key(#[trigger] ids[i]),
    ensures
        tells(s, s.recover_all(ids, now_ns)),
    decreases ids.len(),
{
    if ids.len() == 0 {
        lemma_tells_nothing(s, s);
    } else {
        let front = ids.drop_last();
        assert forall|i: int| 0 <= i < front.len() implies s.tasks.contains_key(#[trigger] front[i]) by {
            assert(ids[i] == front[i]);
        }
        assert(ids[ids.len() - 1] == ids.last());
        lemma_recover_all_tells(s, front, now_ns);
        lemma_recover_all(s, front, now_ns);
        let m = s.recover_all(front, now_ns);
        lemma_recover_tells(m, ids.last(), now_ns);
        lemma_tells_on(s, m, s.recover_all(ids, now_ns));
    }
}

/// What the supervisor makes of an event is announced.
pub proof fn events_are_announced(s: SupervisorView, event: RunEventView, now_ns: u64)
    requires
        s.wf(),
        event matches RunEventView::Outcome { task, .. } ==> s.tasks.contains_key(task),
    ensures
        tells(s, s.after_event(event, now_ns)),
{
    match event {
        RunEventView::Outcome { task, outcome } => {
            let removed = SupervisorView { running: s.running.remove(task), ..s };
            lemma_tells_nothing(s, removed);
            lemma_outcome_tells(removed, task, outcome, now_ns);
            lemma_tells_on(s, removed, s.after_event(event, now_ns));
        },
        RunEventView::Wake => {
            lemma_tells_nothing(s, s);
        },
        RunEventView::Tick { ages } => {
            let seen = s.observe(ages, now_ns);
            let ids = sorted_ids(s.stalled(ages, now_ns));
            let n = s.events.len() as int;
            assert(tells(s, seen)) by {
                let suspects = sorted_ids(s.suspects(ages, now_ns));
                assert(seen.events.take(n) =~= s.events);
                assert(seen.events.skip(n) =~= suspicions(suspects, ages));
                assert forall|k: Id| #[trigger] s.tasks.contains_key(k) implies status_of(seen.states[k]) == replay(
                    status_of(s.states[k]),
                    seen.events.skip(n),
                    k,
                ) by {
                    lemma_replay_suspicions(status_of(s.states[k]), suspects, ages, k);
                }
            }
            lemma_stalled_listed(s, ages, now_ns);
            lemma_recover_all_tells(seen, ids, now_ns);
            lemma_tells_on(s, seen, s.after_check(ages, now_ns));
        },
    }
}

proof fn lemma_consider_tells(d: Dispatch, id: Id, now_ns: u64)
    requires
        d.supervisor.wf(),
        d.supervisor.tasks.contains_key(id),
    ensures
        tells(d.supervisor, d.consider(id, now_ns).supervisor),
{
    let s = d.supervisor;
    let t = d.consider(id, now_ns).supervisor;
    if s.in_backoff(id, now_ns) {
        lemma_tells_nothing(s, s);
    } else if s.tasks[id].token_budget > d.governor.available() {
        let requested = s.tasks[id].token_budget;
        let available = d.governor.available() as u64;
        let rejected = EventView::BudgetRejected { task: id, requested, available };
        let m = s.emit(rejected);
        lemma_tells_one(s, m, rejected);
        if m.running.len() == 0 {
            lemma_fail_tells(m, id, budget_error(requested, available));
            lemma_tells_on(s, m, t);
        }
    } else {
        lemma_tells_one(s, t, EventView::TaskStarted { task: id, attempt: (s.attempts(id) + 1) as u32 });
    }
}

proof fn lemma_consider_all_tells(d: Dispatch, ids: Seq<Id>, now_ns: u64)
    requires
        d.supervisor.wf(),
        forall|i: int| 0 <= i < ids.len() ==> d.supervisor.tasks.contains_key(#[trigger] ids[i]),
    ensures
        tells(d.supervisor, d.consider_all(ids, now_ns).supervisor),
        d.consider_all(ids, now_ns).supervisor.wf(),
    decreases ids.len(),
{
    let s = d.supervisor;
    if ids.len() == 0 {
        lemma_tells_nothing(s, s);
    } else {
        let front = ids.drop_last();
        assert forall|i: int| 0 <= i < front.len() implies s.tasks.contains_key(#[trigger] front[i]) by {
            assert(ids[i] == front[i]);
        }
        assert(ids[ids.len() - 1] == ids.last());
        lemma_consider_all_tells(d, front, now_ns);
        let m = d.consider_all(front, now_ns);
        if !m.full() {
            lemma_consider(m, ids.last(), now_ns);
            lemma_consider_tells(m, ids.last(), now_ns);
            lemma_tells_on(s, m.supervisor, d.consider_all(ids, now_ns).supervisor);
        }
    }
}

/// What a dispatch does is announced.
pub proof fn dispatches_are_announced(s: SupervisorView, g: GovernorView, now_ns: u64)
    requires
        s.wf(),
    ensures
        tells(s, dispatched(s, g, now_ns).supervisor),
{
    let ids = sorted_ids(ready_set(s.tasks, s.states));
    lemma_ready_listed(s);
    assert forall|i: int| 0 <= i < ids.len() implies s.tasks.contains_key(#[trigger] ids[i]) by {
        assert(is_ready(s.tasks, s.states, ids[i]));
    }
    lemma_consider_all_tells(Dispatch { supervisor: s, governor: g, launches: Seq::empty() }, ids, now_ns);
}

/// The end of a run is announced, and changes no state.
proof fn lemma_conclusion_tells(s: SupervisorView)
    ensures
        tells(s, s.concluded()),
{
    if s.all_terminal() {
        lemma_tells_one(
            s,
            s.finished(),
            EventView::RunFinished {
                completed: s.completed_tasks().len() as usize,
                failed: s.failed_tasks().len() as usize,
                cancelled: s.cancelled_tasks().len() as usize,
            },
        );
    } else {
        lemma_tells_nothing(s, s);
    }
}

/// All that has been fetched of the stream in the course of the steps.
pub open spec fn fetched(d: Desk, steps: Seq<Step>) -> Seq<EventView>
    decreases steps.len(),
{
    if steps.len() == 0 {
        Seq::empty()
    } else {
        let front = steps.drop_last();
        match steps.last() {
            Step::Fetch => fetched(d, front) + d.after_all(front).supervisor.events,
            _ => fetched(d, front),
        }
    }
}

/// Every decision is announced: at every moment of every run, what has been
/// fetched of the stream and what waits to be fetched tell the state of every
/// task.
pub proof fn stream_tells_every_state(d: Desk, steps: Seq<Step>, k: Id)
    requires
        d.fresh(),
        d.admits_all(steps),
        d.supervisor.tasks.contains_key(k),
    ensures
        ({
            let s = d.after_all(steps).supervisor;
            status_of(s.states[k]) == replay(Status::Pending, fetched(d, steps) + s.events, k)
        }),
    decreases steps.len(),
{
    if steps.len() == 0 {
        assert(fetched(d, steps) + d.supervisor.events =~= Seq::<EventView>::empty());
    } else {
        let front = steps.drop_last();
        lemma_front_admitted(d, steps);
        stream_tells_every_state(d, front, k);
        every_run_is_sound(d, front);
        let m = d.after_all(front);
        let s = m.supervisor;
        let t = m.after(steps.last()).supervisor;
        match steps.last() {
            Step::Answer { id, answer } => {
                answers_are_announced(s, id, answer);
            },
            Step::Event { event, now_ns } => {
                events_are_announced(s, event, now_ns);
            },
            Step::Advance { now_ns } => {
                let u = dispatched(s, m.governor, now_ns).supervisor;
                dispatches_are_announced(s, m.governor, now_ns);
                lemma_conclusion_tells(u);
                lemma_tells_on(s, u, t);
            },
            Step::Fetch => {},
            Step::TakeWake => {
                lemma_tells_nothing(s, t);
            },
        }
        let read = fetched(d, front);
        if steps.last() is Fetch {
            assert(fetched(d, steps) + t.events =~= read + s.events);
        } else {
            let n = s.events.len() as int;
            let news = t.events.skip(n);
            assert(read + t.events =~= (read + s.events) + news) by {
                assert(t.events =~= t.events.take(n) + news);
            }
            lemma_replay_append(Status::Pending, read + s.events, news, k);
        }
    }
}

} // verus!
