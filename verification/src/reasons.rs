//! Why a task is in the state that it is in: for each state what a step must
//! have brought for a task to come to it.

use crate::checking::stall_of_the_last_attempt_fails_the_task;
use crate::dag::{is_ready, task_edges};
use crate::dispatching::{
    dispatch_cancels_only_what_waits_for_a_failure, has_its_turn, is_covered, nothing_under_way,
    task_fails_only_if_no_budget_can_come_back, task_starts_if_and_only_if_its_turn_allows,
    want_of_budget,
};
use crate::effects::{lemma_fails, on_record, waiting_on};
use crate::graph::reaches;
use crate::history::{Desk, Step};
use crate::model::{dispatched, lemma_recover_all, EventView, RunEventView, SupervisorView};
use crate::order::{sorted_ids, Id};
use crate::orderly::{
    lemma_observe_orderly, lemma_recover_all_orderly, lemma_recover_orderly, lemma_stalled_listed,
};
use crate::scheduling::started;
use crate::task::TaskStateView;
use crate::text::decimal;
use crate::worker::OutcomeView;
use vstd::prelude::*;

verus! {

/// The attempt in progress is the last that the task has.
pub open spec fn on_last_attempt(s: SupervisorView, k: Id) -> bool {
    on_record(s.attempts_done, k) + 1 >= s.tasks[k].max_attempts
}

/// From `s` to `t` the failure of some task cancels the task `k`, which depends
/// on it, and is given as the reason.
pub open spec fn cancelled_by_a_failure(s: SupervisorView, t: SupervisorView, k: Id) -> bool {
    exists|f: Id| #[trigger]
        reaches(task_edges(s.tasks), f, k) && s.tasks.contains_key(f) && !(s.states[f] is Failed)
            && t.states[f] is Failed && t.states[k] == (TaskStateView::Cancelled {
            reason: "upstream task "@ + f + " failed"@,
        })
}

/// What giving up the attempts of `ids` may make of the state of `k`.
spec fn recovered(s: SupervisorView, ids: Seq<Id>, t: SupervisorView, k: Id) -> bool {
    &&& t.states[k] is Failed && !(s.states[k] is Failed) ==> ids.contains(k) && on_last_attempt(s, k)
    &&& t.states[k] is Pending && !(s.states[k] is Pending) ==> ids.contains(k) && !on_last_attempt(s, k)
    &&& t.states[k] is Cancelled && !(s.states[k] is Cancelled) ==> cancelled_by_a_failure(s, t, k)
    &&& t.states[k] is Running ==> t.states[k] == s.states[k]
}

proof fn lemma_recovered(s: SupervisorView, ids: Seq<Id>, now_ns: u64)
    requires
        s.orderly(),
        ids.no_duplicates(),
        forall|i: int| 0 <= i < ids.len() ==> s.running.contains_key(#[trigger] ids[i]) && s.tasks.contains_key(ids[i]),
    ensures
        forall|k: Id| #[trigger] s.tasks.contains_key(k) ==> recovered(s, ids, s.recover_all(ids, now_ns), k),
    decreases ids.len(),
{
    if ids.len() > 0 {
        let front = ids.drop_last();
        let last = ids.last();
        assert forall|i: int| 0 <= i < front.len() implies s.running.contains_key(#[trigger] front[i])
            && s.tasks.contains_key(front[i]) by {
            assert(ids[i] == front[i]);
        }
        assert(ids[ids.len() - 1] == last);
        assert(!front.contains(last));
        lemma_recovered(s, front, now_ns);
        lemma_recover_all(s, front, now_ns);
        lemma_recover_all_orderly(s, front, now_ns);
        let m = s.recover_all(front, now_ns);
        let t = s.recover_all(ids, now_ns);
        assert(m.running.contains_key(last));
        assert(m.keeps_order(last));
        assert(m.attempts(last) == s.attempts(last));
        lemma_recover_orderly(m, last, now_ns);
        let counted = SupervisorView { running: m.running.remove(last), ..m }.emit(
            EventView::WorkerStallConfirmed { task: last },
        ).count_attempt(last);
        assert(counted.wf());
        let error = "worker stalled (no heartbeat) on attempt "@ + decimal(m.running[last].attempt as nat) + "/"@
            + decimal(m.tasks[last].max_attempts as nat);
        lemma_fails(counted, last, error);
        assert(s.keeps_order(last));
        assert(s.states[last] is Running);
        assert(ids.contains(last));
        assert forall|k: Id| #[trigger] s.tasks.contains_key(k) implies recovered(s, ids, t, k) by {
            assert(recovered(s, front, m, k));
            assert(m.states.dom().contains(k));
            if front.contains(k) {
                let i = choose|i: int| 0 <= i < front.len() && front[i] == k;
                assert(ids[i] == k);
            }
            if t.states[k] is Cancelled && !(s.states[k] is Cancelled) {
                if m.states[k] is Cancelled {
                    let f = choose|f: Id| #[trigger]
                        reaches(task_edges(s.tasks), f, k) && s.tasks.contains_key(f) && !(s.states[f] is Failed)
                            && m.states[f] is Failed && m.states[k] == (TaskStateView::Cancelled {
                            reason: "upstream task "@ + f + " failed"@,
                        });
                    assert(m.tasks.contains_key(f) && m.states[f].terminal());
                    assert(t.states[f] == m.states[f]);
                    assert(m.states[k].terminal());
                    assert(t.states[k] == m.states[k]);
                    assert(reaches(task_edges(s.tasks), f, k));
                } else {
                    assert(waiting_on(counted, last).contains(k));
                    assert(reaches(task_edges(s.tasks), last, k));
                }
            }
        }
    }
}

/// What a check may make of the state of a task.
proof fn lemma_checked(s: SupervisorView, ages: Map<Id, u64>, now_ns: u64, k: Id)
    requires
        s.orderly(),
        s.tasks.contains_key(k),
    ensures
        recovered(s, sorted_ids(s.stalled(ages, now_ns)), s.after_check(ages, now_ns), k),
        sorted_ids(s.stalled(ages, now_ns)).contains(k) <==> s.stalled(ages, now_ns).contains(k),
{
    let seen = s.observe(ages, now_ns);
    let ids = sorted_ids(s.stalled(ages, now_ns));
    lemma_stalled_listed(s, ages, now_ns);
    lemma_observe_orderly(s, ages, now_ns);
    assert forall|i: int| 0 <= i < ids.len() implies seen.running.contains_key(#[trigger] ids[i])
        && seen.tasks.contains_key(ids[i]) by {
        assert(s.running.dom().contains(ids[i]));
    }
    lemma_recovered(seen, ids, now_ns);
    assert(seen.tasks.contains_key(k));
    let t = s.after_check(ages, now_ns);
    if cancelled_by_a_failure(seen, t, k) {
        let f = choose|f: Id| #[trigger]
            reaches(task_edges(seen.tasks), f, k) && seen.tasks.contains_key(f) && !(seen.states[f] is Failed)
                && t.states[f] is Failed && t.states[k] == (TaskStateView::Cancelled {
                reason: "upstream task "@ + f + " failed"@,
            });
        assert(reaches(task_edges(s.tasks), f, k));
    }
}

/// A task comes to fail only if its attempt ended with that error for good, or
/// its last attempt failed, or stalled, or its turn came and no budget for it
/// could ever come back; and the error says which.
pub proof fn failure_has_its_reason(d: Desk, step: Step, k: Id, error: Seq<char>)
    requires
        d.sound(),
        d.admits(step),
        d.supervisor.tasks.contains_key(k),
        !(d.supervisor.states[k] is Failed),
        d.after(step).supervisor.states[k] == (TaskStateView::Failed { error }),
    ensures
        ({
            let s = d.supervisor;
            match step {
                Step::Event { event: RunEventView::Outcome { task, outcome }, .. } => task == k && match outcome {
                    OutcomeView::Fatal { error: reported, .. } => error == reported,
                    OutcomeView::Retryable { error: reported, .. } => on_last_attempt(s, k) && error == reported
                        + " (after "@ + decimal(s.tasks[k].max_attempts as nat) + " attempts)"@,
                    _ => false,
                },
                Step::Event { event: RunEventView::Tick { ages }, now_ns } => {
                    &&& s.stalled(ages, now_ns).contains(k)
                    &&& on_last_attempt(s, k)
                    &&& error == "worker stalled (no heartbeat) on attempt "@ + decimal(s.running[k].attempt as nat)
                        + "/"@ + decimal(s.tasks[k].max_attempts as nat)
                },
                Step::Advance { now_ns } => {
                    let launches = dispatched(s, d.governor, now_ns).launches;
                    &&& is_ready(s.tasks, s.states, k)
                    &&& has_its_turn(s, launches, k, now_ns)
                    &&& !is_covered(s, d.governor, launches, k)
                    &&& nothing_under_way(s, launches, k)
                    &&& error == want_of_budget(s.tasks[k].token_budget, d.governor.available() as u64)
                },
                _ => false,
            }
        }),
{
    let s = d.supervisor;
    let t = d.after(step).supervisor;
    assert(s.states.dom().contains(k));
    match step {
        Step::Answer { .. } => {},
        Step::Event { event, now_ns } => match event {
            RunEventView::Outcome { task, outcome } => {
                assert(s.keeps_order(task));
                assert(s.attempts(task) == on_record(s.attempts_done, task));
            },
            RunEventView::Wake => {},
            RunEventView::Tick { ages } => {
                lemma_checked(s, ages, now_ns, k);
                assert(s.running.contains_key(k));
                assert(s.keeps_order(k));
                assert(s.attempts(k) == on_record(s.attempts_done, k));
                stall_of_the_last_attempt_fails_the_task(s, ages, now_ns, k);
            },
        },
        Step::Advance { now_ns } => {
            assert(t.states == dispatched(s, d.governor, now_ns).supervisor.states);
            if is_ready(s.tasks, s.states, k) {
                task_fails_only_if_no_budget_can_come_back(s, d.governor, now_ns, k);
            } else {
                dispatch_cancels_only_what_waits_for_a_failure(s, d.governor, now_ns, k);
            }
        },
        Step::Fetch | Step::TakeWake => {},
    }
}

/// A task comes to be cancelled only if one that it depends on, directly or
/// through others, fails in the same step; that task is the reason given.
pub proof fn cancellation_has_its_reason(d: Desk, step: Step, k: Id)
    requires
        d.sound(),
        d.admits(step),
        d.supervisor.tasks.contains_key(k),
        !(d.supervisor.states[k] is Cancelled),
        d.after(step).supervisor.states[k] is Cancelled,
    ensures
        cancelled_by_a_failure(d.supervisor, d.after(step).supervisor, k),
{
    let s = d.supervisor;
    let t = d.after(step).supervisor;
    assert(s.states.dom().contains(k));
    match step {
        Step::Answer { .. } => {},
        Step::Event { event, now_ns } => match event {
            RunEventView::Outcome { task, outcome } => {
                assert(s.keeps_order(task));
                let ended = SupervisorView { running: s.running.remove(task), ..s };
                assert(ended.wf());
                assert(ended.count_attempt(task).wf());
                match outcome {
                    OutcomeView::Fatal { error, .. } => {
                        lemma_fails(ended, task, error);
                        assert(waiting_on(ended, task).contains(k));
                    },
                    OutcomeView::Retryable { error, .. } => {
                        let text = error + " (after "@ + decimal(s.tasks[task].max_attempts as nat) + " attempts)"@;
                        lemma_fails(ended.count_attempt(task), task, text);
                        assert(waiting_on(ended.count_attempt(task), task).contains(k));
                    },
                    _ => {},
                }
                assert(reaches(task_edges(s.tasks), task, k));
            },
            RunEventView::Wake => {},
            RunEventView::Tick { ages } => {
                lemma_checked(s, ages, now_ns, k);
            },
        },
        Step::Advance { now_ns } => {
            assert(t.states == dispatched(s, d.governor, now_ns).supervisor.states);
            if is_ready(s.tasks, s.states, k) {
                task_fails_only_if_no_budget_can_come_back(s, d.governor, now_ns, k);
                task_starts_if_and_only_if_its_turn_allows(s, d.governor, now_ns, k);
            } else {
                dispatch_cancels_only_what_waits_for_a_failure(s, d.governor, now_ns, k);
                let f = choose|f: Id| #[trigger]
                    is_ready(s.tasks, s.states, f) && t.states[f] is Failed && reaches(task_edges(s.tasks), f, k)
                        && t.states[k] == (TaskStateView::Cancelled { reason: "upstream task "@ + f + " failed"@ });
                assert(reaches(task_edges(s.tasks), f, k));
            }
        },
        Step::Fetch | Step::TakeWake => {},
    }
}

/// A task goes back to waiting only if its question is answered, or if its
/// attempt failed or stalled and was not its last.
pub proof fn return_to_waiting_has_its_reason(d: Desk, step: Step, k: Id)
    requires
        d.sound(),
        d.admits(step),
        d.supervisor.tasks.contains_key(k),
        !(d.supervisor.states[k] is Pending),
        d.after(step).supervisor.states[k] is Pending,
    ensures
        ({
            let s = d.supervisor;
            match step {
                Step::Answer { id, .. } => id == k && s.states[k] is Blocked,
                Step::Event { event: RunEventView::Outcome { task, outcome }, .. } => task == k
                    && outcome is Retryable && !on_last_attempt(s, k),
                Step::Event { event: RunEventView::Tick { ages }, now_ns } => s.stalled(ages, now_ns).contains(k)
                    && !on_last_attempt(s, k),
                _ => false,
            }
        }),
{
    let s = d.supervisor;
    let t = d.after(step).supervisor;
    assert(s.states.dom().contains(k));
    match step {
        Step::Answer { .. } => {},
        Step::Event { event, now_ns } => match event {
            RunEventView::Outcome { task, outcome } => {
                assert(s.keeps_order(task));
                assert(s.attempts(task) == on_record(s.attempts_done, task));
            },
            RunEventView::Wake => {},
            RunEventView::Tick { ages } => {
                lemma_checked(s, ages, now_ns, k);
            },
        },
        Step::Advance { now_ns } => {
            assert(t.states == dispatched(s, d.governor, now_ns).supervisor.states);
            dispatch_cancels_only_what_waits_for_a_failure(s, d.governor, now_ns, k);
        },
        Step::Fetch | Step::TakeWake => {},
    }
}

/// A task comes to run only if a dispatch starts it, as the attempt after those
/// on record, while it waits and all it depends on has completed.
pub proof fn start_has_its_reason(d: Desk, step: Step, k: Id, attempt: u32)
    requires
        d.sound(),
        d.admits(step),
        d.supervisor.tasks.contains_key(k),
        !(d.supervisor.states[k] is Running),
        d.after(step).supervisor.states[k] == (TaskStateView::Running { attempt }),
    ensures
        ({
            let s = d.supervisor;
            &&& attempt == on_record(s.attempts_done, k) + 1
            &&& is_ready(s.tasks, s.states, k)
            &&& step matches Step::Advance { now_ns } && started(
                dispatched(s, d.governor, now_ns).launches,
            ).contains(k)
        }),
{
    let s = d.supervisor;
    let t = d.after(step).supervisor;
    assert(s.states.dom().contains(k));
    match step {
        Step::Answer { .. } => {},
        Step::Event { event, now_ns } => match event {
            RunEventView::Outcome { task, .. } => {
                assert(s.keeps_order(task));
            },
            RunEventView::Wake => {},
            RunEventView::Tick { ages } => {
                lemma_checked(s, ages, now_ns, k);
            },
        },
        Step::Advance { now_ns } => {
            assert(t.states == dispatched(s, d.governor, now_ns).supervisor.states);
            if is_ready(s.tasks, s.states, k) {
                task_fails_only_if_no_budget_can_come_back(s, d.governor, now_ns, k);
                task_starts_if_and_only_if_its_turn_allows(s, d.governor, now_ns, k);
                assert(s.keeps_order(k));
            } else {
                dispatch_cancels_only_what_waits_for_a_failure(s, d.governor, now_ns, k);
            }
        },
        Step::Fetch | Step::TakeWake => {},
    }
}

} // verus!
