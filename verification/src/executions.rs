//! Laws of the single task: when it is started, and how often.

use crate::dag::{completed, is_ready, ready_set};
use crate::graph::{lemma_occurrences_contains, occurrences};
use crate::history::{
    every_run_is_sound, lemma_front_admitted, lemma_prefix_admitted, step_is_sound, Desk, Step,
};
use crate::model::{
    dispatched, lemma_consider, lemma_recover_all, Dispatch, RunEventView, SupervisorView,
};
use crate::order::{id_lt, lemma_id_lt_irreflexive, sorted_ids, strictly_sorted, Id};
use crate::orderly::{dispatch_keeps_order, lemma_ready_listed, lemma_stalled_listed};
use crate::progress::{
    announcements_keep_the_distance, attempts_left, lemma_check_left, lemma_dispatch_left,
    lemma_outcome_left,
};
use crate::scheduling::{dispatch_runs_what_it_starts, dispatch_starts_only_what_may_start, started};
use crate::task::TaskStateView;
use crate::worker::OutcomeView;
use vstd::prelude::*;

verus! {

/// How often the step starts the task `k`.
pub open spec fn starts_in(d: Desk, step: Step, k: Id) -> nat {
    match step {
        Step::Advance { now_ns } => occurrences(started(dispatched(d.supervisor, d.governor, now_ns).launches), k),
        _ => 0,
    }
}

/// How often the steps start the task `k`.
pub open spec fn executions(d: Desk, steps: Seq<Step>, k: Id) -> nat
    decreases steps.len(),
{
    if steps.len() == 0 {
        0
    } else {
        executions(d, steps.drop_last(), k) + starts_in(d.after_all(steps.drop_last()), steps.last(), k)
    }
}

/// The step ends an attempt of the task `k` with a question.
pub open spec fn asks(step: Step, k: Id) -> bool {
    step matches Step::Event { event: RunEventView::Outcome { task, outcome }, .. } && task == k && outcome is Blocked
}

/// How often an attempt of the task `k` ends with a question.
pub open spec fn questions(steps: Seq<Step>, k: Id) -> nat
    decreases steps.len(),
{
    if steps.len() == 0 {
        0
    } else {
        questions(steps.drop_last(), k) + if asks(steps.last(), k) {
            1nat
        } else {
            0nat
        }
    }
}

/// The step ends an attempt of the task `k` with success.
pub open spec fn is_success(step: Step, k: Id) -> bool {
    step matches Step::Event { event: RunEventView::Outcome { task, outcome }, .. } && task == k && outcome is Success
}

/// The step ends an attempt of the task `k` with success and this output.
pub open spec fn succeeds_with(step: Step, k: Id, output: Seq<char>) -> bool {
    step matches Step::Event {
        event: RunEventView::Outcome { task, outcome: OutcomeView::Success { output: reported, .. } },
        ..
    } && task == k && reported == output
}

/// The step ends an attempt of the task `k` with this question.
pub open spec fn asks_for(step: Step, k: Id, question: Seq<char>) -> bool {
    step matches Step::Event {
        event: RunEventView::Outcome { task, outcome: OutcomeView::Blocked { question: asked, .. } },
        ..
    } && task == k && asked == question
}

/// One of the steps ends an attempt of the task `k` with success.
pub open spec fn succeeded(steps: Seq<Step>, k: Id) -> bool {
    exists|i: int| 0 <= i < steps.len() && #[trigger] is_success(steps[i], k)
}

/// How many attempts the task `k` has in all.
pub open spec fn allowance(s: SupervisorView, k: Id) -> nat {
    if s.tasks[k].max_attempts == 0 {
        1
    } else {
        s.tasks[k].max_attempts as nat
    }
}

/// How many attempts of the task `k` may still be started, questions aside.
spec fn spare(s: SupervisorView, k: Id) -> int {
    attempts_left(s, k) - if s.running.contains_key(k) {
        1int
    } else {
        0int
    }
}

/// Ids in order occur at most once each.
proof fn lemma_sorted_occurs_once(ids: Seq<Id>, k: Id)
    requires
        strictly_sorted(ids),
    ensures
        occurrences(ids, k) == if ids.contains(k) {
            1nat
        } else {
            0nat
        },
    decreases ids.len(),
{
    lemma_occurrences_contains(ids, k);
    if ids.len() > 0 {
        let front = ids.drop_last();
        assert forall|i: int, j: int| 0 <= i < j < front.len() implies
            id_lt(#[trigger] front[i], #[trigger] front[j]) by {
            assert(id_lt(ids[i], ids[j]));
        }
        lemma_sorted_occurs_once(front, k);
        if ids.last() == k && front.contains(k) {
            let i = choose|i: int| 0 <= i < front.len() && front[i] == k;
            assert(id_lt(ids[i], ids[ids.len() - 1]));
            lemma_id_lt_irreflexive(k);
        }
    }
}

/// What a dispatch starts was waiting, with all it depends on completed, and
/// is started once.
proof fn lemma_started(d: Desk, now_ns: u64, k: Id)
    requires
        d.sound(),
    ensures
        ({
            let n = starts_in(d, Step::Advance { now_ns }, k);
            let begun = started(dispatched(d.supervisor, d.governor, now_ns).launches);
            &&& n == if begun.contains(k) {
                1nat
            } else {
                0nat
            }
            &&& n > 0 ==> is_ready(d.supervisor.tasks, d.supervisor.states, k)
        }),
{
    let launches = dispatched(d.supervisor, d.governor, now_ns).launches;
    dispatch_starts_only_what_may_start(d.supervisor, d.governor, now_ns);
    lemma_sorted_occurs_once(started(launches), k);
    if started(launches).contains(k) {
        let i = choose|i: int| 0 <= i < started(launches).len() && started(launches)[i] == k;
        assert(is_ready(d.supervisor.tasks, d.supervisor.states, launches[i].spec.id));
    }
}

/// Each start of a task uses up one of its attempts, and only a question gives
/// it back.
proof fn lemma_step_spare(d: Desk, step: Step, k: Id)
    requires
        d.sound(),
        d.admits(step),
        d.supervisor.tasks.contains_key(k),
    ensures
        spare(d.after(step).supervisor, k) + starts_in(d, step, k) <= spare(d.supervisor, k) + if asks(step, k) {
            1int
        } else {
            0int
        },
{
    let s = d.supervisor;
    let t = d.after(step).supervisor;
    assert(s.keeps_order(k));
    match step {
        Step::Answer { id, answer } => {
            assert(t.attempts(k) == s.attempts(k));
        },
        Step::Event { event, now_ns } => match event {
            RunEventView::Outcome { task, outcome } => {
                lemma_outcome_left(s, task, outcome, now_ns);
                assert(t.running == s.running.remove(task));
            },
            RunEventView::Wake => {},
            RunEventView::Tick { ages } => {
                let seen = s.observe(ages, now_ns);
                let ids = sorted_ids(s.stalled(ages, now_ns));
                lemma_check_left(s, ages, now_ns);
                lemma_stalled_listed(s, ages, now_ns);
                lemma_recover_all(seen, ids, now_ns);
                assert(t == seen.recover_all(ids, now_ns));
                assert(seen.running.contains_key(k) <==> s.running.dom().contains(k));
                assert(t.running.contains_key(k) <==> s.running.contains_key(k) && !ids.contains(k));
                if ids.contains(k) {
                    assert(attempts_left(t, k) < attempts_left(s, k));
                }
            },
        },
        Step::Advance { now_ns } => {
            lemma_dispatch_left(s, d.governor, now_ns);
            lemma_started(d, now_ns, k);
            dispatch_runs_what_it_starts(s, d.governor, now_ns);
            assert(t.running.contains_key(k) <==> s.running.contains_key(k) || started(
                dispatched(s, d.governor, now_ns).launches,
            ).contains(k));
            dispatch_keeps_order(s, d.governor, now_ns);
            announcements_keep_the_distance(dispatched(s, d.governor, now_ns).supervisor, t);
        },
        Step::Fetch | Step::TakeWake => {
            announcements_keep_the_distance(s, t);
        },
    }
}

proof fn lemma_spare(d: Desk, steps: Seq<Step>, k: Id)
    requires
        d.fresh(),
        d.admits_all(steps),
        d.supervisor.tasks.contains_key(k),
    ensures
        executions(d, steps, k) + spare(d.after_all(steps).supervisor, k) <= allowance(d.supervisor, k) + questions(
            steps,
            k,
        ),
    decreases steps.len(),
{
    if steps.len() > 0 {
        let front = steps.drop_last();
        lemma_front_admitted(d, steps);
        lemma_spare(d, front, k);
        every_run_is_sound(d, front);
        lemma_step_spare(d.after_all(front), steps.last(), k);
    }
}

/// No task is executed too often: in every run it is started at most as often
/// as it has attempts, and once more for each question that it asked.
pub proof fn executions_are_bounded(d: Desk, steps: Seq<Step>, k: Id)
    requires
        d.fresh(),
        d.admits_all(steps),
        d.supervisor.tasks.contains_key(k),
    ensures
        executions(d, steps, k) <= allowance(d.supervisor, k) + questions(steps, k),
{
    lemma_spare(d, steps, k);
    every_run_is_sound(d, steps);
    let s = d.after_all(steps).supervisor;
    assert(s.keeps_order(k));
}

/// Once a task has been started, all it depends on has completed, for good.
pub proof fn started_task_had_its_dependencies(d: Desk, steps: Seq<Step>, k: Id, dep: Id)
    requires
        d.fresh(),
        d.admits_all(steps),
        d.supervisor.tasks.contains_key(k),
        d.supervisor.tasks[k].depends_on.contains(dep),
        executions(d, steps, k) > 0,
    ensures
        completed(d.after_all(steps).supervisor.states, dep),
    decreases steps.len(),
{
    if steps.len() > 0 {
        let front = steps.drop_last();
        lemma_front_admitted(d, steps);
        every_run_is_sound(d, front);
        let m = d.after_all(front);
        step_is_sound(m, steps.last());
        if executions(d, front, k) > 0 {
            started_task_had_its_dependencies(d, front, k, dep);
        } else {
            match steps.last() {
                Step::Advance { now_ns } => {
                    lemma_started(m, now_ns, k);
                    let deps = m.supervisor.tasks[k].depends_on;
                    let i = choose|i: int| 0 <= i < deps.len() && deps[i] == dep;
                    assert(completed(m.supervisor.states, m.supervisor.tasks[k].depends_on[i]));
                },
                _ => {},
            }
        }
        assert(completed(m.supervisor.states, dep));
        assert(m.supervisor.tasks.contains_key(dep));
        let t = d.after_all(steps).supervisor;
        assert(t.states[dep] == m.supervisor.states[dep]);
        assert(t.states.dom() == t.tasks.dom());
        assert(t.states.contains_key(dep));
    }
}

/// A cancelled task was never executed.
pub proof fn cancelled_task_was_never_started(d: Desk, steps: Seq<Step>, k: Id)
    requires
        d.fresh(),
        d.admits_all(steps),
        d.supervisor.tasks.contains_key(k),
        d.after_all(steps).supervisor.states[k] is Cancelled,
    ensures
        executions(d, steps, k) == 0,
{
    every_run_is_sound(d, steps);
    let s = d.after_all(steps).supervisor;
    assert(s.keeps_order(k));
    if executions(d, steps, k) > 0 {
        let dep = choose|dep: Id| #[trigger]
            s.tasks[k].depends_on.contains(dep) && (s.states[dep] is Failed || s.states[dep] is Cancelled);
        started_task_had_its_dependencies(d, steps, k, dep);
    }
}

/// No task comes to its completion or to a question between `s` and `t`.
spec fn completes_none(s: SupervisorView, t: SupervisorView) -> bool {
    forall|k: Id|
        s.tasks.contains_key(k) && (#[trigger] t.states[k] is Completed || t.states[k] is Blocked) ==> s.states[k]
            == t.states[k]
}

proof fn lemma_recover_all_completes_none(s: SupervisorView, ids: Seq<Id>, now_ns: u64)
    requires
        s.wf(),
        forall|i: int| 0 <= i < ids.len() ==> s.tasks.contains_key(#[trigger] ids[i]),
    ensures
        completes_none(s, s.recover_all(ids, now_ns)),
    decreases ids.len(),
{
    if ids.len() > 0 {
        let front = ids.drop_last();
        assert forall|i: int| 0 <= i < front.len() implies s.tasks.contains_key(#[trigger] front[i]) by {
            assert(ids[i] == front[i]);
        }
        assert(ids[ids.len() - 1] == ids.last());
        lemma_recover_all_completes_none(s, front, now_ns);
        lemma_recover_all(s, front, now_ns);
        let m = s.recover_all(front, now_ns);
        let t = s.recover_all(ids, now_ns);
        assert forall|k: Id|
            s.tasks.contains_key(k) && (#[trigger] t.states[k] is Completed || t.states[k] is Blocked) implies
            s.states[k] == t.states[k] by {
            assert(m.states.dom().contains(k));
            assert(m.states[k] == t.states[k]);
        }
    }
}

proof fn lemma_consider_all_completes_none(d: Dispatch, ids: Seq<Id>, now_ns: u64)
    requires
        d.supervisor.wf(),
        forall|i: int| 0 <= i < ids.len() ==> d.supervisor.tasks.contains_key(#[trigger] ids[i]),
    ensures
        completes_none(d.supervisor, d.consider_all(ids, now_ns).supervisor),
        d.consider_all(ids, now_ns).supervisor.wf(),
        d.consider_all(ids, now_ns).supervisor.tasks == d.supervisor.tasks,
    decreases ids.len(),
{
    let s = d.supervisor;
    if ids.len() > 0 {
        let front = ids.drop_last();
        assert forall|i: int| 0 <= i < front.len() implies s.tasks.contains_key(#[trigger] front[i]) by {
            assert(ids[i] == front[i]);
        }
        assert(ids[ids.len() - 1] == ids.last());
        lemma_consider_all_completes_none(d, front, now_ns);
        let m = d.consider_all(front, now_ns);
        lemma_consider(m, ids.last(), now_ns);
        let t = d.consider_all(ids, now_ns).supervisor;
        assert forall|k: Id|
            s.tasks.contains_key(k) && (#[trigger] t.states[k] is Completed || t.states[k] is Blocked) implies
            s.states[k] == t.states[k] by {
            assert(m.supervisor.states.dom().contains(k));
            assert(m.supervisor.states[k] == t.states[k]);
        }
    }
}

/// Only success completes a task, with its output, and only a question blocks
/// one, with that question.
proof fn lemma_step_completes(d: Desk, step: Step, k: Id)
    requires
        d.sound(),
        d.admits(step),
        d.supervisor.tasks.contains_key(k),
        d.after(step).supervisor.states[k] is Completed || d.after(step).supervisor.states[k] is Blocked,
    ensures
        d.after(step).supervisor.states[k] == d.supervisor.states[k] || match d.after(step).supervisor.states[k] {
            TaskStateView::Completed { output } => succeeds_with(step, k, output),
            TaskStateView::Blocked { question } => asks_for(step, k, question),
            _ => false,
        },
{
    let s = d.supervisor;
    let t = d.after(step).supervisor;
    assert(s.states.dom().contains(k));
    match step {
        Step::Answer { .. } => {},
        Step::Event { event, now_ns } => match event {
            RunEventView::Outcome { task, outcome } => {
                assert(s.tasks.contains_key(task));
                match outcome {
                    OutcomeView::Success { .. } => {},
                    OutcomeView::Blocked { .. } => {},
                    OutcomeView::Fatal { .. } => {},
                    OutcomeView::Retryable { .. } => {},
                }
            },
            RunEventView::Wake => {},
            RunEventView::Tick { ages } => {
                lemma_stalled_listed(s, ages, now_ns);
                let seen = s.observe(ages, now_ns);
                lemma_recover_all_completes_none(seen, sorted_ids(s.stalled(ages, now_ns)), now_ns);
                assert(seen.tasks.contains_key(k));
                assert(t.states[k] == seen.states[k]);
            },
        },
        Step::Advance { now_ns } => {
            let ids = sorted_ids(ready_set(s.tasks, s.states));
            lemma_ready_listed(s);
            assert forall|i: int| 0 <= i < ids.len() implies s.tasks.contains_key(#[trigger] ids[i]) by {
                assert(is_ready(s.tasks, s.states, ids[i]));
            }
            lemma_consider_all_completes_none(
                Dispatch { supervisor: s, governor: d.governor, launches: Seq::empty() },
                ids,
                now_ns,
            );
            assert(t.states[k] == s.states[k]);
        },
        Step::Fetch | Step::TakeWake => {},
    }
}

/// A task has completed only if one of its attempts succeeded.
pub proof fn completed_task_succeeded(d: Desk, steps: Seq<Step>, k: Id)
    requires
        d.fresh(),
        d.admits_all(steps),
        d.supervisor.tasks.contains_key(k),
        d.after_all(steps).supervisor.states[k] is Completed,
    ensures
        succeeded(steps, k),
    decreases steps.len(),
{
    if steps.len() > 0 {
        let front = steps.drop_last();
        lemma_front_admitted(d, steps);
        every_run_is_sound(d, front);
        lemma_step_completes(d.after_all(front), steps.last(), k);
        if is_success(steps.last(), k) {
            assert(is_success(steps[steps.len() - 1], k));
        } else {
            completed_task_succeeded(d, front, k);
            let i = choose|i: int| 0 <= i < front.len() && #[trigger] is_success(front[i], k);
            assert(is_success(steps[i], k));
        }
    }
}

/// A task stands completed with an output only if a step before ended an
/// attempt of it with success and that very output.
pub proof fn output_was_reported(d: Desk, steps: Seq<Step>, k: Id, output: Seq<char>)
    requires
        d.fresh(),
        d.admits_all(steps),
        d.supervisor.tasks.contains_key(k),
        d.after_all(steps).supervisor.states[k] == (TaskStateView::Completed { output }),
    ensures
        exists|i: int| 0 <= i < steps.len() && #[trigger] succeeds_with(steps[i], k, output),
    decreases steps.len(),
{
    if steps.len() > 0 {
        let front = steps.drop_last();
        lemma_front_admitted(d, steps);
        every_run_is_sound(d, front);
        lemma_step_completes(d.after_all(front), steps.last(), k);
        if succeeds_with(steps.last(), k, output) {
            assert(succeeds_with(steps[steps.len() - 1], k, output));
        } else {
            output_was_reported(d, front, k, output);
            let i = choose|i: int| 0 <= i < front.len() && #[trigger] succeeds_with(front[i], k, output);
            assert(succeeds_with(steps[i], k, output));
        }
    }
}

/// A task stands blocked on a question only if a step before ended an attempt
/// of it with that very question.
pub proof fn question_was_asked(d: Desk, steps: Seq<Step>, k: Id, question: Seq<char>)
    requires
        d.fresh(),
        d.admits_all(steps),
        d.supervisor.tasks.contains_key(k),
        d.after_all(steps).supervisor.states[k] == (TaskStateView::Blocked { question }),
    ensures
        exists|i: int| 0 <= i < steps.len() && #[trigger] asks_for(steps[i], k, question),
    decreases steps.len(),
{
    if steps.len() > 0 {
        let front = steps.drop_last();
        lemma_front_admitted(d, steps);
        every_run_is_sound(d, front);
        lemma_step_completes(d.after_all(front), steps.last(), k);
        if asks_for(steps.last(), k, question) {
            assert(asks_for(steps[steps.len() - 1], k, question));
        } else {
            question_was_asked(d, front, k, question);
            let i = choose|i: int| 0 <= i < front.len() && #[trigger] asks_for(front[i], k, question);
            assert(asks_for(steps[i], k, question));
        }
    }
}

/// Dependency order: a step starts a task only after each task that it depends
/// on has ended an attempt with success in an earlier step.
pub proof fn starts_follow_success(d: Desk, steps: Seq<Step>, n: int, k: Id, dep: Id)
    requires
        d.fresh(),
        d.admits_all(steps),
        0 <= n < steps.len(),
        d.supervisor.tasks.contains_key(k),
        d.supervisor.tasks[k].depends_on.contains(dep),
        starts_in(d.after_all(steps.take(n)), steps[n], k) > 0,
    ensures
        succeeded(steps.take(n), dep),
{
    let before = steps.take(n);
    lemma_prefix_admitted(d, steps, n);
    every_run_is_sound(d, before);
    let m = d.after_all(before);
    match steps[n] {
        Step::Advance { now_ns } => {
            lemma_started(m, now_ns, k);
            let deps = m.supervisor.tasks[k].depends_on;
            let i = choose|i: int| 0 <= i < deps.len() && deps[i] == dep;
            assert(completed(m.supervisor.states, m.supervisor.tasks[k].depends_on[i]));
            assert(m.supervisor.states.dom().contains(dep));
            completed_task_succeeded(d, before, dep);
        },
        _ => {},
    }
}

} // verus!
