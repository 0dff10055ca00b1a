//! Laws of the single steps: what each of them does to the states, the
//! counters, the answers and the stream, and what it leaves alone.

use crate::budget::GovernorView;
use crate::dag::{blast_radius, is_ready, lemma_links_match_edges, ready_set, task_edges};
use crate::graph::reaches;
use crate::ledger::{releases_spend_nothing, tokens_of};
use crate::model::{
    cancellations, lemma_backoff_in_range, lemma_recover_all, liveness, ms_between, EventView,
    ReportView, RunEventView, SupervisorView,
};
use crate::order::{sorted_ids, strictly_sorted, Id};
use crate::orderly::{lemma_listed, lemma_stalled_listed};
use crate::supervisor::SupervisorConfig;
use crate::task::{TaskSpecView, TaskStateView};
use crate::text::decimal;
use crate::worker::OutcomeView;
use vstd::prelude::*;

verus! {

/// The task has come to an end.
pub open spec fn ended(state: TaskStateView) -> bool {
    match state {
        TaskStateView::Completed { .. } => true,
        TaskStateView::Failed { .. } => true,
        TaskStateView::Cancelled { .. } => true,
        _ => false,
    }
}

/// The number of attempts on record for a task.
pub open spec fn on_record(counters: Map<Id, u32>, id: Id) -> int {
    if counters.contains_key(id) {
        counters[id] as int
    } else {
        0
    }
}

/// The tasks that wait for `id`, directly or through others, and have not come
/// to an end.
pub open spec fn waiting_on(s: SupervisorView, id: Id) -> Set<Id> {
    Set::new(
        |k: Id| k != id && s.states.contains_key(k) && reaches(task_edges(s.tasks), id, k) && !ended(s.states[k]),
    )
}

/// From `s` to `t` the task `id` fails for good with `error`: all that waits
/// for it is cancelled, no other state is touched, and the stream tells of the
/// failure first and then of each cancellation in id order.
pub open spec fn fails_for_good(s: SupervisorView, t: SupervisorView, id: Id, error: Seq<char>) -> bool {
    let n = s.events.len() as int;
    let lost = waiting_on(s, id);
    &&& t.states.dom() == s.states.dom()
    &&& t.states[id] == (TaskStateView::Failed { error })
    &&& forall|k: Id| #[trigger] lost.contains(k) ==> t.states[k] == (TaskStateView::Cancelled {
        reason: "upstream task "@ + id + " failed"@,
    })
    &&& forall|k: Id| #[trigger] s.states.contains_key(k) && k != id && !lost.contains(k) ==> t.states[k] == s.states[k]
    &&& t.events.len() == n + 1 + sorted_ids(lost).len()
    &&& t.events.take(n) == s.events
    &&& t.events[n] == (EventView::TaskFailed { task: id, error })
    &&& forall|i: int| 0 <= i < sorted_ids(lost).len() ==> #[trigger] t.events[n + 1 + i] == (EventView::TaskCancelled {
        task: sorted_ids(lost)[i],
        reason: "upstream task "@ + id + " failed"@,
    })
    &&& t.wake
}

pub proof fn lemma_fails(s: SupervisorView, id: Id, error: Seq<char>)
    requires
        s.wf(),
        s.tasks.contains_key(id),
    ensures
        fails_for_good(s, s.fail(id, error), id, error),
        forall|i: int| 0 <= i < sorted_ids(waiting_on(s, id)).len() ==> waiting_on(s, id).contains(
            #[trigger] sorted_ids(waiting_on(s, id))[i],
        ),
        ({
            let t = s.fail(id, error);
            &&& t.tasks == s.tasks
            &&& t.links == s.links
            &&& t.config == s.config
            &&& t.answers == s.answers
            &&& t.running == s.running
            &&& t.attempts_done == s.attempts_done
            &&& t.next_retry_at == s.next_retry_at
        }),
{
    let t = s.fail(id, error);
    let n = s.events.len() as int;
    let lost = waiting_on(s, id);
    lemma_links_match_edges(s.tasks, s.links);
    assert(lost =~= s.casualties(id)) by {
        assert forall|k: Id| lost.contains(k) <==> s.casualties(id).contains(k) by {
            assert(blast_radius(s.links, id).contains(k) <==> reaches(task_edges(s.tasks), id, k));
        }
    }
    lemma_listed(s.tasks.dom(), lost);
    assert(t.states.dom() =~= s.states.dom());
    assert(t.events.take(n) =~= s.events);
    let ids = sorted_ids(lost);
    assert forall|i: int| 0 <= i < ids.len() implies lost.contains(#[trigger] ids[i]) by {
        assert(ids.contains(ids[i]));
    }
    assert forall|i: int| 0 <= i < ids.len() implies #[trigger] t.events[n + 1 + i] == (EventView::TaskCancelled {
        task: ids[i],
        reason: "upstream task "@ + id + " failed"@,
    }) by {
        assert(t.events[n + 1 + i] == cancellations(ids, id)[i]);
    }
}

/// The steps of a run leave the tasks, their links and the configuration alone.
pub open spec fn same_plan(s: SupervisorView, t: SupervisorView) -> bool {
    &&& t.tasks == s.tasks
    &&& t.links == s.links
    &&& t.config == s.config
}

/// Success: the task has completed with the very output that the worker
/// reported, whatever came before; nothing else has changed but that its
/// attempt no longer runs, and the stream tells of the completion.
pub proof fn success_completes_with_its_output(
    s: SupervisorView,
    id: Id,
    output: Seq<char>,
    tokens_used: u64,
    now_ns: u64,
)
    ensures
        ({
            let t = s.after_event(
                RunEventView::Outcome { task: id, outcome: OutcomeView::Success { output, tokens_used } },
                now_ns,
            );
            &&& same_plan(s, t)
            &&& t.states[id] == (TaskStateView::Completed { output })
            &&& t.states.dom() == s.states.dom().insert(id)
            &&& forall|k: Id| k != id ==> #[trigger] t.states[k] == s.states[k]
            &&& t.events == s.events.push(EventView::TaskCompleted { task: id })
            &&& t.running == s.running.remove(id)
            &&& t.answers == s.answers
            &&& t.attempts_done == s.attempts_done
            &&& t.next_retry_at == s.next_retry_at
            &&& t.wake
        }),
{
}

/// A question: the task is blocked on the very question that the worker
/// reported, and the last event announced carries it; nothing else has changed
/// but that its attempt no longer runs.
pub proof fn question_is_escalated_as_asked(
    s: SupervisorView,
    id: Id,
    question: Seq<char>,
    tokens_used: u64,
    now_ns: u64,
)
    ensures
        ({
            let t = s.after_event(
                RunEventView::Outcome { task: id, outcome: OutcomeView::Blocked { question, tokens_used } },
                now_ns,
            );
            &&& same_plan(s, t)
            &&& t.states[id] == (TaskStateView::Blocked { question })
            &&& t.states.dom() == s.states.dom().insert(id)
            &&& forall|k: Id| k != id ==> #[trigger] t.states[k] == s.states[k]
            &&& t.events == s.events.push(EventView::TaskBlocked { task: id, question })
            &&& t.running == s.running.remove(id)
            &&& t.answers == s.answers
            &&& t.attempts_done == s.attempts_done
            &&& t.next_retry_at == s.next_retry_at
            &&& t.wake
        }),
{
}

/// A fatal end: the task fails at once, with the very error that the worker
/// reported and whatever attempts are left; no attempt is counted.
pub proof fn fatal_end_fails_at_once(s: SupervisorView, id: Id, error: Seq<char>, tokens_used: u64, now_ns: u64)
    requires
        s.wf(),
        s.tasks.contains_key(id),
    ensures
        ({
            let t = s.after_event(
                RunEventView::Outcome { task: id, outcome: OutcomeView::Fatal { error, tokens_used } },
                now_ns,
            );
            &&& same_plan(s, t)
            &&& fails_for_good(s, t, id, error)
            &&& t.running == s.running.remove(id)
            &&& t.answers == s.answers
            &&& t.attempts_done == s.attempts_done
            &&& t.next_retry_at == s.next_retry_at
        }),
{
    let u = SupervisorView { running: s.running.remove(id), ..s };
    assert(u.wf());
    lemma_fails(u, id, error);
    assert(waiting_on(u, id) =~= waiting_on(s, id));
}

/// A transient failure with attempts left: the attempt is counted, the task
/// waits for its next attempt, whose number and whose error the stream tells,
/// and nothing else has changed but that the attempt no longer runs.
pub proof fn transient_failure_is_retried(
    s: SupervisorView,
    id: Id,
    error: Seq<char>,
    tokens_used: u64,
    now_ns: u64,
)
    requires
        on_record(s.attempts_done, id) + 1 < s.tasks[id].max_attempts,
    ensures
        ({
            let t = s.after_event(
                RunEventView::Outcome { task: id, outcome: OutcomeView::Retryable { error, tokens_used } },
                now_ns,
            );
            let n = on_record(s.attempts_done, id) + 1;
            &&& same_plan(s, t)
            &&& t.states[id] is Pending
            &&& t.states.dom() == s.states.dom().insert(id)
            &&& forall|k: Id| k != id ==> #[trigger] t.states[k] == s.states[k]
            &&& t.events == s.events.push(EventView::TaskRetrying { task: id, attempt: (n + 1) as u32, error })
            &&& t.running == s.running.remove(id)
            &&& t.answers == s.answers
            &&& t.attempts_done == s.attempts_done.insert(id, n as u32)
            &&& t.next_retry_at.dom() == s.next_retry_at.dom().insert(id)
            &&& t.next_retry_at[id] == now_ns + n * s.config.retry_backoff_ms * 1_000_000
            &&& forall|k: Id| k != id ==> #[trigger] t.next_retry_at[k] == s.next_retry_at[k]
            &&& t.wake
        }),
{
    let n = (on_record(s.attempts_done, id) + 1) as u32;
    lemma_wait(s.config.retry_backoff_ms, n, now_ns);
}

proof fn lemma_wait(base: u64, n: u32, now_ns: u64)
    ensures
        (now_ns + base * n * 1_000_000) as u128 == now_ns + n * base * 1_000_000,
{
    lemma_backoff_in_range(base, n);
    assert(base * n == n * base) by (nonlinear_arith);
}

/// A transient failure of the last attempt: the attempt is counted, and the
/// task fails for good, with the error that the worker reported and the number
/// of attempts that it had.
pub proof fn transient_failure_of_the_last_attempt_fails(
    s: SupervisorView,
    id: Id,
    error: Seq<char>,
    tokens_used: u64,
    now_ns: u64,
)
    requires
        s.wf(),
        s.tasks.contains_key(id),
        on_record(s.attempts_done, id) < u32::MAX,
        on_record(s.attempts_done, id) + 1 >= s.tasks[id].max_attempts,
    ensures
        ({
            let t = s.after_event(
                RunEventView::Outcome { task: id, outcome: OutcomeView::Retryable { error, tokens_used } },
                now_ns,
            );
            let n = on_record(s.attempts_done, id) + 1;
            &&& same_plan(s, t)
            &&& fails_for_good(
                s,
                t,
                id,
                error + " (after "@ + decimal(s.tasks[id].max_attempts as nat) + " attempts)"@,
            )
            &&& t.running == s.running.remove(id)
            &&& t.answers == s.answers
            &&& t.attempts_done == s.attempts_done.insert(id, n as u32)
            &&& t.next_retry_at == s.next_retry_at
        }),
{
    let u = SupervisorView { running: s.running.remove(id), ..s }.count_attempt(id);
    assert(u.wf());
    lemma_fails(u, id, error + " (after "@ + decimal(s.tasks[id].max_attempts as nat) + " attempts)"@);
    assert(waiting_on(u, id) =~= waiting_on(s, id));
}

/// What an outcome makes of its task does not depend on which attempts run, and
/// changes none of them: as an event it does the same, once its own attempt no
/// longer runs.
pub proof fn outcome_is_handled_apart_from_the_running(
    s: SupervisorView,
    id: Id,
    outcome: OutcomeView,
    now_ns: u64,
)
    ensures
        s.after_outcome(id, outcome, now_ns).running == s.running,
        s.after_outcome(id, outcome, now_ns) == (SupervisorView {
            running: s.running,
            ..s.after_event(RunEventView::Outcome { task: id, outcome }, now_ns)
        }),
{
    let u = SupervisorView { running: s.running.remove(id), ..s };
    assert(u.casualties(id) =~= s.casualties(id));
    let cu = u.count_attempt(id);
    let cs = s.count_attempt(id);
    assert(cu.casualties(id) =~= cs.casualties(id));
    assert(s.after_outcome(id, outcome, now_ns) =~= (SupervisorView {
        running: s.running,
        ..s.after_event(RunEventView::Outcome { task: id, outcome }, now_ns)
    }));
}

/// A wake-up by itself changes nothing, neither the state nor the books, and
/// gives up no attempt.
pub proof fn wake_up_changes_nothing(s: SupervisorView, g: GovernorView, now_ns: u64)
    ensures
        s.after_event(RunEventView::Wake, now_ns) == s,
        s.books_after(g, RunEventView::Wake, now_ns) == g,
        s.aborts(RunEventView::Wake, now_ns).len() == 0,
{
}

/// The end of an attempt gives up no other, and settles the reservation of its
/// task with the tokens that the worker reported, whatever the outcome.
pub proof fn outcome_settles_what_was_spent(
    s: SupervisorView,
    g: GovernorView,
    id: Id,
    text: Seq<char>,
    tokens_used: u64,
    now_ns: u64,
)
    ensures
        forall|outcome: OutcomeView|
            outcome == (OutcomeView::Success { output: text, tokens_used }) || outcome == (OutcomeView::Blocked {
                question: text,
                tokens_used,
            }) || outcome == (OutcomeView::Fatal { error: text, tokens_used }) || outcome == (OutcomeView::Retryable {
                error: text,
                tokens_used,
            }) ==> #[trigger] s.books_after(g, RunEventView::Outcome { task: id, outcome }, now_ns) == g.settle(
                id,
                tokens_used,
            ) && s.aborts(RunEventView::Outcome { task: id, outcome }, now_ns).len() == 0,
{
}

/// An answer to a blocked task is kept for its next attempt as it was given,
/// and the task waits again; nothing else has changed.
pub proof fn answer_is_kept_as_given(s: SupervisorView, id: Id, answer: Seq<char>)
    requires
        s.states.contains_key(id),
        s.states[id] is Blocked,
    ensures
        ({
            let t = s.resolve(id, answer);
            &&& same_plan(s, t)
            &&& t.states[id] is Pending
            &&& t.states.dom() == s.states.dom()
            &&& forall|k: Id| k != id ==> #[trigger] t.states[k] == s.states[k]
            &&& t.answers.dom() == s.answers.dom().insert(id)
            &&& t.answers[id] == answer
            &&& t.answer_for(id) == Some(answer)
            &&& forall|k: Id| k != id ==> #[trigger] t.answer_for(k) == s.answer_for(k)
            &&& t.events == s.events.push(EventView::BlockerResolved { task: id })
            &&& t.running == s.running
            &&& t.attempts_done == s.attempts_done
            &&& t.next_retry_at == s.next_retry_at
            &&& t.wake
        }),
{
    let t = s.resolve(id, answer);
    assert(t.states.dom() =~= s.states.dom());
    assert(t.answers.dom() =~= s.answers.dom().insert(id));
}

/// An answer to a task that is not blocked changes nothing.
pub proof fn answer_needs_a_question(s: SupervisorView, id: Id, answer: Seq<char>)
    requires
        !s.states.contains_key(id) || !(s.states[id] is Blocked),
    ensures
        s.resolve(id, answer) == s,
{
}

/// The answer that waits for a task is the one on file for it.
pub proof fn answers_are_on_file(s: SupervisorView, id: Id)
    ensures
        s.answers.contains_key(id) ==> s.answer_for(id) == Some(s.answers[id]),
        !s.answers.contains_key(id) ==> s.answer_for(id) is None,
{
}

/// A task is in its backoff window exactly until the time on file for it.
pub proof fn backoff_lasts_until_its_time(s: SupervisorView, id: Id, now_ns: u64)
    ensures
        s.in_backoff(id, now_ns) <==> s.next_retry_at.contains_key(id) && now_ns < s.next_retry_at[id],
        s.attempts(id) == on_record(s.attempts_done, id),
{
}

/// A heartbeat is judged by its age, by whether it was stale before, and by the
/// confirmation window counted in nanoseconds; the milliseconds between two
/// times are the whole ones.
pub proof fn heartbeat_is_judged_by_age_and_window(
    config: SupervisorConfig,
    age_ms: u64,
    suspected_at: Option<u64>,
    now_ns: u64,
    since_ns: u64,
)
    ensures
        ({
            let found = liveness(config, age_ms, suspected_at, now_ns);
            let stale = age_ms >= config.stall_suspect_ms;
            let over = suspected_at matches Some(since) && (now_ns >= since + config.stall_confirm_ms * 1_000_000
                || config.stall_confirm_ms == 0);
            &&& found is Alive <==> !stale
            &&& found is Suspected <==> stale && suspected_at is None
            &&& found is Stalled <==> stale && over
            &&& found is Confirming <==> stale && suspected_at is Some && !over
        }),
        since_ns <= now_ns ==> 1_000_000 * ms_between(since_ns, now_ns) <= now_ns - since_ns < 1_000_000 * (ms_between(
            since_ns,
            now_ns,
        ) + 1),
        now_ns <= since_ns ==> ms_between(since_ns, now_ns) == 0,
{
}

/// An attempt is given up by a check if and only if it runs, its heartbeat is
/// stale, it was under suspicion before, and the confirmation window, counted
/// in nanoseconds from that suspicion, has passed. The attempts are named in id
/// order.
pub proof fn stall_is_confirmed_after_its_window(
    s: SupervisorView,
    ages: Map<Id, u64>,
    now_ns: u64,
    id: Id,
)
    requires
        s.wf(),
    ensures
        s.aborts(RunEventView::Tick { ages }, now_ns).contains(id) <==> {
            &&& s.running.contains_key(id)
            &&& ages[id] >= s.config.stall_suspect_ms
            &&& s.running[id].suspected_at matches Some(since_ns) && (now_ns >= since_ns + s.config.stall_confirm_ms
                * 1_000_000 || s.config.stall_confirm_ms == 0)
        },
        s.stalled(ages, now_ns).contains(id) <==> s.aborts(RunEventView::Tick { ages }, now_ns).contains(id),
        strictly_sorted(s.aborts(RunEventView::Tick { ages }, now_ns)),
{
    lemma_stalled_listed(s, ages, now_ns);
}

/// An attempt that stays stale is given up by every check that is late enough:
/// the first stale observation starts the window, whatever was observed before
/// it.
pub proof fn hung_worker_is_given_up(
    s: SupervisorView,
    ages: Map<Id, u64>,
    now_ns: u64,
    later_ages: Map<Id, u64>,
    later_ns: u64,
    id: Id,
)
    requires
        s.wf(),
        s.running.contains_key(id),
        ages[id] >= s.config.stall_suspect_ms,
        later_ages[id] >= s.config.stall_suspect_ms,
        s.running[id].suspected_at matches Some(since_ns) ==> since_ns <= now_ns,
        later_ns >= now_ns + s.config.stall_confirm_ms * 1_000_000,
    ensures
        ({
            let t = s.after_check(ages, now_ns);
            ||| s.aborts(RunEventView::Tick { ages }, now_ns).contains(id)
            ||| t.stalled(later_ages, later_ns).contains(id)
        }),
{
    lemma_stalled_listed(s, ages, now_ns);
    let ids = sorted_ids(s.stalled(ages, now_ns));
    let seen = s.observe(ages, now_ns);
    lemma_recover_all(seen, ids, now_ns);
    if !ids.contains(id) {
        assert(seen.running.dom().contains(id));
        assert(s.after_check(ages, now_ns).running.contains_key(id));
        assert(s.after_check(ages, now_ns).running[id] == seen.running[id]);
    }
}

/// What a check makes of the attempts that it does not give up: a fresh
/// heartbeat clears every suspicion, a stale one raises a suspicion that dates
/// from this check, and an older suspicion keeps its date. The attempts that it
/// gives up run no longer, and none starts.
pub proof fn check_dates_suspicions(s: SupervisorView, ages: Map<Id, u64>, now_ns: u64, id: Id)
    requires
        s.wf(),
    ensures
        ({
            let t = s.after_check(ages, now_ns);
            &&& t.running.contains_key(id) <==> s.running.contains_key(id) && !s.aborts(
                RunEventView::Tick { ages },
                now_ns,
            ).contains(id)
            &&& t.running.contains_key(id) ==> {
                &&& t.running[id].attempt == s.running[id].attempt
                &&& ages[id] < s.config.stall_suspect_ms ==> t.running[id].suspected_at is None
                &&& ages[id] >= s.config.stall_suspect_ms && s.running[id].suspected_at is None
                    ==> t.running[id].suspected_at == Some(now_ns)
                &&& ages[id] >= s.config.stall_suspect_ms && s.running[id].suspected_at is Some
                    ==> t.running[id].suspected_at == s.running[id].suspected_at
            }
        }),
{
    lemma_stalled_listed(s, ages, now_ns);
    let ids = sorted_ids(s.stalled(ages, now_ns));
    let seen = s.observe(ages, now_ns);
    lemma_recover_all(seen, ids, now_ns);
    assert(seen.running.contains_key(id) <==> s.running.dom().contains(id));
    let t = s.after_check(ages, now_ns);
    assert(t.running.contains_key(id) <==> seen.running.contains_key(id) && !ids.contains(id));
    if t.running.contains_key(id) {
        assert(t.running[id] == seen.running[id]);
        assert(!s.stalled(ages, now_ns).contains(id));
    }
}

/// A check first tells of each new suspicion, in id order, with the age that
/// the heartbeat had; all else that it settles then touches neither states nor
/// counters.
pub proof fn suspicions_are_announced_first(s: SupervisorView, ages: Map<Id, u64>, now_ns: u64)
    requires
        s.wf(),
    ensures
        ({
            let t = s.observe(ages, now_ns);
            let n = s.events.len() as int;
            let raised = Set::new(
                |k: Id|
                    s.running.contains_key(k) && ages[k] >= s.config.stall_suspect_ms
                        && s.running[k].suspected_at is None,
            );
            &&& same_plan(s, t)
            &&& t.states == s.states
            &&& t.answers == s.answers
            &&& t.attempts_done == s.attempts_done
            &&& t.next_retry_at == s.next_retry_at
            &&& t.wake == s.wake
            &&& t.running.dom() == s.running.dom()
            &&& t.events.take(n) == s.events
            &&& t.events.len() == n + sorted_ids(raised).len()
            &&& forall|i: int| 0 <= i < sorted_ids(raised).len() ==> #[trigger] t.events[n + i]
                == (EventView::WorkerStallSuspected {
                task: sorted_ids(raised)[i],
                heartbeat_age_ms: ages[sorted_ids(raised)[i]],
            })
        }),
{
    let t = s.observe(ages, now_ns);
    let n = s.events.len() as int;
    let raised = Set::new(
        |k: Id| s.running.contains_key(k) && ages[k] >= s.config.stall_suspect_ms && s.running[k].suspected_at is None,
    );
    assert(raised =~= s.suspects(ages, now_ns));
    lemma_stalled_listed(s, ages, now_ns);
    assert(t.events.take(n) =~= s.events);
}

/// A stalled attempt with attempts left is counted and retried: the stream
/// tells of the stall, then of the retry and its number.
pub proof fn stalled_attempt_is_retried(s: SupervisorView, id: Id, now_ns: u64)
    requires
        on_record(s.attempts_done, id) + 1 < s.tasks[id].max_attempts,
    ensures
        ({
            let t = s.recover(id, now_ns);
            let n = on_record(s.attempts_done, id) + 1;
            &&& same_plan(s, t)
            &&& t.states == s.states.insert(id, TaskStateView::Pending)
            &&& t.events == s.events.push(EventView::WorkerStallConfirmed { task: id }).push(
                EventView::TaskRetrying {
                    task: id,
                    attempt: (n + 1) as u32,
                    error: "worker stalled (no heartbeat)"@,
                },
            )
            &&& t.running == s.running.remove(id)
            &&& t.answers == s.answers
            &&& t.attempts_done == s.attempts_done.insert(id, n as u32)
            &&& t.next_retry_at.dom() == s.next_retry_at.dom().insert(id)
            &&& t.next_retry_at[id] == now_ns + n * s.config.retry_backoff_ms * 1_000_000
            &&& forall|k: Id| k != id ==> #[trigger] t.next_retry_at[k] == s.next_retry_at[k]
            &&& t.wake == s.wake
        }),
{
    let n = (on_record(s.attempts_done, id) + 1) as u32;
    lemma_wait(s.config.retry_backoff_ms, n, now_ns);
}

/// A stalled last attempt is counted, and its task fails for good: the stream
/// tells of the stall first.
pub proof fn stalled_last_attempt_fails(s: SupervisorView, id: Id, now_ns: u64)
    requires
        s.wf(),
        s.tasks.contains_key(id),
        on_record(s.attempts_done, id) < u32::MAX,
        on_record(s.attempts_done, id) + 1 >= s.tasks[id].max_attempts,
    ensures
        ({
            let t = s.recover(id, now_ns);
            let told = SupervisorView {
                events: s.events.push(EventView::WorkerStallConfirmed { task: id }),
                ..s
            };
            &&& same_plan(s, t)
            &&& fails_for_good(
                told,
                t,
                id,
                "worker stalled (no heartbeat) on attempt "@ + decimal(s.running[id].attempt as nat) + "/"@ + decimal(
                    s.tasks[id].max_attempts as nat,
                ),
            )
            &&& t.running == s.running.remove(id)
            &&& t.answers == s.answers
            &&& t.attempts_done == s.attempts_done.insert(id, (on_record(s.attempts_done, id) + 1) as u32)
            &&& t.next_retry_at == s.next_retry_at
        }),
{
    let u = SupervisorView { running: s.running.remove(id), ..s }.emit(
        EventView::WorkerStallConfirmed { task: id },
    ).count_attempt(id);
    let told = SupervisorView { events: s.events.push(EventView::WorkerStallConfirmed { task: id }), ..s };
    assert(u.wf());
    lemma_fails(
        u,
        id,
        "worker stalled (no heartbeat) on attempt "@ + decimal(s.running[id].attempt as nat) + "/"@ + decimal(
            s.tasks[id].max_attempts as nat,
        ),
    );
    assert(waiting_on(u, id) =~= waiting_on(told, id));
}

/// A check without a confirmed stall does no more than date suspicions; one
/// stall more is one attempt more that is given up, after all others before it
/// in id order.
pub proof fn stalls_are_recovered_in_order(s: SupervisorView, ids: Seq<Id>, id: Id, ages: Map<Id, u64>, now_ns: u64)
    ensures
        s.recover_all(Seq::<Id>::empty(), now_ns) == s,
        s.recover_all(ids.push(id), now_ns) == s.recover_all(ids, now_ns).recover(id, now_ns),
        s.after_event(RunEventView::Tick { ages }, now_ns) == s.after_check(ages, now_ns),
        s.after_check(ages, now_ns) == s.observe(ages, now_ns).recover_all(
            s.aborts(RunEventView::Tick { ages }, now_ns),
            now_ns,
        ),
{
    assert(ids.push(id).drop_last() =~= ids);
}

/// A check spends nothing: it gives back every token that was reserved for an
/// attempt that it gives up, and touches no other reservation.
pub proof fn check_spends_nothing(
    s: SupervisorView,
    g: GovernorView,
    ages: Map<Id, u64>,
    now_ns: u64,
    task: Id,
)
    ensures
        ({
            let t = s.books_after(g, RunEventView::Tick { ages }, now_ns);
            &&& t.settled == g.settled
            &&& t.global_budget == g.global_budget
            &&& tokens_of(t.reservations, task) == if s.aborts(RunEventView::Tick { ages }, now_ns).contains(task) {
                0
            } else {
                tokens_of(g.reservations, task)
            }
        }),
{
    releases_spend_nothing(g, s.aborts(RunEventView::Tick { ages }, now_ns));
}

/// A fresh supervisor has every task of its plan waiting, and nothing else.
pub proof fn fresh_supervisor_has_all_tasks_waiting(
    tasks: Map<Id, TaskSpecView>,
    links: Map<Id, Seq<Id>>,
    config: SupervisorConfig,
    id: Id,
)
    ensures
        ({
            let s = SupervisorView::initial(tasks, links, config);
            &&& s.tasks == tasks && s.links == links && s.config == config
            &&& s.states.contains_key(id) <==> tasks.contains_key(id)
            &&& s.states.contains_key(id) ==> s.states[id] is Pending
            &&& !s.answers.contains_key(id) && !s.running.contains_key(id)
            &&& !s.attempts_done.contains_key(id) && !s.next_retry_at.contains_key(id)
            &&& s.events.len() == 0
            &&& !s.wake
        }),
{
}

/// A new run forgets attempts and backoff, and nothing else.
pub proof fn new_run_forgets_attempts_only(s: SupervisorView, id: Id)
    ensures
        ({
            let t = s.begun();
            &&& same_plan(s, t)
            &&& t.states == s.states && t.answers == s.answers && t.events == s.events && t.wake == s.wake
            &&& !t.running.contains_key(id) && !t.attempts_done.contains_key(id) && !t.next_retry_at.contains_key(id)
        }),
{
}

/// Fetching the events empties the outbox, and taking note of a wake-up lowers
/// the flag; neither does anything else.
pub proof fn fetching_changes_nothing_else(s: SupervisorView)
    ensures
        ({
            let t = s.drained();
            &&& same_plan(s, t)
            &&& t.events.len() == 0
            &&& t.states == s.states && t.answers == s.answers && t.running == s.running
            &&& t.attempts_done == s.attempts_done && t.next_retry_at == s.next_retry_at && t.wake == s.wake
        }),
        ({
            let t = s.calmed();
            &&& same_plan(s, t)
            &&& !t.wake
            &&& t.states == s.states && t.answers == s.answers && t.running == s.running
            &&& t.attempts_done == s.attempts_done && t.next_retry_at == s.next_retry_at && t.events == s.events
        }),
{
}

/// A run has come to its end if and only if every task has; its report then
/// counts the tasks by how they ended, tells all their states, and is announced
/// with the same counts.
pub proof fn report_counts_the_ends(s: SupervisorView)
    ensures
        s.all_terminal() <==> forall|k: Id| #[trigger] s.states.contains_key(k) ==> ended(s.states[k]),
        ({
            let done = Set::new(|k: Id| s.states.contains_key(k) && s.states[k] is Completed).len();
            let lost = Set::new(|k: Id| s.states.contains_key(k) && s.states[k] is Failed).len();
            let dropped = Set::new(|k: Id| s.states.contains_key(k) && s.states[k] is Cancelled).len();
            &&& s.report() == (ReportView { states: s.states, completed: done, failed: lost, cancelled: dropped })
            &&& s.finished() == (SupervisorView {
                events: s.events.push(
                    EventView::RunFinished { completed: done as usize, failed: lost as usize, cancelled: dropped as usize },
                ),
                ..s
            })
            &&& s.all_terminal() ==> s.concluded() == s.finished()
            &&& !s.all_terminal() ==> s.concluded() == s
        }),
{
    assert(Set::new(|k: Id| s.states.contains_key(k) && s.states[k] is Completed) =~= s.completed_tasks());
    assert(Set::new(|k: Id| s.states.contains_key(k) && s.states[k] is Failed) =~= s.failed_tasks());
    assert(Set::new(|k: Id| s.states.contains_key(k) && s.states[k] is Cancelled) =~= s.cancelled_tasks());
    assert forall|st: TaskStateView| ended(st) == #[trigger] st.terminal() by {}
    if s.all_terminal() {
        assert forall|k: Id| #[trigger] s.states.contains_key(k) implies ended(s.states[k]) by {
            assert(s.states[k].terminal());
        }
    }
    if forall|k: Id| #[trigger] s.states.contains_key(k) ==> ended(s.states[k]) {
        assert forall|k: Id| #[trigger] s.states.contains_key(k) implies s.states[k].terminal() by {
            assert(ended(s.states[k]));
        }
    }
}

/// A dispatch can be made if and only if no task that may start has used up
/// the numbers of its attempts.
pub proof fn when_a_dispatch_can_be_made(s: SupervisorView)
    ensures
        s.can_advance() <==> forall|k: Id| #[trigger] is_ready(s.tasks, s.states, k) ==> on_record(s.attempts_done, k)
            < u32::MAX,
{
    if s.can_advance() {
        assert forall|k: Id| #[trigger] is_ready(s.tasks, s.states, k) implies on_record(s.attempts_done, k)
            < u32::MAX by {
            assert(ready_set(s.tasks, s.states).contains(k));
        }
    }
    if forall|k: Id| #[trigger] is_ready(s.tasks, s.states, k) ==> on_record(s.attempts_done, k) < u32::MAX {
        assert forall|k: Id| #[trigger] ready_set(s.tasks, s.states).contains(k) implies s.attempts(k) < u32::MAX by {
            assert(is_ready(s.tasks, s.states, k));
        }
    }
}

/// The outcome of an attempt can be taken in if and only if it is of a task of
/// the supervisor and, where it leads to a retry, neither the counter nor the
/// backoff overflows; a tick if and only if it brings the age of every running
/// attempt and no counter of a confirmed stall overflows; a wake-up always.
pub proof fn what_can_be_taken_in(
    s: SupervisorView,
    id: Id,
    outcome: OutcomeView,
    ages: Map<Id, u64>,
    now_ns: u64,
)
    ensures
        s.accepts(RunEventView::Wake, now_ns),
        s.accepts(RunEventView::Outcome { task: id, outcome }, now_ns) <==> s.tasks.contains_key(id) && (
        outcome is Retryable ==> on_record(s.attempts_done, id) < u32::MAX && (on_record(s.attempts_done, id) + 1
            < s.tasks[id].max_attempts ==> s.config.retry_backoff_ms * (on_record(s.attempts_done, id) + 1)
            <= u64::MAX)),
        s.accepts(RunEventView::Tick { ages }, now_ns) <==> {
            &&& forall|k: Id| #[trigger] s.running.contains_key(k) ==> ages.contains_key(k)
            &&& forall|k: Id| #[trigger] s.stalled(ages, now_ns).contains(k)
                ==> on_record(s.attempts_done, k) < u32::MAX
        },
{
}

} // verus!
