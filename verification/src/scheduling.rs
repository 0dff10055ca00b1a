//! Laws of dispatch, liveness, retry and escalation.

use crate::budget::GovernorView;
use crate::dag::{is_ready, ready_set};
use crate::laws::books_stay_within_budget;
use crate::model::{
    dispatched, exhausted_error, lemma_backoff_in_range, lemma_consider, lemma_recover_all,
    ms_between, Dispatch, LaunchView, RunEventView, SupervisorView,
};
use crate::order::{id_lt, lemma_id_lt_irreflexive, lists_in_order, sorted_ids, strictly_sorted, Id};
use crate::orderly::{
    dispatch_keeps_order, lemma_listed, lemma_observe_orderly, lemma_ready_listed,
    lemma_recover_all_orderly, lemma_recover_orderly, lemma_stalled_listed,
};
use crate::task::TaskStateView;
use crate::worker::OutcomeView;
use vstd::prelude::*;

verus! {

/// The attempt of `id` that a dispatch out of `s` may start.
pub open spec fn next_launch(s: SupervisorView, id: Id) -> LaunchView {
    LaunchView { spec: s.tasks[id], attempt: (s.attempts(id) + 1) as u32, answer: s.answer_for(id) }
}

/// The reservations that stand behind the launches: each for the whole budget
/// of its task.
pub open spec fn claims(launches: Seq<LaunchView>) -> Seq<(Id, u64)> {
    Seq::new(launches.len(), |i: int| (launches[i].spec.id, launches[i].spec.token_budget))
}

/// The tasks that were started, in the order of their start.
pub open spec fn started(launches: Seq<LaunchView>) -> Seq<Id> {
    Seq::new(launches.len(), |i: int| launches[i].spec.id)
}

/// What the dispatch `r` out of `d` has done with the tasks of `ids`.
pub open spec fn dispatch_effect(d: Dispatch, ids: Seq<Id>, now_ns: u64, r: Dispatch) -> bool {
    let s = d.supervisor;
    let t = r.supervisor;
    let begun = started(r.launches);
    &&& t.wf()
    &&& t.tasks == s.tasks
    &&& t.config == s.config
    &&& t.attempts_done == s.attempts_done
    &&& t.next_retry_at == s.next_retry_at
    &&& strictly_sorted(begun)
    &&& forall|i: int| 0 <= i < r.launches.len() ==> {
        &&& #[trigger] r.launches[i] == next_launch(s, begun[i])
        &&& ids.contains(begun[i])
        &&& !s.in_backoff(begun[i], now_ns)
    }
    &&& r.governor == GovernorView { reservations: d.governor.reservations + claims(r.launches), ..d.governor }
    &&& r.governor.within_budget()
    &&& r.governor.available() <= d.governor.available()
    &&& forall|k: Id| #[trigger] t.running.contains_key(k) <==> s.running.contains_key(k) || begun.contains(k)
    &&& t.running.len() <= s.running.len() || t.running.len() <= s.config.max_concurrent
    &&& forall|k: Id| !begun.contains(k) ==> #[trigger] t.answer_for(k) == s.answer_for(k)
    &&& forall|k: Id| begun.contains(k) ==> #[trigger] t.answer_for(k) is None
    &&& !r.full() ==> forall|k: Id| #[trigger] ids.contains(k) ==> {
        ||| s.in_backoff(k, now_ns)
        ||| begun.contains(k)
        ||| s.tasks[k].token_budget > r.governor.available()
    }
}

pub proof fn lemma_dispatch_effect(d: Dispatch, ids: Seq<Id>, now_ns: u64)
    requires
        d.supervisor.wf(),
        d.launches == Seq::<LaunchView>::empty(),
        d.governor.within_budget(),
        strictly_sorted(ids),
        forall|i: int| 0 <= i < ids.len() ==> d.supervisor.tasks.contains_key(#[trigger] ids[i]),
    ensures
        dispatch_effect(d, ids, now_ns, d.consider_all(ids, now_ns)),
    decreases ids.len(),
{
    let s = d.supervisor;
    let r = d.consider_all(ids, now_ns);
    if ids.len() == 0 {
        assert(claims(d.launches) =~= Seq::<(Id, u64)>::empty());
        assert(d.governor.reservations + claims(d.launches) =~= d.governor.reservations);
        assert(started(d.launches) =~= Seq::<Id>::empty());
    } else {
        let front = ids.drop_last();
        let last = ids.last();
        let n = front.len() as int;
        assert forall|i: int| 0 <= i < front.len() implies s.tasks.contains_key(#[trigger] front[i]) by {
            assert(ids[i] == front[i]);
        }
        assert(strictly_sorted(front)) by {
            assert forall|i: int, j: int| 0 <= i < j < front.len() implies
                id_lt(#[trigger] front[i], #[trigger] front[j]) by {
                assert(id_lt(ids[i], ids[j]));
            }
        }
        lemma_dispatch_effect(d, front, now_ns);
        let m = d.consider_all(front, now_ns);
        let begun = started(m.launches);
        assert(ids[n] == last);
        assert forall|k: Id| #[trigger] front.contains(k) implies ids.contains(k) && id_lt(k, last) by {
            let i = choose|i: int| 0 <= i < front.len() && front[i] == k;
            assert(ids[i] == k);
            assert(id_lt(ids[i], ids[n]));
        }
        assert forall|k: Id| #[trigger] ids.contains(k) implies front.contains(k) || k == last by {
            let i = choose|i: int| 0 <= i < ids.len() && ids[i] == k;
            if i < n {
                assert(front[i] == k);
            }
        }
        assert(ids.contains(last));
        assert(!front.contains(last)) by {
            lemma_id_lt_irreflexive(last);
        }
        assert(m.supervisor.attempts(last) == s.attempts(last));
        assert(m.supervisor.answer_for(last) == s.answer_for(last));
        lemma_consider(m, last, now_ns);
        assert(m.supervisor.running.dom().finite()) by {
            vstd::set_lib::lemma_set_subset_finite(s.tasks.dom(), m.supervisor.running.dom());
        }
        books_stay_within_budget(m.governor, last, s.tasks[last].token_budget);
        if m.full() || s.in_backoff(last, now_ns) {
        } else if s.tasks[last].token_budget > m.governor.available() {
        } else {
            let l = next_launch(s, last);
            assert(r == m.launch(last));
            assert(r.launches == m.launches.push(l));
            assert(claims(r.launches) =~= claims(m.launches).push((last, s.tasks[last].token_budget)));
            assert(d.governor.reservations + claims(r.launches) =~= (d.governor.reservations + claims(m.launches)).push(
                (last, s.tasks[last].token_budget),
            ));
            let more = started(r.launches);
            assert(more =~= begun.push(last));
            assert(strictly_sorted(more)) by {
                assert forall|i: int, j: int| 0 <= i < j < more.len() implies
                    id_lt(#[trigger] more[i], #[trigger] more[j]) by {
                    assert(more[i] == begun[i]);
                    assert(m.launches[i] == next_launch(s, begun[i]));
                    if j < begun.len() {
                        assert(more[j] == begun[j]);
                    }
                }
            }
            assert forall|i: int| 0 <= i < r.launches.len() implies {
                &&& #[trigger] r.launches[i] == next_launch(s, more[i])
                &&& ids.contains(more[i])
                &&& !s.in_backoff(more[i], now_ns)
            } by {
                if i < m.launches.len() {
                    assert(more[i] == begun[i]);
                    assert(m.launches[i] == next_launch(s, begun[i]));
                }
            }
            assert forall|k: Id| #[trigger] more.contains(k) <==> begun.contains(k) || k == last by {
                if begun.contains(k) {
                    let i = choose|i: int| 0 <= i < begun.len() && begun[i] == k;
                    assert(more[i] == k);
                }
                if k == last {
                    assert(more[begun.len() as int] == k);
                }
                if more.contains(k) {
                    let i = choose|i: int| 0 <= i < more.len() && more[i] == k;
                    if i < begun.len() {
                        assert(begun[i] == k);
                    }
                }
            }
            assert(m.governor.reservations.push((last, s.tasks[last].token_budget)).drop_last() =~= m.governor.reservations);
        }
        assert forall|k: Id| started(r.launches).contains(k) implies #[trigger] r.supervisor.answer_for(k) is None by {
            assert(m.supervisor.answer_for(k) is None || k == last);
        }
        assert forall|k: Id| !started(r.launches).contains(k) implies #[trigger] r.supervisor.answer_for(k)
            == s.answer_for(k) by {
            assert(!begun.contains(k));
            assert(m.supervisor.answer_for(k) == s.answer_for(k));
        }
    }
}

/// What a dispatch out of `s` does with the tasks that may start.
pub proof fn lemma_dispatched(s: SupervisorView, g: GovernorView, now_ns: u64)
    requires
        s.wf(),
        g.within_budget(),
    ensures
        dispatch_effect(
            Dispatch { supervisor: s, governor: g, launches: Seq::empty() },
            sorted_ids(ready_set(s.tasks, s.states)),
            now_ns,
            dispatched(s, g, now_ns),
        ),
        lists_in_order(sorted_ids(ready_set(s.tasks, s.states)), ready_set(s.tasks, s.states)),
{
    lemma_ready_listed(s);
    lemma_dispatch_effect(
        Dispatch { supervisor: s, governor: g, launches: Seq::empty() },
        sorted_ids(ready_set(s.tasks, s.states)),
        now_ns,
    );
}

/// Not a step before: all that a dispatch starts was waiting with all its
/// dependencies completed and its backoff window closed, and it starts as the
/// next attempt, with the answer that waited for it. The tasks start in the
/// order of their ids.
pub proof fn dispatch_starts_only_what_may_start(s: SupervisorView, g: GovernorView, now_ns: u64)
    requires
        s.wf(),
        g.within_budget(),
    ensures
        ({
            let launches = dispatched(s, g, now_ns).launches;
            &&& strictly_sorted(started(launches))
            &&& forall|i: int| 0 <= i < launches.len() ==> {
                &&& is_ready(s.tasks, s.states, (#[trigger] launches[i]).spec.id)
                &&& !s.in_backoff(launches[i].spec.id, now_ns)
                &&& launches[i] == next_launch(s, launches[i].spec.id)
            }
        }),
{
    lemma_dispatched(s, g, now_ns);
    let launches = dispatched(s, g, now_ns).launches;
    let ids = sorted_ids(ready_set(s.tasks, s.states));
    assert forall|i: int| 0 <= i < launches.len() implies {
        &&& is_ready(s.tasks, s.states, (#[trigger] launches[i]).spec.id)
        &&& !s.in_backoff(launches[i].spec.id, now_ns)
        &&& launches[i] == next_launch(s, launches[i].spec.id)
    } by {
        assert(ids.contains(started(launches)[i]));
        assert(ready_set(s.tasks, s.states).contains(started(launches)[i]));
    }
}

/// A task starts only with its whole budget reserved, and the reservations of
/// a dispatch stay within the budget.
pub proof fn dispatch_reserves_whole_budgets(s: SupervisorView, g: GovernorView, now_ns: u64)
    requires
        s.wf(),
        g.within_budget(),
    ensures
        ({
            let d = dispatched(s, g, now_ns);
            &&& d.governor.reservations == g.reservations + claims(d.launches)
            &&& d.governor.settled == g.settled
            &&& d.governor.global_budget == g.global_budget
            &&& d.governor.within_budget()
        }),
{
    lemma_dispatched(s, g, now_ns);
}

/// A dispatch never runs more tasks at a time than it may.
pub proof fn dispatch_respects_the_cap(s: SupervisorView, g: GovernorView, now_ns: u64)
    requires
        s.wf(),
        g.within_budget(),
        s.running.len() <= s.config.max_concurrent,
    ensures
        dispatched(s, g, now_ns).supervisor.running.len() <= s.config.max_concurrent,
{
    lemma_dispatched(s, g, now_ns);
}

/// What ran before a dispatch runs on, and all that it starts runs.
pub proof fn dispatch_runs_what_it_starts(s: SupervisorView, g: GovernorView, now_ns: u64)
    requires
        s.wf(),
        g.within_budget(),
    ensures
        forall|k: Id| #[trigger] dispatched(s, g, now_ns).supervisor.running.contains_key(k)
            <==> s.running.contains_key(k)
            || started(dispatched(s, g, now_ns).launches).contains(k),
{
    lemma_dispatched(s, g, now_ns);
}

/// The moment it can: if a dispatch leaves a slot free, then every task that
/// may start was started, or is in its backoff window, or asks for more than
/// the budget has left.
pub proof fn dispatch_leaves_no_slot_idle(s: SupervisorView, g: GovernorView, now_ns: u64, k: Id)
    requires
        s.wf(),
        g.within_budget(),
        is_ready(s.tasks, s.states, k),
        dispatched(s, g, now_ns).supervisor.running.len() < s.config.max_concurrent,
    ensures
        ({
            let d = dispatched(s, g, now_ns);
            ||| started(d.launches).contains(k)
            ||| s.in_backoff(k, now_ns)
            ||| s.tasks[k].token_budget > d.governor.available()
        }),
{
    lemma_dispatched(s, g, now_ns);
    assert(ready_set(s.tasks, s.states).contains(k));
    assert(sorted_ids(ready_set(s.tasks, s.states)).contains(k));
}

/// The answer to a blocked task is handed to its next attempt, and to that
/// attempt only.
pub proof fn answer_reaches_the_next_attempt(
    s: SupervisorView,
    id: Id,
    answer: Seq<char>,
    g: GovernorView,
    now_ns: u64,
    i: int,
)
    requires
        s.wf(),
        g.within_budget(),
        s.states.contains_key(id),
        s.states[id] is Blocked,
        0 <= i < dispatched(s.resolve(id, answer), g, now_ns).launches.len(),
        dispatched(s.resolve(id, answer), g, now_ns).launches[i].spec.id == id,
    ensures
        dispatched(s.resolve(id, answer), g, now_ns).launches[i].answer == Some(answer),
        dispatched(s.resolve(id, answer), g, now_ns).supervisor.answer_for(id) is None,
{
    let t = s.resolve(id, answer);
    assert(t.states.dom() =~= s.states.dom());
    lemma_dispatched(t, g, now_ns);
    let d = dispatched(t, g, now_ns);
    assert(started(d.launches)[i] == id);
    assert(d.launches[i] == next_launch(t, id));
    assert(t.answer_for(id) == Some(answer));
    assert(started(d.launches).contains(id));
}

/// A blocked task keeps the run alive: no dispatch touches it.
pub proof fn blocked_task_keeps_the_run_alive(s: SupervisorView, g: GovernorView, now_ns: u64, id: Id)
    requires
        s.orderly(),
        s.tasks.contains_key(id),
        s.states[id] is Blocked,
    ensures
        dispatched(s, g, now_ns).supervisor.states[id] == s.states[id],
        !dispatched(s, g, now_ns).supervisor.all_terminal(),
{
    dispatch_keeps_order(s, g, now_ns);
    let t = dispatched(s, g, now_ns).supervisor;
    assert(t.states[id] == s.states[id]);
    assert(t.states.contains_key(id));
}

/// What a liveness check makes of an attempt that it does not give up.
proof fn lemma_check_keeps_running(s: SupervisorView, ages: Map<Id, u64>, now_ns: u64, id: Id)
    requires
        s.wf(),
        s.running.contains_key(id),
        !s.stalled(ages, now_ns).contains(id),
    ensures
        s.after_check(ages, now_ns).running.contains_key(id),
        s.after_check(ages, now_ns).running[id] == s.observe(ages, now_ns).running[id],
        s.after_check(ages, now_ns).config == s.config,
{
    let seen = s.observe(ages, now_ns);
    let ids = sorted_ids(s.stalled(ages, now_ns));
    lemma_stalled_listed(s, ages, now_ns);
    lemma_recover_all(seen, ids, now_ns);
    assert(!ids.contains(id));
}

/// No timeout guesswork: an attempt whose heartbeat is fresh is never given up,
/// however long it has been running, and a suspicion against it is dropped.
pub proof fn fresh_heartbeat_is_left_alone(s: SupervisorView, ages: Map<Id, u64>, now_ns: u64, id: Id)
    requires
        s.wf(),
        s.running.contains_key(id),
        ages[id] < s.config.stall_suspect_ms,
    ensures
        !s.aborts(RunEventView::Tick { ages }, now_ns).contains(id),
        s.after_check(ages, now_ns).running.contains_key(id),
        s.after_check(ages, now_ns).running[id].suspected_at is None,
        s.after_check(ages, now_ns).running[id].attempt == s.running[id].attempt,
{
    lemma_listed(s.tasks.dom(), s.stalled(ages, now_ns));
    lemma_check_keeps_running(s, ages, now_ns, id);
}

/// Detect, confirm, recover: an attempt that was not under suspicion survives
/// the check, and is given up by the next one only if its heartbeat was stale
/// both times and the confirmation window lies between them.
pub proof fn recovery_takes_two_observations(
    s: SupervisorView,
    ages: Map<Id, u64>,
    now_ns: u64,
    later_ages: Map<Id, u64>,
    later_ns: u64,
    id: Id,
)
    requires
        s.wf(),
        s.running.contains_key(id),
        s.running[id].suspected_at is None,
    ensures
        !s.aborts(RunEventView::Tick { ages }, now_ns).contains(id),
        s.after_check(ages, now_ns).running.contains_key(id),
        s.after_check(ages, now_ns).stalled(later_ages, later_ns).contains(id) <==> {
            &&& ages[id] >= s.config.stall_suspect_ms
            &&& later_ages[id] >= s.config.stall_suspect_ms
            &&& ms_between(now_ns, later_ns) >= s.config.stall_confirm_ms
        },
{
    lemma_listed(s.tasks.dom(), s.stalled(ages, now_ns));
    lemma_check_keeps_running(s, ages, now_ns, id);
}

/// A transient failure with attempts left puts the task back into the
/// schedule, and the wait before attempt `n + 1` is `n` times the base.
pub proof fn retry_waits_out_its_backoff(
    s: SupervisorView,
    id: Id,
    error: Seq<char>,
    tokens_used: u64,
    now_ns: u64,
    then_ns: u64,
)
    requires
        s.attempts(id) + 1 < s.tasks[id].max_attempts,
    ensures
        ({
            let t = s.after_outcome(id, OutcomeView::Retryable { error, tokens_used }, now_ns);
            &&& t.states[id] is Pending
            &&& t.attempts(id) == s.attempts(id) + 1
            &&& t.in_backoff(id, then_ns) <==> then_ns < now_ns + t.attempts(id) * s.config.retry_backoff_ms * 1_000_000
        }),
{
    let n = (s.attempts(id) + 1) as u32;
    lemma_backoff_end(s, n, now_ns);
    let t = s.after_outcome(id, OutcomeView::Retryable { error, tokens_used }, now_ns);
    assert(t.next_retry_at[id] == s.backoff_end(n, now_ns));
}

/// The end of a backoff window is what its arithmetic says.
proof fn lemma_backoff_end(s: SupervisorView, n: u32, now_ns: u64)
    ensures
        s.backoff_end(n, now_ns) == now_ns + n * s.config.retry_backoff_ms * 1_000_000,
{
    let base = s.config.retry_backoff_ms;
    lemma_backoff_in_range(base, n);
    assert(base * n == n * base) by (nonlinear_arith);
}

/// Each of the stalled attempts that have attempts left puts its task back
/// into the schedule, after its backoff.
proof fn lemma_recovered(s: SupervisorView, ids: Seq<Id>, now_ns: u64, id: Id)
    requires
        s.orderly(),
        ids.no_duplicates(),
        forall|i: int| 0 <= i < ids.len() ==> s.running.contains_key(#[trigger] ids[i]) && s.tasks.contains_key(ids[i]),
        ids.contains(id),
        s.attempts(id) + 1 < s.tasks[id].max_attempts,
    ensures
        ({
            let t = s.recover_all(ids, now_ns);
            &&& is_ready(s.tasks, t.states, id)
            &&& t.attempts(id) == s.attempts(id) + 1
            &&& t.next_retry_at.contains_key(id)
            &&& t.next_retry_at[id] == s.backoff_end((s.attempts(id) + 1) as u32, now_ns)
        }),
    decreases ids.len(),
{
    let front = ids.drop_last();
    let last = ids.last();
    assert forall|i: int| 0 <= i < front.len() implies s.running.contains_key(#[trigger] front[i])
        && s.tasks.contains_key(front[i]) by {
        assert(ids[i] == front[i]);
    }
    assert(ids[ids.len() - 1] == last);
    assert(!front.contains(last));
    lemma_recover_all(s, front, now_ns);
    lemma_recover_all_orderly(s, front, now_ns);
    let m = s.recover_all(front, now_ns);
    assert(m.running.contains_key(last));
    lemma_recover_orderly(m, last, now_ns);
    if last == id {
        assert(m.attempts(id) == s.attempts(id));
    } else {
        let i = choose|i: int| 0 <= i < ids.len() && ids[i] == id;
        assert(front[i] == id);
        lemma_recovered(s, front, now_ns, id);
        let t = m.recover(last, now_ns);
        assert(t.attempts(id) == m.attempts(id));
    }
}

/// A confirmed stall with attempts left is recovered like any other failed
/// attempt: the task goes back into the schedule, and the wait before attempt
/// `n + 1` is `n` times the base.
pub proof fn stalled_task_waits_out_its_backoff(
    s: SupervisorView,
    ages: Map<Id, u64>,
    now_ns: u64,
    id: Id,
    then_ns: u64,
)
    requires
        s.orderly(),
        s.stalled(ages, now_ns).contains(id),
        s.attempts(id) + 1 < s.tasks[id].max_attempts,
    ensures
        ({
            let t = s.after_check(ages, now_ns);
            &&& t.states[id] is Pending
            &&& t.attempts(id) == s.attempts(id) + 1
            &&& t.in_backoff(id, then_ns) <==> then_ns < now_ns + t.attempts(id) * s.config.retry_backoff_ms * 1_000_000
        }),
{
    let seen = s.observe(ages, now_ns);
    let ids = sorted_ids(s.stalled(ages, now_ns));
    lemma_stalled_listed(s, ages, now_ns);
    assert(ids.contains(id));
    lemma_observe_orderly(s, ages, now_ns);
    assert(seen.attempts(id) == s.attempts(id));
    assert forall|i: int| 0 <= i < ids.len() implies seen.running.contains_key(#[trigger] ids[i])
        && seen.tasks.contains_key(ids[i]) by {
        assert(s.running.dom().contains(ids[i]));
    }
    lemma_recovered(seen, ids, now_ns, id);
    lemma_backoff_end(s, (s.attempts(id) + 1) as u32, now_ns);
}

/// A transient failure of the last attempt fails the task for good.
pub proof fn last_attempt_fails_for_good(s: SupervisorView, id: Id, error: Seq<char>, tokens_used: u64, now_ns: u64)
    requires
        s.attempts(id) < u32::MAX,
        s.attempts(id) + 1 >= s.tasks[id].max_attempts,
    ensures
        s.after_outcome(id, OutcomeView::Retryable { error, tokens_used }, now_ns).states[id]
            == (TaskStateView::Failed {
            error: exhausted_error(error, s.tasks[id].max_attempts),
        }),
{
}

/// At the end of a run every task is counted once.
pub proof fn report_counts_every_task_once(s: SupervisorView)
    requires
        s.wf(),
        s.all_terminal(),
    ensures
        s.report().completed + s.report().failed + s.report().cancelled == s.tasks.len(),
{
    let done = s.completed_tasks();
    let lost = s.failed_tasks();
    let dropped = s.cancelled_tasks();
    let all = s.tasks.dom();
    vstd::set_lib::lemma_set_subset_finite(all, done);
    vstd::set_lib::lemma_set_subset_finite(all, lost);
    vstd::set_lib::lemma_set_subset_finite(all, dropped);
    assert(done.disjoint(lost));
    assert((done + lost).disjoint(dropped));
    vstd::set_lib::lemma_set_disjoint_lens(done, lost);
    vstd::set_lib::lemma_set_disjoint_lens(done + lost, dropped);
    assert(done + lost + dropped =~= all) by {
        assert forall|k: Id| #[trigger] all.contains(k) implies (done + lost + dropped).contains(k) by {
            assert(s.states.contains_key(k));
        }
    }
}

} // verus!
