//! Laws of termination: every attempt that ends, unless it asks a question,
//! brings the end of the run nearer.

use crate::budget::GovernorView;
use crate::dag::{is_ready, ready_set};
use crate::history::{every_run_is_sound, lemma_front_admitted, Desk, Step};
use crate::model::{
    budget_error, dispatched, exhausted_error, lemma_consider, lemma_recover_all, stalled_error,
    Dispatch, EventView, RunEventView, SupervisorView,
};
use crate::order::{sorted_ids, Id};
use crate::orderly::{
    differ_in_announcements, dispatch_keeps_order, lemma_consider_all_orderly, lemma_listed,
    lemma_observe_orderly, lemma_ready_listed, lemma_recover_all_orderly, lemma_stalled_listed,
};
use crate::worker::OutcomeView;
use vstd::prelude::*;

verus! {

/// How many attempts the task `k` may still end, the one under way among them.
pub open spec fn attempts_left(s: SupervisorView, k: Id) -> nat {
    if s.states[k].terminal() {
        0
    } else if s.tasks[k].max_attempts <= s.attempts(k) {
        1
    } else {
        (s.tasks[k].max_attempts - s.attempts(k)) as nat
    }
}

/// How many attempts the tasks of `ids` may still end.
pub open spec fn attempts_left_of(s: SupervisorView, ids: Seq<Id>) -> nat
    decreases ids.len(),
{
    if ids.len() == 0 {
        0
    } else {
        attempts_left_of(s, ids.drop_last()) + attempts_left(s, ids.last())
    }
}

/// How many attempts may still end in the run.
pub open spec fn remaining(s: SupervisorView) -> nat {
    attempts_left_of(s, sorted_ids(s.tasks.dom()))
}

/// No task has more attempts left in `t` than in `s`.
pub open spec fn no_more_left(s: SupervisorView, t: SupervisorView) -> bool {
    &&& t.tasks == s.tasks
    &&& forall|k: Id| #[trigger] s.tasks.contains_key(k) ==> attempts_left(t, k) <= attempts_left(s, k)
}

proof fn lemma_sum(s: SupervisorView, t: SupervisorView, ids: Seq<Id>, id: Id)
    requires
        no_more_left(s, t),
        forall|i: int| 0 <= i < ids.len() ==> s.tasks.contains_key(#[trigger] ids[i]),
    ensures
        attempts_left_of(t, ids) <= attempts_left_of(s, ids),
        ids.contains(id) && attempts_left(t, id) < attempts_left(s, id)
            ==> attempts_left_of(t, ids) < attempts_left_of(s, ids),
    decreases ids.len(),
{
    if ids.len() > 0 {
        let front = ids.drop_last();
        assert forall|i: int| 0 <= i < front.len() implies s.tasks.contains_key(#[trigger] front[i]) by {
            assert(ids[i] == front[i]);
        }
        assert(ids[ids.len() - 1] == ids.last());
        lemma_sum(s, t, front, id);
        if ids.contains(id) && id != ids.last() {
            let i = choose|i: int| 0 <= i < ids.len() && ids[i] == id;
            assert(front[i] == id);
        }
    }
}

proof fn lemma_remaining(s: SupervisorView, t: SupervisorView, id: Id)
    requires
        s.wf(),
        no_more_left(s, t),
        s.tasks.contains_key(id),
    ensures
        remaining(t) <= remaining(s),
        attempts_left(t, id) < attempts_left(s, id) ==> remaining(t) < remaining(s),
{
    let ids = sorted_ids(s.tasks.dom());
    lemma_listed(s.tasks.dom(), s.tasks.dom());
    assert forall|i: int| 0 <= i < ids.len() implies s.tasks.contains_key(#[trigger] ids[i]) by {
        assert(ids.contains(ids[i]));
    }
    lemma_sum(s, t, ids, id);
    assert(ids.contains(id));
}

/// A failure takes away attempts and gives none.
proof fn lemma_fail_no_more(s: SupervisorView, id: Id, error: Seq<char>)
    requires
        s.wf(),
        s.tasks.contains_key(id),
    ensures
        no_more_left(s, s.fail(id, error)),
        attempts_left(s.fail(id, error), id) == 0,
{
    let t = s.fail(id, error);
    assert forall|k: Id| #[trigger] s.tasks.contains_key(k) implies attempts_left(t, k) <= attempts_left(s, k) by {
        assert(t.attempts(k) == s.attempts(k));
    }
}

/// An attempt that ends without a question takes one away from its task.
pub proof fn lemma_outcome_left(s: SupervisorView, id: Id, outcome: OutcomeView, now_ns: u64)
    requires
        s.orderly(),
        s.running.contains_key(id),
    ensures
        ({
            let t = s.after_event(RunEventView::Outcome { task: id, outcome }, now_ns);
            &&& no_more_left(s, t)
            &&& !(outcome is Blocked) ==> attempts_left(t, id) < attempts_left(s, id)
        }),
{
    let u = SupervisorView { running: s.running.remove(id), ..s };
    let t = s.after_event(RunEventView::Outcome { task: id, outcome }, now_ns);
    assert(s.tasks.contains_key(id));
    assert(s.keeps_order(id));
    match outcome {
        OutcomeView::Success { .. } | OutcomeView::Blocked { .. } => {
            assert forall|k: Id| #[trigger] s.tasks.contains_key(k) implies
                attempts_left(t, k) <= attempts_left(s, k) by {
                assert(t.attempts(k) == s.attempts(k));
            }
        },
        OutcomeView::Fatal { error, .. } => {
            assert(u.wf());
            lemma_fail_no_more(u, id, error);
            assert forall|k: Id| #[trigger] s.tasks.contains_key(k) implies
                attempts_left(t, k) <= attempts_left(s, k) by {
                assert(u.tasks.contains_key(k));
                assert(u.attempts(k) == s.attempts(k));
            }
        },
        OutcomeView::Retryable { error, .. } => {
            lemma_counted(u, id);
            let counted = u.count_attempt(id);
            let max = s.tasks[id].max_attempts;
            if counted.attempts(id) >= max {
                lemma_fail_no_more(counted, id, exhausted_error(error, max));
            } else {
                assert forall|k: Id| #[trigger] s.tasks.contains_key(k) implies attempts_left(t, k) <= attempts_left(
                    counted,
                    k,
                ) by {
                    assert(t.attempts(k) == counted.attempts(k));
                }
                assert(t.attempts(id) == counted.attempts(id));
            }
            assert forall|k: Id| #[trigger] s.tasks.contains_key(k) implies
                attempts_left(t, k) <= attempts_left(s, k) by {
                assert(counted.tasks.contains_key(k));
                assert(u.attempts(k) == s.attempts(k));
            }
        },
    }
}

/// An attempt that ends without a question brings the end of the run nearer; a
/// question leaves it as far as it was.
pub proof fn outcome_brings_the_end_nearer(s: SupervisorView, id: Id, outcome: OutcomeView, now_ns: u64)
    requires
        s.orderly(),
        s.running.contains_key(id),
    ensures
        ({
            let t = s.after_event(RunEventView::Outcome { task: id, outcome }, now_ns);
            &&& remaining(t) <= remaining(s)
            &&& !(outcome is Blocked) ==> remaining(t) < remaining(s)
        }),
{
    lemma_outcome_left(s, id, outcome, now_ns);
    assert(s.tasks.contains_key(id));
    lemma_remaining(s, s.after_event(RunEventView::Outcome { task: id, outcome }, now_ns), id);
}

/// Counting an attempt of a task that has attempts to spare takes one away.
proof fn lemma_counted(s: SupervisorView, id: Id)
    requires
        s.wf(),
        s.tasks.contains_key(id),
        !s.states[id].terminal(),
        s.attempts(id) == 0 || s.attempts(id) < s.tasks[id].max_attempts,
    ensures
        s.count_attempt(id).wf(),
        no_more_left(s, s.count_attempt(id)),
        s.count_attempt(id).attempts(id) < s.tasks[id].max_attempts ==> attempts_left(s.count_attempt(id), id)
            < attempts_left(s, id),
{
    let t = s.count_attempt(id);
    assert forall|k: Id| #[trigger] s.tasks.contains_key(k) implies attempts_left(t, k) <= attempts_left(s, k) by {
        if k != id {
            assert(t.attempts(k) == s.attempts(k));
        }
    }
}

/// Giving up a stalled attempt takes one away from its task.
proof fn lemma_recover_left(s: SupervisorView, id: Id, now_ns: u64)
    requires
        s.orderly(),
        s.running.contains_key(id),
    ensures
        no_more_left(s, s.recover(id, now_ns)),
        attempts_left(s.recover(id, now_ns), id) < attempts_left(s, id),
{
    let told = SupervisorView { running: s.running.remove(id), ..s }.emit(
        EventView::WorkerStallConfirmed { task: id },
    );
    let counted = told.count_attempt(id);
    let t = s.recover(id, now_ns);
    let max = s.tasks[id].max_attempts;
    assert(s.tasks.contains_key(id));
    assert(s.keeps_order(id));
    assert(told.wf());
    assert(told.attempts(id) == s.attempts(id));
    lemma_counted(told, id);
    if counted.attempts(id) >= max {
        lemma_fail_no_more(counted, id, stalled_error(s.running[id].attempt, max));
    } else {
        assert forall|k: Id| #[trigger] s.tasks.contains_key(k) implies
            attempts_left(t, k) <= attempts_left(counted, k) by {
            assert(t.attempts(k) == counted.attempts(k));
        }
        assert(t.attempts(id) == counted.attempts(id));
    }
    assert forall|k: Id| #[trigger] s.tasks.contains_key(k) implies attempts_left(t, k) <= attempts_left(s, k) by {
        assert(counted.tasks.contains_key(k));
        assert(told.tasks.contains_key(k));
        assert(told.attempts(k) == s.attempts(k));
    }
}

/// Giving up stalled attempts takes one away from each of their tasks.
proof fn lemma_recover_all_left(s: SupervisorView, ids: Seq<Id>, now_ns: u64)
    requires
        s.orderly(),
        ids.no_duplicates(),
        forall|i: int| 0 <= i < ids.len() ==> s.running.contains_key(#[trigger] ids[i]),
    ensures
        no_more_left(s, s.recover_all(ids, now_ns)),
        forall|k: Id| ids.contains(k) ==> #[trigger] attempts_left(s.recover_all(ids, now_ns), k) < attempts_left(s, k),
        remaining(s.recover_all(ids, now_ns)) + ids.len() <= remaining(s),
    decreases ids.len(),
{
    if ids.len() > 0 {
        let front = ids.drop_last();
        let last = ids.last();
        assert forall|i: int| 0 <= i < front.len() implies s.running.contains_key(#[trigger] front[i])
            && s.tasks.contains_key(front[i]) by {
            assert(ids[i] == front[i]);
        }
        lemma_recover_all_left(s, front, now_ns);
        lemma_recover_all_orderly(s, front, now_ns);
        lemma_recover_all(s, front, now_ns);
        let m = s.recover_all(front, now_ns);
        assert(ids[ids.len() - 1] == last);
        assert(!front.contains(last));
        assert(m.running.contains_key(last));
        lemma_recover_left(m, last, now_ns);
        lemma_remaining(m, s.recover_all(ids, now_ns), last);
        let t = s.recover_all(ids, now_ns);
        assert forall|k: Id| #[trigger] s.tasks.contains_key(k) implies attempts_left(t, k) <= attempts_left(s, k) by {
            assert(m.tasks.contains_key(k));
        }
        assert forall|k: Id| ids.contains(k) implies #[trigger] attempts_left(t, k) < attempts_left(s, k) by {
            let i = choose|i: int| 0 <= i < ids.len() && ids[i] == k;
            assert(s.running.contains_key(ids[i]));
            assert(m.tasks.contains_key(k));
            if i < front.len() {
                assert(front[i] == k);
                assert(attempts_left(m, k) < attempts_left(s, k));
            }
        }
    }
}

/// Every attempt that a liveness check gives up takes one away from its task.
pub proof fn lemma_check_left(s: SupervisorView, ages: Map<Id, u64>, now_ns: u64)
    requires
        s.orderly(),
    ensures
        no_more_left(s, s.after_check(ages, now_ns)),
        forall|k: Id| s.stalled(ages, now_ns).contains(k) ==> #[trigger] attempts_left(s.after_check(ages, now_ns), k)
            < attempts_left(s, k),
        remaining(s.after_check(ages, now_ns)) + s.aborts(RunEventView::Tick { ages }, now_ns).len() <= remaining(s),
{
    let seen = s.observe(ages, now_ns);
    let t = s.after_check(ages, now_ns);
    let ids = sorted_ids(s.stalled(ages, now_ns));
    lemma_observe_orderly(s, ages, now_ns);
    lemma_stalled_listed(s, ages, now_ns);
    assert forall|k: Id| #[trigger] s.tasks.contains_key(k) implies attempts_left(seen, k) == attempts_left(s, k) by {
        assert(seen.attempts(k) == s.attempts(k));
    }
    assert forall|i: int| 0 <= i < ids.len() implies seen.running.contains_key(#[trigger] ids[i]) by {
        assert(s.running.dom().contains(ids[i]));
    }
    lemma_recover_all_left(seen, ids, now_ns);
    lemma_same_remaining(s, seen);
    assert forall|k: Id| #[trigger] s.tasks.contains_key(k) implies attempts_left(t, k) <= attempts_left(s, k) by {
        assert(seen.tasks.contains_key(k));
    }
    assert forall|k: Id| s.stalled(ages, now_ns).contains(k) implies #[trigger] attempts_left(t, k) < attempts_left(
        s,
        k,
    ) by {
        assert(ids.contains(k));
        assert(s.running.dom().contains(k));
        assert(s.tasks.contains_key(k));
    }
}

/// Every attempt that a liveness check gives up brings the end of the run
/// nearer.
pub proof fn check_brings_the_end_nearer(s: SupervisorView, ages: Map<Id, u64>, now_ns: u64)
    requires
        s.orderly(),
    ensures
        remaining(s.after_check(ages, now_ns)) + s.aborts(RunEventView::Tick { ages }, now_ns).len() <= remaining(s),
{
    lemma_check_left(s, ages, now_ns);
}

proof fn lemma_same_remaining(s: SupervisorView, t: SupervisorView)
    requires
        s.wf(),
        t.tasks == s.tasks,
        forall|k: Id| #[trigger] s.tasks.contains_key(k) ==> attempts_left(t, k) == attempts_left(s, k),
    ensures
        remaining(t) == remaining(s),
{
    let ids = sorted_ids(s.tasks.dom());
    lemma_listed(s.tasks.dom(), s.tasks.dom());
    assert forall|i: int| 0 <= i < ids.len() implies s.tasks.contains_key(#[trigger] ids[i]) by {
        assert(ids.contains(ids[i]));
    }
    lemma_same_sum(s, t, ids);
}

proof fn lemma_same_sum(s: SupervisorView, t: SupervisorView, ids: Seq<Id>)
    requires
        t.tasks == s.tasks,
        forall|k: Id| #[trigger] s.tasks.contains_key(k) ==> attempts_left(t, k) == attempts_left(s, k),
        forall|i: int| 0 <= i < ids.len() ==> s.tasks.contains_key(#[trigger] ids[i]),
    ensures
        attempts_left_of(t, ids) == attempts_left_of(s, ids),
    decreases ids.len(),
{
    if ids.len() > 0 {
        let front = ids.drop_last();
        assert forall|i: int| 0 <= i < front.len() implies s.tasks.contains_key(#[trigger] front[i]) by {
            assert(ids[i] == front[i]);
        }
        assert(ids[ids.len() - 1] == ids.last());
        lemma_same_sum(s, t, front);
    }
}

/// An answer leaves the end of the run as far as it was.
pub proof fn answer_keeps_the_distance(s: SupervisorView, id: Id, answer: Seq<char>)
    requires
        s.wf(),
    ensures
        remaining(s.resolve(id, answer)) == remaining(s),
{
    let t = s.resolve(id, answer);
    assert forall|k: Id| #[trigger] s.tasks.contains_key(k) implies attempts_left(t, k) == attempts_left(s, k) by {
        assert(t.attempts(k) == s.attempts(k));
    }
    lemma_same_remaining(s, t);
}

/// What is announced leaves the end of the run as far as it was.
pub proof fn announcements_keep_the_distance(s: SupervisorView, t: SupervisorView)
    requires
        s.wf(),
        differ_in_announcements(s, t),
    ensures
        remaining(t) == remaining(s),
        forall|k: Id| #[trigger] attempts_left(t, k) == attempts_left(s, k),
{
    assert forall|k: Id| #[trigger] attempts_left(t, k) == attempts_left(s, k) by {
        assert(t.attempts(k) == s.attempts(k));
    }
    lemma_same_remaining(s, t);
}

proof fn lemma_consider_no_more(d: Dispatch, id: Id, now_ns: u64)
    requires
        d.supervisor.orderly(),
        is_ready(d.supervisor.tasks, d.supervisor.states, id),
    ensures
        no_more_left(d.supervisor, d.consider(id, now_ns).supervisor),
{
    let s = d.supervisor;
    let t = d.consider(id, now_ns).supervisor;
    lemma_consider(d, id, now_ns);
    if s.in_backoff(id, now_ns) {
    } else if s.tasks[id].token_budget > d.governor.available() {
        let requested = s.tasks[id].token_budget;
        let available = d.governor.available() as u64;
        let told = s.emit(EventView::BudgetRejected { task: id, requested, available });
        assert(told.wf());
        lemma_fail_no_more(told, id, budget_error(requested, available));
        assert forall|k: Id| #[trigger] s.tasks.contains_key(k) implies attempts_left(t, k) <= attempts_left(s, k) by {
            assert(told.tasks.contains_key(k));
            assert(told.attempts(k) == s.attempts(k));
        }
    } else {
        assert forall|k: Id| #[trigger] s.tasks.contains_key(k) implies attempts_left(t, k) <= attempts_left(s, k) by {
            assert(t.attempts(k) == s.attempts(k));
        }
    }
}

proof fn lemma_consider_all_no_more(d: Dispatch, ids: Seq<Id>, now_ns: u64)
    requires
        d.supervisor.orderly(),
        ids.no_duplicates(),
        forall|i: int| 0 <= i < ids.len() ==> is_ready(d.supervisor.tasks, d.supervisor.states, #[trigger] ids[i]),
    ensures
        no_more_left(d.supervisor, d.consider_all(ids, now_ns).supervisor),
    decreases ids.len(),
{
    if ids.len() > 0 {
        let s = d.supervisor;
        let front = ids.drop_last();
        let last = ids.last();
        assert forall|i: int| 0 <= i < front.len() implies is_ready(s.tasks, s.states, #[trigger] front[i]) by {
            assert(ids[i] == front[i]);
        }
        lemma_consider_all_no_more(d, front, now_ns);
        lemma_consider_all_orderly(d, front, now_ns);
        let m = d.consider_all(front, now_ns);
        assert(ids[ids.len() - 1] == last);
        assert(!front.contains(last));
        assert(is_ready(s.tasks, m.supervisor.states, last));
        lemma_consider_no_more(m, last, now_ns);
        assert forall|k: Id| #[trigger] s.tasks.contains_key(k) implies attempts_left(
            d.consider_all(ids, now_ns).supervisor,
            k,
        ) <= attempts_left(s, k) by {
            assert(m.supervisor.tasks.contains_key(k));
        }
    }
}

/// A dispatch gives no task attempts.
pub proof fn lemma_dispatch_left(s: SupervisorView, g: GovernorView, now_ns: u64)
    requires
        s.orderly(),
    ensures
        no_more_left(s, dispatched(s, g, now_ns).supervisor),
{
    lemma_ready_listed(s);
    lemma_consider_all_no_more(
        Dispatch { supervisor: s, governor: g, launches: Seq::empty() },
        sorted_ids(ready_set(s.tasks, s.states)),
        now_ns,
    );
}

/// A dispatch never moves the end of the run away.
pub proof fn dispatch_never_moves_the_end_away(s: SupervisorView, g: GovernorView, now_ns: u64)
    requires
        s.orderly(),
    ensures
        remaining(dispatched(s, g, now_ns).supervisor) <= remaining(s),
{
    lemma_dispatch_left(s, g, now_ns);
    let t = dispatched(s, g, now_ns).supervisor;
    let ids = sorted_ids(s.tasks.dom());
    lemma_listed(s.tasks.dom(), s.tasks.dom());
    assert forall|i: int| 0 <= i < ids.len() implies s.tasks.contains_key(#[trigger] ids[i]) by {
        assert(ids.contains(ids[i]));
    }
    lemma_sum(s, t, ids, Seq::empty());
}

/// While some task has not come to an end, attempts remain, and only then.
pub proof fn attempts_remain_until_the_end(s: SupervisorView)
    requires
        s.wf(),
    ensures
        remaining(s) == 0 <==> s.all_terminal(),
{
    let ids = sorted_ids(s.tasks.dom());
    lemma_listed(s.tasks.dom(), s.tasks.dom());
    lemma_none_left(s, ids);
    if remaining(s) == 0 {
        assert forall|k: Id| #[trigger] s.states.contains_key(k) implies s.states[k].terminal() by {
            assert(s.tasks.dom().contains(k));
            assert(ids.contains(k));
            let i = choose|i: int| 0 <= i < ids.len() && ids[i] == k;
            assert(s.states[ids[i]].terminal());
        }
    }
    if s.all_terminal() {
        assert forall|i: int| 0 <= i < ids.len() implies s.states[#[trigger] ids[i]].terminal() by {
            assert(ids.contains(ids[i]));
            assert(s.tasks.dom().contains(ids[i]));
            assert(s.states.contains_key(ids[i]));
        }
    }
}

proof fn lemma_none_left(s: SupervisorView, ids: Seq<Id>)
    ensures
        attempts_left_of(s, ids) == 0 <==> forall|i: int| 0 <= i < ids.len() ==> s.states[#[trigger] ids[i]].terminal(),
    decreases ids.len(),
{
    if ids.len() > 0 {
        let front = ids.drop_last();
        let n = front.len() as int;
        lemma_none_left(s, front);
        assert(ids[n] == ids.last());
        assert(forall|i: int| 0 <= i < front.len() ==> front[i] == #[trigger] ids[i]);
        if attempts_left_of(s, ids) == 0 {
            assert forall|i: int| 0 <= i < ids.len() implies s.states[#[trigger] ids[i]].terminal() by {
                if i < n {
                    assert(s.states[front[i]].terminal());
                }
            }
        }
        if forall|i: int| 0 <= i < ids.len() ==> s.states[#[trigger] ids[i]].terminal() {
            assert forall|i: int| 0 <= i < front.len() implies s.states[#[trigger] front[i]].terminal() by {
                assert(s.states[ids[i]].terminal());
            }
        }
    }
}

/// How many of the steps end an attempt without a question.
pub open spec fn endings(steps: Seq<Step>) -> nat
    decreases steps.len(),
{
    if steps.len() == 0 {
        0
    } else {
        endings(steps.drop_last()) + match steps.last() {
            Step::Event { event: RunEventView::Outcome { outcome, .. }, .. } => if outcome is Blocked {
                0nat
            } else {
                1nat
            },
            _ => 0nat,
        }
    }
}

/// No run goes on forever for want of success: it ends no more attempts,
/// unless by a question, than its tasks have together.
pub proof fn attempts_of_a_run_are_bounded(d: Desk, steps: Seq<Step>)
    requires
        d.fresh(),
        d.admits_all(steps),
    ensures
        endings(steps) + remaining(d.after_all(steps).supervisor) <= remaining(d.supervisor),
    decreases steps.len(),
{
    if steps.len() > 0 {
        let front = steps.drop_last();
        lemma_front_admitted(d, steps);
        attempts_of_a_run_are_bounded(d, front);
        every_run_is_sound(d, front);
        let m = d.after_all(front);
        match steps.last() {
            Step::Answer { id, answer } => {
                answer_keeps_the_distance(m.supervisor, id, answer);
            },
            Step::Event { event, now_ns } => match event {
                RunEventView::Outcome { task, outcome } => {
                    outcome_brings_the_end_nearer(m.supervisor, task, outcome, now_ns);
                },
                RunEventView::Wake => {},
                RunEventView::Tick { ages } => {
                    check_brings_the_end_nearer(m.supervisor, ages, now_ns);
                },
            },
            Step::Advance { now_ns } => {
                dispatch_never_moves_the_end_away(m.supervisor, m.governor, now_ns);
                dispatch_keeps_order(m.supervisor, m.governor, now_ns);
                let t = dispatched(m.supervisor, m.governor, now_ns).supervisor;
                announcements_keep_the_distance(t, t.concluded());
            },
            Step::Fetch => {
                announcements_keep_the_distance(m.supervisor, m.supervisor.drained());
            },
            Step::TakeWake => {
                announcements_keep_the_distance(m.supervisor, m.supervisor.calmed());
            },
        }
    }
}

} // verus!
