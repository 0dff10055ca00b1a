//! Laws of dispatch: which tasks start, which wait, and which fail for want of
//! budget, told by the tasks and what was started before them.

use crate::budget::{total_tokens, GovernorView};
use crate::dag::{completed, is_ready, ready_set, task_edges};
use crate::effects::{fails_for_good, lemma_fails, on_record, same_plan, waiting_on};
use crate::graph::reaches;
use crate::ledger::reserved_tokens_add_up;
use crate::model::{dispatched, lemma_consider, Dispatch, EventView, LaunchView, SupervisorView};
use crate::order::{
    id_lt, lemma_id_lt_asymmetric, lemma_id_lt_irreflexive, lemma_sorted_no_duplicates, sorted_ids,
    strictly_sorted, Id,
};
use crate::orderly::{
    lemma_consider_all_orderly, lemma_consider_orderly, lemma_ready_listed,
};
use crate::scheduling::{claims, lemma_dispatch_effect, lemma_dispatched, started};
use crate::supervisor::Running;
use crate::task::TaskStateView;
use crate::text::decimal;
use vstd::prelude::*;

verus! {

/// How many of the launches are of tasks that come before `k`.
pub open spec fn starts_before(launches: Seq<LaunchView>, k: Id) -> nat
    decreases launches.len(),
{
    if launches.len() == 0 {
        0
    } else {
        starts_before(launches.drop_last(), k) + if id_lt(launches.last().spec.id, k) {
            1nat
        } else {
            0nat
        }
    }
}

/// The budgets of the launches that are of tasks that come before `k`.
pub open spec fn budgets_before(launches: Seq<LaunchView>, k: Id) -> nat
    decreases launches.len(),
{
    if launches.len() == 0 {
        0
    } else {
        budgets_before(launches.drop_last(), k) + if id_lt(launches.last().spec.id, k) {
            launches.last().spec.token_budget as nat
        } else {
            0nat
        }
    }
}

/// What is said of a task that fails for want of budget.
pub open spec fn want_of_budget(requested: u64, available: u64) -> Seq<char> {
    "budget exhausted: "@ + ("global budget exhausted: requested "@ + decimal(requested as nat)
        + ", available "@ + decimal(available as nat))
}

/// The turn of `k` comes with its backoff window closed and a slot free, after
/// the launches of the tasks before it.
pub open spec fn has_its_turn(s: SupervisorView, launches: Seq<LaunchView>, k: Id, now_ns: u64) -> bool {
    &&& !(s.next_retry_at.contains_key(k) && now_ns < s.next_retry_at[k])
    &&& s.running.dom().len() + starts_before(launches, k) < s.config.max_concurrent
}

/// The budget covers `k` besides the launches of the tasks before it.
pub open spec fn is_covered(s: SupervisorView, g: GovernorView, launches: Seq<LaunchView>, k: Id) -> bool {
    g.settled + total_tokens(g.reservations) + budgets_before(launches, k) + s.tasks[k].token_budget <= g.global_budget
}

/// Nothing that could give back budget is under way when the turn of `k` comes.
pub open spec fn nothing_under_way(s: SupervisorView, launches: Seq<LaunchView>, k: Id) -> bool {
    s.running.dom().len() == 0 && starts_before(launches, k) == 0
}

/// What was decided of the task `k`.
spec fn decided(d: Dispatch, r: Dispatch, k: Id, now_ns: u64) -> bool {
    let s = d.supervisor;
    let g = d.governor;
    let turn = has_its_turn(s, r.launches, k, now_ns);
    let fits = is_covered(s, g, r.launches, k);
    &&& started(r.launches).contains(k) <==> turn && fits
    &&& turn && fits ==> r.supervisor.states[k] == (TaskStateView::Running {
        attempt: (on_record(s.attempts_done, k) + 1) as u32,
    })
    &&& turn && !fits && nothing_under_way(s, r.launches, k) ==> r.supervisor.states[k] == (TaskStateView::Failed {
        error: want_of_budget(s.tasks[k].token_budget, g.available() as u64),
    })
    &&& !(turn && fits) && !(turn && !fits && nothing_under_way(s, r.launches, k)) ==> is_ready(
        s.tasks,
        r.supervisor.states,
        k,
    )
}

proof fn lemma_all_before(launches: Seq<LaunchView>, k: Id)
    requires
        forall|i: int| 0 <= i < launches.len() ==> id_lt((#[trigger] launches[i]).spec.id, k),
    ensures
        starts_before(launches, k) == launches.len(),
        budgets_before(launches, k) == total_tokens(claims(launches)),
    decreases launches.len(),
{
    if launches.len() > 0 {
        let front = launches.drop_last();
        assert forall|i: int| 0 <= i < front.len() implies id_lt((#[trigger] front[i]).spec.id, k) by {
            assert(front[i] == launches[i]);
        }
        lemma_all_before(front, k);
        assert(claims(launches).drop_last() =~= claims(front));
        assert(id_lt(launches[launches.len() - 1].spec.id, k));
    }
}

proof fn lemma_later_launch(launches: Seq<LaunchView>, l: LaunchView, k: Id)
    requires
        !id_lt(l.spec.id, k),
    ensures
        starts_before(launches.push(l), k) == starts_before(launches, k),
        budgets_before(launches.push(l), k) == budgets_before(launches, k),
{
    assert(launches.push(l).drop_last() =~= launches);
}

#[verifier::rlimit(40)]
proof fn lemma_decisions(d: Dispatch, ids: Seq<Id>, now_ns: u64)
    requires
        d.supervisor.orderly(),
        d.governor.within_budget(),
        d.launches == Seq::<LaunchView>::empty(),
        strictly_sorted(ids),
        forall|i: int| 0 <= i < ids.len() ==> is_ready(d.supervisor.tasks, d.supervisor.states, #[trigger] ids[i]),
    ensures
        forall|k: Id| #[trigger] ids.contains(k) ==> decided(d, d.consider_all(ids, now_ns), k, now_ns),
        d.consider_all(ids, now_ns).supervisor.running.dom().len() == d.supervisor.running.dom().len()
            + d.consider_all(ids, now_ns).launches.len(),
    decreases ids.len(),
{
    let s = d.supervisor;
    let g = d.governor;
    if ids.len() > 0 {
        let front = ids.drop_last();
        let last = ids.last();
        let n = front.len() as int;
        assert(ids[n] == last);
        assert forall|i: int| 0 <= i < front.len() implies is_ready(s.tasks, s.states, #[trigger] front[i]) by {
            assert(ids[i] == front[i]);
        }
        assert forall|i: int, j: int| 0 <= i < j < front.len() implies
            id_lt(#[trigger] front[i], #[trigger] front[j]) by {
            assert(id_lt(ids[i], ids[j]));
        }
        lemma_sorted_no_duplicates(ids);
        lemma_sorted_no_duplicates(front);
        lemma_decisions(d, front, now_ns);
        lemma_consider_all_orderly(d, front, now_ns);
        lemma_dispatch_effect(d, front, now_ns);
        let m = d.consider_all(front, now_ns);
        let r = d.consider_all(ids, now_ns);
        let begun = started(m.launches);
        assert forall|k: Id| #[trigger] front.contains(k) implies id_lt(k, last) && k != last by {
            let i = choose|i: int| 0 <= i < front.len() && front[i] == k;
            assert(id_lt(ids[i], ids[n]));
            lemma_id_lt_asymmetric(k, last);
        }
        assert forall|i: int| 0 <= i < m.launches.len() implies id_lt((#[trigger] m.launches[i]).spec.id, last) by {
            assert(front.contains(begun[i]));
        }
        assert(!front.contains(last)) by {
            lemma_id_lt_irreflexive(last);
        }
        assert(!begun.contains(last)) by {
            if begun.contains(last) {
                let i = choose|i: int| 0 <= i < begun.len() && begun[i] == last;
                assert(m.launches[i].spec.id == last);
                lemma_id_lt_irreflexive(last);
            }
        }
        lemma_all_before(m.launches, last);
        reserved_tokens_add_up(g.reservations, claims(m.launches), (last, 0));
        assert(is_ready(s.tasks, m.supervisor.states, last));
        lemma_consider(m, last, now_ns);
        lemma_consider_orderly(m, last, now_ns);
        assert(s.keeps_order(last));
        assert(m.supervisor.attempts(last) == on_record(s.attempts_done, last));
        assert(m.supervisor.running.dom().finite()) by {
            vstd::set_lib::lemma_set_subset_finite(s.tasks.dom(), m.supervisor.running.dom());
        }
        assert(!m.supervisor.running.contains_key(last));
        let l = LaunchView {
            spec: s.tasks[last],
            attempt: (s.attempts(last) + 1) as u32,
            answer: m.supervisor.answer_for(last),
        };
        assert(l.spec.id == last);
        let launched = !m.full() && !m.supervisor.in_backoff(last, now_ns) && s.tasks[last].token_budget
            <= m.governor.available();
        assert(launched ==> r.launches == m.launches.push(l));
        assert(!launched ==> r.launches == m.launches);
        assert(started(m.launches.push(l)) =~= begun.push(last));
        lemma_id_lt_irreflexive(last);
        lemma_later_launch(m.launches, l, last);
        assert(starts_before(r.launches, last) == m.launches.len());
        assert(budgets_before(r.launches, last) == total_tokens(claims(m.launches)));
        assert(is_covered(s, g, r.launches, last) <==> s.tasks[last].token_budget <= m.governor.available());
        assert(has_its_turn(s, r.launches, last, now_ns) <==> !m.full() && !m.supervisor.in_backoff(last, now_ns));
        assert forall|k: Id| #[trigger] ids.contains(k) implies decided(d, r, k, now_ns) by {
            if k == last {
                assert(started(r.launches).contains(k) <==> launched) by {
                    if launched {
                        assert(started(r.launches)[m.launches.len() as int] == last);
                    }
                }
                if !launched && has_its_turn(s, r.launches, last, now_ns) {
                    let requested = s.tasks[last].token_budget;
                    let available = m.governor.available() as u64;
                    let told = m.supervisor.emit(EventView::BudgetRejected { task: last, requested, available });
                    assert(told.running.len() == m.supervisor.running.dom().len());
                    if m.launches.len() == 0 {
                        assert(claims(m.launches) =~= Seq::<(Id, u64)>::empty());
                        assert(m.governor.reservations =~= g.reservations);
                        assert(m.governor.available() == g.available());
                    }
                }
            } else {
                let i = choose|i: int| 0 <= i < ids.len() && ids[i] == k;
                assert(front[i] == k);
                assert(front.contains(k));
                assert(decided(d, m, k, now_ns));
                lemma_id_lt_asymmetric(k, last);
                lemma_later_launch(m.launches, l, k);
                assert(started(r.launches).contains(k) <==> begun.contains(k)) by {
                    if begun.contains(k) {
                        let j = choose|j: int| 0 <= j < begun.len() && begun[j] == k;
                        assert(started(r.launches)[j] == k);
                    }
                    if started(r.launches).contains(k) {
                        let j = choose|j: int| 0 <= j < started(r.launches).len() && started(r.launches)[j] == k;
                        assert(begun[j] == k);
                    }
                }
                assert(s.tasks.contains_key(k));
                if m.full() {
                    assert(r == m);
                } else {
                    assert(r == m.consider(last, now_ns));
                    if is_ready(s.tasks, m.supervisor.states, k) {
                        assert(is_ready(s.tasks, r.supervisor.states, k));
                    } else {
                        assert(r.supervisor.states[k] == m.supervisor.states[k]);
                    }
                }
            }
        }
    }
}

/// First come, first served, in id order: a task is started if and only if it
/// may start, its backoff window is closed, and after the starts of the tasks
/// before it a slot is free and the budget covers it whole. It then runs as its
/// next attempt.
pub proof fn task_starts_if_and_only_if_its_turn_allows(
    s: SupervisorView,
    g: GovernorView,
    now_ns: u64,
    k: Id,
)
    requires
        s.orderly(),
        g.within_budget(),
    ensures
        ({
            let d = dispatched(s, g, now_ns);
            let starts = is_ready(s.tasks, s.states, k) && has_its_turn(s, d.launches, k, now_ns) && is_covered(
                s,
                g,
                d.launches,
                k,
            );
            &&& started(d.launches).contains(k) <==> starts
            &&& starts ==> d.supervisor.states[k] == (TaskStateView::Running {
                attempt: (on_record(s.attempts_done, k) + 1) as u32,
            })
        }),
{
    lemma_all_decided(s, g, now_ns, k);
    lemma_dispatched(s, g, now_ns);
    let ids = sorted_ids(ready_set(s.tasks, s.states));
    let launches = dispatched(s, g, now_ns).launches;
    if started(launches).contains(k) {
        let i = choose|i: int| 0 <= i < started(launches).len() && started(launches)[i] == k;
        assert(launches[i].spec.id == k);
        assert(ids.contains(started(launches)[i]));
        assert(ready_set(s.tasks, s.states).contains(k));
    }
}

proof fn lemma_all_decided(s: SupervisorView, g: GovernorView, now_ns: u64, k: Id)
    requires
        s.orderly(),
        g.within_budget(),
    ensures
        is_ready(s.tasks, s.states, k) ==> decided(
            Dispatch { supervisor: s, governor: g, launches: Seq::empty() },
            dispatched(s, g, now_ns),
            k,
            now_ns,
        ),
{
    let d = Dispatch { supervisor: s, governor: g, launches: Seq::empty() };
    let ids = sorted_ids(ready_set(s.tasks, s.states));
    lemma_ready_listed(s);
    lemma_decisions(d, ids, now_ns);
    if is_ready(s.tasks, s.states, k) {
        assert(ready_set(s.tasks, s.states).contains(k));
        assert(ids.contains(k));
    }
}

/// A task that may start fails in a dispatch if and only if its turn comes, the
/// budget does not cover it, and nothing is under way that could give budget
/// back: nothing ran before, and nothing was started before it. In every other
/// case it has started or goes on waiting.
pub proof fn task_fails_only_if_no_budget_can_come_back(
    s: SupervisorView,
    g: GovernorView,
    now_ns: u64,
    k: Id,
)
    requires
        s.orderly(),
        g.within_budget(),
        is_ready(s.tasks, s.states, k),
    ensures
        ({
            let d = dispatched(s, g, now_ns);
            let hopeless = has_its_turn(s, d.launches, k, now_ns) && !is_covered(s, g, d.launches, k)
                && nothing_under_way(s, d.launches, k);
            &&& d.supervisor.states[k] is Failed <==> hopeless
            &&& hopeless ==> d.supervisor.states[k] == (TaskStateView::Failed {
                error: want_of_budget(s.tasks[k].token_budget, g.available() as u64),
            })
            &&& !hopeless && !started(d.launches).contains(k) ==> d.supervisor.states[k] is Pending
        }),
{
    lemma_all_decided(s, g, now_ns, k);
}

/// As long as some attempt runs, a dispatch fails and cancels nothing: a task
/// whose budget does not fit at the moment goes on waiting.
pub proof fn budget_is_waited_for_while_something_runs(
    s: SupervisorView,
    g: GovernorView,
    now_ns: u64,
    running: Id,
    k: Id,
)
    requires
        s.wf(),
        s.running.contains_key(running),
        s.tasks.contains_key(k),
    ensures
        ({
            let t = dispatched(s, g, now_ns).supervisor;
            &&& t.states[k] is Failed || t.states[k] is Cancelled ==> t.states[k] == s.states[k]
            &&& !is_ready(s.tasks, s.states, k) ==> t.states[k] == s.states[k]
            &&& t.states[k] != s.states[k] ==> t.states[k] is Running
        }),
{
    let ids = sorted_ids(ready_set(s.tasks, s.states));
    lemma_ready_listed(s);
    assert forall|i: int| 0 <= i < ids.len() implies s.tasks.contains_key(#[trigger] ids[i]) by {
        assert(is_ready(s.tasks, s.states, ids[i]));
    }
    lemma_nothing_fails(Dispatch { supervisor: s, governor: g, launches: Seq::empty() }, ids, now_ns, running, k);
    assert(ids.contains(k) <==> ready_set(s.tasks, s.states).contains(k));
}

proof fn lemma_nothing_fails(d: Dispatch, ids: Seq<Id>, now_ns: u64, running: Id, k: Id)
    requires
        d.supervisor.wf(),
        d.supervisor.running.contains_key(running),
        d.supervisor.tasks.contains_key(k),
        forall|i: int| 0 <= i < ids.len() ==> d.supervisor.tasks.contains_key(#[trigger] ids[i]),
    ensures
        ({
            let t = d.consider_all(ids, now_ns).supervisor;
            &&& t.wf()
            &&& t.tasks == d.supervisor.tasks
            &&& t.running.contains_key(running)
            &&& t.states[k] != d.supervisor.states[k] ==> t.states[k] is Running && ids.contains(k)
        }),
    decreases ids.len(),
{
    if ids.len() > 0 {
        let s = d.supervisor;
        let front = ids.drop_last();
        assert forall|i: int| 0 <= i < front.len() implies s.tasks.contains_key(#[trigger] front[i]) by {
            assert(ids[i] == front[i]);
        }
        assert(ids[ids.len() - 1] == ids.last());
        lemma_nothing_fails(d, front, now_ns, running, k);
        let m = d.consider_all(front, now_ns);
        lemma_consider(m, ids.last(), now_ns);
        assert(m.supervisor.running.len() > 0) by {
            vstd::set_lib::lemma_set_subset_finite(s.tasks.dom(), m.supervisor.running.dom());
            assert(m.supervisor.running.dom().contains(running));
            if m.supervisor.running.dom().len() == 0 {
                assert(m.supervisor.running.dom() =~= Set::<Id>::empty());
            }
        }
        if front.contains(k) {
            let i = choose|i: int| 0 <= i < front.len() && front[i] == k;
            assert(ids[i] == k);
        }
        assert(m.supervisor.states.dom().contains(k));
    }
}

/// A dispatch touches a task that may not start only to cancel it, and only if
/// a task that may start and that it depends on, directly or through others,
/// fails in that dispatch; that task is named as the reason.
pub proof fn dispatch_cancels_only_what_waits_for_a_failure(
    s: SupervisorView,
    g: GovernorView,
    now_ns: u64,
    k: Id,
)
    requires
        s.orderly(),
        s.tasks.contains_key(k),
        !is_ready(s.tasks, s.states, k),
    ensures
        ({
            let t = dispatched(s, g, now_ns).supervisor;
            t.states[k] != s.states[k] ==> exists|f: Id| #[trigger]
                is_ready(s.tasks, s.states, f) && t.states[f] is Failed && reaches(task_edges(s.tasks), f, k)
                    && t.states[k] == (TaskStateView::Cancelled { reason: "upstream task "@ + f + " failed"@ })
        }),
{
    lemma_ready_listed(s);
    let ids = sorted_ids(ready_set(s.tasks, s.states));
    lemma_cancelled_by(Dispatch { supervisor: s, governor: g, launches: Seq::empty() }, ids, now_ns, k);
    assert(ids.contains(k) <==> ready_set(s.tasks, s.states).contains(k));
}

proof fn lemma_cancelled_by(d: Dispatch, ids: Seq<Id>, now_ns: u64, k: Id)
    requires
        d.supervisor.orderly(),
        d.supervisor.tasks.contains_key(k),
        ids.no_duplicates(),
        !ids.contains(k),
        forall|i: int| 0 <= i < ids.len() ==> is_ready(d.supervisor.tasks, d.supervisor.states, #[trigger] ids[i]),
    ensures
        ({
            let s = d.supervisor;
            let t = d.consider_all(ids, now_ns).supervisor;
            t.states[k] != s.states[k] ==> exists|f: Id| #[trigger]
                is_ready(s.tasks, s.states, f) && t.states[f] is Failed && reaches(task_edges(s.tasks), f, k)
                    && t.states[k] == (TaskStateView::Cancelled { reason: "upstream task "@ + f + " failed"@ })
        }),
    decreases ids.len(),
{
    if ids.len() > 0 {
        let s = d.supervisor;
        let front = ids.drop_last();
        let last = ids.last();
        assert forall|i: int| 0 <= i < front.len() implies is_ready(s.tasks, s.states, #[trigger] front[i]) by {
            assert(ids[i] == front[i]);
        }
        assert(ids[ids.len() - 1] == last);
        assert(k != last);
        if front.contains(k) {
            let i = choose|i: int| 0 <= i < front.len() && front[i] == k;
            assert(ids[i] == k);
        }
        assert(!front.contains(last));
        lemma_cancelled_by(d, front, now_ns, k);
        lemma_consider_all_orderly(d, front, now_ns);
        let m = d.consider_all(front, now_ns);
        let ms = m.supervisor;
        let t = d.consider_all(ids, now_ns).supervisor;
        assert(is_ready(s.tasks, ms.states, last));
        lemma_consider_orderly(m, last, now_ns);
        if t.states[k] != s.states[k] {
            if ms.states[k] != s.states[k] {
                let f = choose|f: Id| #[trigger]
                    is_ready(s.tasks, s.states, f) && ms.states[f] is Failed && reaches(task_edges(s.tasks), f, k)
                        && ms.states[k] == (TaskStateView::Cancelled { reason: "upstream task "@ + f + " failed"@ });
                assert(t.states[k] == ms.states[k]);
                assert(t.states[f] == ms.states[f]);
            } else {
                let requested = s.tasks[last].token_budget;
                let available = m.governor.available() as u64;
                let told = ms.emit(EventView::BudgetRejected { task: last, requested, available });
                assert(told.wf());
                lemma_fails(told, last, want_of_budget(requested, available));
                assert(told.states.dom().contains(k));
                assert(waiting_on(told, last).contains(k));
                assert(is_ready(s.tasks, s.states, last));
            }
        }
    }
}

/// A dispatch counts no attempt and sets no backoff, and hands out the answers
/// of the tasks that it starts and no others.
pub proof fn dispatch_counts_nothing(s: SupervisorView, g: GovernorView, now_ns: u64, k: Id)
    requires
        s.wf(),
        g.within_budget(),
    ensures
        ({
            let d = dispatched(s, g, now_ns);
            let t = d.supervisor;
            &&& t.tasks == s.tasks && t.config == s.config
            &&& t.attempts_done == s.attempts_done
            &&& t.next_retry_at == s.next_retry_at
            &&& started(d.launches).contains(k) ==> t.answer_for(k) is None
            &&& !started(d.launches).contains(k) ==> t.answer_for(k) == s.answer_for(k)
        }),
{
    lemma_dispatched(s, g, now_ns);
}

/// A task in its backoff window is passed over.
pub proof fn backoff_is_respected(d: Dispatch, id: Id, now_ns: u64)
    requires
        d.supervisor.next_retry_at.contains_key(id),
        now_ns < d.supervisor.next_retry_at[id],
    ensures
        d.consider(id, now_ns) == d,
{
}

/// A task whose budget is covered starts as its next attempt, with the answer
/// on file for it and its whole budget reserved; the answer is then off the
/// file, and nothing else has changed.
pub proof fn covered_task_starts(d: Dispatch, id: Id, now_ns: u64)
    requires
        !(d.supervisor.next_retry_at.contains_key(id) && now_ns < d.supervisor.next_retry_at[id]),
        d.supervisor.tasks[id].token_budget <= d.governor.available(),
    ensures
        ({
            let s = d.supervisor;
            let r = d.consider(id, now_ns);
            let t = r.supervisor;
            let attempt = (on_record(s.attempts_done, id) + 1) as u32;
            &&& same_plan(s, t)
            &&& t.states == s.states.insert(id, TaskStateView::Running { attempt })
            &&& t.running == s.running.insert(id, Running { attempt, suspected_at: None })
            &&& t.answers == s.answers.remove(id)
            &&& t.events == s.events.push(EventView::TaskStarted { task: id, attempt })
            &&& t.attempts_done == s.attempts_done && t.next_retry_at == s.next_retry_at && t.wake == s.wake
            &&& r.governor.reservations == d.governor.reservations.push((id, s.tasks[id].token_budget))
            &&& r.governor.settled == d.governor.settled && r.governor.global_budget == d.governor.global_budget
            &&& r.launches.len() == d.launches.len() + 1
            &&& r.launches.take(d.launches.len() as int) == d.launches
            &&& r.launches.last().spec == s.tasks[id]
            &&& r.launches.last().attempt == attempt
            &&& s.answers.contains_key(id) ==> r.launches.last().answer == Some(s.answers[id])
            &&& !s.answers.contains_key(id) ==> r.launches.last().answer is None
        }),
{
    let r = d.consider(id, now_ns);
    assert(r.launches.take(d.launches.len() as int) =~= d.launches);
}

/// A task whose budget is not covered is announced as rejected, with what it
/// asked for and what was available. It goes on waiting while anything runs,
/// and fails for good otherwise; the books and the launches stay.
pub proof fn uncovered_task_is_rejected(d: Dispatch, id: Id, now_ns: u64)
    requires
        d.supervisor.wf(),
        d.supervisor.tasks.contains_key(id),
        !(d.supervisor.next_retry_at.contains_key(id) && now_ns < d.supervisor.next_retry_at[id]),
        d.supervisor.tasks[id].token_budget > d.governor.available(),
    ensures
        ({
            let s = d.supervisor;
            let r = d.consider(id, now_ns);
            let requested = s.tasks[id].token_budget;
            let available = d.governor.available() as u64;
            let told = SupervisorView {
                events: s.events.push(EventView::BudgetRejected { task: id, requested, available }),
                ..s
            };
            &&& r.governor == d.governor
            &&& r.launches == d.launches
            &&& (exists|k: Id| s.running.contains_key(k)) ==> r.supervisor == told
            &&& (forall|k: Id| !s.running.contains_key(k)) ==> {
                &&& same_plan(s, r.supervisor)
                &&& fails_for_good(told, r.supervisor, id, want_of_budget(requested, available))
                &&& r.supervisor.running == s.running && r.supervisor.answers == s.answers
                &&& r.supervisor.attempts_done == s.attempts_done
                &&& r.supervisor.next_retry_at == s.next_retry_at
            }
        }),
{
    let s = d.supervisor;
    let requested = s.tasks[id].token_budget;
    let available = d.governor.available() as u64;
    let told = s.emit(EventView::BudgetRejected { task: id, requested, available });
    assert(told.wf());
    lemma_fails(told, id, want_of_budget(requested, available));
    vstd::set_lib::lemma_set_subset_finite(s.tasks.dom(), s.running.dom());
    if exists|k: Id| s.running.contains_key(k) {
        let k = choose|k: Id| s.running.contains_key(k);
        assert(s.running.dom().contains(k));
        if s.running.dom().len() == 0 {
            assert(s.running.dom() =~= Set::<Id>::empty());
        }
    } else {
        assert(s.running.dom() =~= Set::<Id>::empty());
    }
}

/// The tasks are considered one after the other, until as many run as may; a
/// dispatch considers all that may start, in id order, and nothing else.
pub proof fn tasks_are_considered_in_order(d: Dispatch, ids: Seq<Id>, id: Id, now_ns: u64)
    requires
        d.launches.len() == 0,
    ensures
        d.consider_all(Seq::<Id>::empty(), now_ns) == d,
        ({
            let m = d.consider_all(ids, now_ns);
            let r = d.consider_all(ids.push(id), now_ns);
            &&& m.supervisor.running.dom().len() >= m.supervisor.config.max_concurrent ==> r == m
            &&& m.supervisor.running.dom().len() < m.supervisor.config.max_concurrent ==> r == m.consider(id, now_ns)
        }),
        dispatched(d.supervisor, d.governor, now_ns) == d.consider_all(
            sorted_ids(
                Set::new(
                    |k: Id|
                        d.supervisor.tasks.contains_key(k) && d.supervisor.states.contains_key(k)
                            && d.supervisor.states[k] is Pending && forall|dep: Id| #[trigger]
                            d.supervisor.tasks[k].depends_on.contains(dep) ==> completed(d.supervisor.states, dep),
                ),
            ),
            now_ns,
        ),
{
    assert(ids.push(id).drop_last() =~= ids);
    let s = d.supervisor;
    let set = Set::new(
        |k: Id|
            s.tasks.contains_key(k) && s.states.contains_key(k) && s.states[k] is Pending && forall|dep: Id| #[trigger]
                s.tasks[k].depends_on.contains(dep) ==> completed(s.states, dep),
    );
    assert(set =~= ready_set(s.tasks, s.states)) by {
        assert forall|k: Id| set.contains(k) <==> ready_set(s.tasks, s.states).contains(k) by {
            lemma_ready_by_name(s, k);
        }
    }
    assert(d.launches =~= Seq::<LaunchView>::empty());
    assert((Dispatch { supervisor: s, governor: d.governor, launches: Seq::empty() }) =~= d);
}

proof fn lemma_ready_by_name(s: SupervisorView, k: Id)
    ensures
        is_ready(s.tasks, s.states, k)
            <==> s.tasks.contains_key(k) && s.states.contains_key(k) && s.states[k] is Pending
                && forall|dep: Id| #[trigger]
                s.tasks[k].depends_on.contains(dep) ==> completed(s.states, dep),
{
    let deps = s.tasks[k].depends_on;
    if is_ready(s.tasks, s.states, k) {
        assert forall|dep: Id| #[trigger] s.tasks[k].depends_on.contains(dep) implies completed(s.states, dep) by {
            let i = choose|i: int| 0 <= i < deps.len() && deps[i] == dep;
            assert(completed(s.states, s.tasks[k].depends_on[i]));
        }
    }
    if forall|dep: Id| #[trigger] s.tasks[k].depends_on.contains(dep) ==> completed(s.states, dep) {
        assert forall|i: int| 0 <= i < deps.len() implies completed(s.states, #[trigger] s.tasks[k].depends_on[i]) by {
            assert(s.tasks[k].depends_on.contains(deps[i]));
        }
    }
}

} // verus!
