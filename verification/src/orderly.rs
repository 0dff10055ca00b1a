//! What holds of a supervisor throughout a run, and what follows from it:
//! nothing starts early, nothing waits in vain, and no end is undone.

use crate::budget::GovernorView;
use crate::dag::{
    blast_radius, completed, is_ready, lemma_links_match_edges, link_edges, ready_set,
    task_edges, unknown_dependency,
};
use crate::graph::{
    lemma_closed_set, lemma_cycle_exists, lemma_edge_reaches, lemma_last_edge,
    lemma_reaches_then_edge, reaches,
};
use crate::model::{
    budget_error, dispatched, exhausted_error, lemma_consider, lemma_fail_wf, lemma_recover_all,
    stalled_error, Dispatch, EventView, RunEventView, SupervisorView,
};
use crate::order::{
    lemma_finite_set_is_listed, lemma_sorted_no_duplicates, lists_in_order, sorted_ids, Id,
};
use crate::task::TaskStateView;
use crate::worker::OutcomeView;
use vstd::prelude::*;

verus! {

/// The task has been started at some time, or given up for want of budget.
pub open spec fn begun_state(state: TaskStateView) -> bool {
    !(state is Pending) && !(state is Cancelled)
}

impl SupervisorView {
    /// Something that the task `k` depends on has failed or was cancelled.
    pub open spec fn lost_upstream(self, k: Id) -> bool {
        exists|dep: Id| #[trigger]
            self.tasks[k].depends_on.contains(dep) && (self.states[dep] is Failed || self.states[dep] is Cancelled)
    }

    /// What holds of the task `k` throughout a run: it runs if and only if
    /// its state says so, under the number of its next attempt; it was begun
    /// only after all it depends on had completed; it waits only while
    /// nothing it depends on has failed or was cancelled, and it is cancelled
    /// only where something has; and it is not at an end only while it has
    /// attempts left.
    pub open spec fn keeps_order(self, k: Id) -> bool {
        &&& self.running.contains_key(k) <==> self.states[k] is Running
        &&& self.running.contains_key(k) ==> {
            &&& self.states[k] == (TaskStateView::Running { attempt: self.running[k].attempt })
            &&& self.running[k].attempt == self.attempts(k) + 1
        }
        &&& begun_state(self.states[k]) ==> forall|dep: Id| #[trigger] self.tasks[k].depends_on.contains(dep)
            ==> completed(self.states, dep)
        &&& self.states[k] is Pending ==> forall|dep: Id| #[trigger] self.tasks[k].depends_on.contains(dep) ==> !(
        self.states[dep] is Failed) && !(self.states[dep] is Cancelled)
        &&& self.states[k] is Cancelled ==> self.lost_upstream(k)
        &&& !self.states[k].terminal() ==> self.attempts(k) == 0 || self.attempts(k) < self.tasks[k].max_attempts
    }

    /// What holds of a supervisor throughout a run.
    pub open spec fn orderly(self) -> bool {
        &&& self.wf()
        &&& forall|k: Id| #[trigger] self.tasks.contains_key(k) ==> self.keeps_order(k)
    }

    /// The attempt of `id` has just ended, and its state does not say so yet.
    spec fn unsettled(self, id: Id) -> bool {
        &&& self.wf()
        &&& self.tasks.contains_key(id)
        &&& !self.running.contains_key(id)
        &&& !self.states[id].terminal()
        &&& forall|dep: Id| #[trigger] self.tasks[id].depends_on.contains(dep) ==> completed(self.states, dep)
        &&& forall|k: Id| #[trigger] self.tasks.contains_key(k) && k != id ==> self.keeps_order(k)
    }
}

/// A task depends on tasks, and not on itself.
proof fn lemma_dependency(s: SupervisorView, k: Id, dep: Id)
    requires
        s.wf(),
        s.tasks.contains_key(k),
        s.tasks[k].depends_on.contains(dep),
    ensures
        s.tasks.contains_key(dep),
        dep != k,
        task_edges(s.tasks).contains((dep, k)),
        link_edges(s.links) == task_edges(s.tasks),
{
    assert(!unknown_dependency(s.tasks, k, dep));
    lemma_links_match_edges(s.tasks, s.links);
    assert(task_edges(s.tasks).contains((dep, k)));
    if dep == k {
        lemma_edge_reaches(task_edges(s.tasks), k, k);
    }
}

/// All that a task which has not completed leads to is waiting or cancelled.
proof fn lemma_downstream_waits(s: SupervisorView, id: Id, d: Id)
    requires
        s.unsettled(id),
        blast_radius(s.links, id).contains(d),
    ensures
        s.tasks.contains_key(d),
        d != id,
        s.states[d] is Pending || s.states[d] is Cancelled,
{
    let edges = task_edges(s.tasks);
    lemma_links_match_edges(s.tasks, s.links);
    let set = Set::new(
        |x: Id|
            s.tasks.contains_key(x) && reaches(edges, id, x) && (s.states[x] is Pending || s.states[x] is Cancelled),
    );
    assert forall|x: Id, y: Id| (x == id || set.contains(x)) && #[trigger] edges.contains((x, y)) implies
        set.contains(y) by {
        if x == id {
            lemma_edge_reaches(edges, x, y);
        } else {
            lemma_reaches_then_edge(edges, id, x, y);
        }
        assert(s.tasks[y].depends_on.contains(x));
        assert(y != id);
        assert(s.keeps_order(y));
        assert(!completed(s.states, x));
    }
    lemma_closed_set(edges, id, set, d);
    assert(!reaches(edges, id, id));
}

/// A failure keeps the order.
proof fn lemma_fail_orderly(s: SupervisorView, id: Id, error: Seq<char>)
    requires
        s.unsettled(id),
    ensures
        s.fail(id, error).orderly(),
        forall|k: Id| s.tasks.contains_key(k) && k != id && !(s.states[k] is Pending) ==> #[trigger] s.fail(
            id,
            error,
        ).states[k] == s.states[k],
        forall|k: Id| is_ready(s.tasks, s.states, k) && k != id
            ==> #[trigger] is_ready(s.tasks, s.fail(id, error).states, k),
{
    let t = s.fail(id, error);
    let edges = task_edges(s.tasks);
    lemma_links_match_edges(s.tasks, s.links);
    lemma_fail_wf(s, id, error);
    assert forall|x: Id| completed(s.states, x) implies #[trigger] completed(t.states, x) by {}
    assert forall|k: Id| #[trigger] s.casualties(id).contains(k) implies s.states[k] is Pending by {
        lemma_downstream_waits(s, id, k);
    }
    assert forall|k: Id| #[trigger] t.tasks.contains_key(k) implies t.keeps_order(k) by {
        assert(t.attempts(k) == s.attempts(k));
        if k != id {
            assert(s.keeps_order(k));
            if t.states[k] is Pending {
                assert(s.states[k] is Pending);
                assert forall|dep: Id| #[trigger] s.tasks[k].depends_on.contains(dep) implies !(t.states[dep] is Failed)
                    && !(t.states[dep] is Cancelled) by {
                    lemma_dependency(s, k, dep);
                    if dep == id {
                        lemma_edge_reaches(edges, id, k);
                    } else if s.casualties(id).contains(dep) {
                        lemma_reaches_then_edge(edges, id, dep, k);
                    }
                }
            }
            if s.casualties(id).contains(k) {
                let x = lemma_last_edge(edges, id, k);
                assert(t.tasks[k].depends_on.contains(x));
                if x != id {
                    lemma_downstream_waits(s, id, x);
                    assert(s.casualties(id).contains(x) || s.states[x] is Cancelled);
                }
            } else if t.states[k] is Cancelled {
                let dep = choose|dep: Id| #[trigger]
                    s.tasks[k].depends_on.contains(dep) && (s.states[dep] is Failed || s.states[dep] is Cancelled);
                lemma_dependency(s, k, dep);
                assert(t.tasks[k].depends_on.contains(dep));
            }
        }
    }
    assert forall|k: Id| is_ready(s.tasks, s.states, k) && k != id implies
        #[trigger] is_ready(s.tasks, t.states, k) by {
        if s.casualties(id).contains(k) {
            let x = lemma_last_edge(edges, id, k);
            assert(s.tasks[k].depends_on.contains(x));
            if x != id {
                lemma_downstream_waits(s, id, x);
            }
            assert(!completed(s.states, x));
            let i = choose|i: int| 0 <= i < s.tasks[k].depends_on.len() && s.tasks[k].depends_on[i] == x;
            assert(completed(s.states, s.tasks[k].depends_on[i]));
        }
        assert(t.states[k] == s.states[k]);
        assert forall|i: int| 0 <= i < s.tasks[k].depends_on.len() implies completed(
            t.states,
            #[trigger] s.tasks[k].depends_on[i],
        ) by {
            assert(completed(s.states, s.tasks[k].depends_on[i]));
        }
    }
}

/// Any other end of an attempt keeps the order.
proof fn lemma_settle_orderly(s: SupervisorView, id: Id, t: SupervisorView, state: TaskStateView)
    requires
        s.unsettled(id),
        state is Completed || ((state is Blocked || state is Pending) && (s.attempts(id) == 0 || s.attempts(id)
            < s.tasks[id].max_attempts)),
        t.tasks == s.tasks,
        t.links == s.links,
        t.running == s.running,
        t.attempts_done == s.attempts_done,
        t.states == s.states.insert(id, state),
    ensures
        t.orderly(),
{
    assert(t.states.dom() =~= s.tasks.dom());
    assert forall|k: Id| #[trigger] t.tasks.contains_key(k) implies t.keeps_order(k) by {
        assert(t.attempts(k) == s.attempts(k));
        assert forall|dep: Id| #[trigger] s.tasks[k].depends_on.contains(dep) implies s.tasks.contains_key(dep) && dep
            != k by {
            lemma_dependency(s, k, dep);
        }
        if k != id {
            assert(s.keeps_order(k));
        }
    }
}

/// An attempt that ends leaves its task unsettled.
proof fn lemma_unsettled(s: SupervisorView, id: Id)
    requires
        s.orderly(),
        s.running.contains_key(id),
    ensures
        (SupervisorView { running: s.running.remove(id), ..s }).unsettled(id),
{
    let t = SupervisorView { running: s.running.remove(id), ..s };
    assert(s.tasks.contains_key(id));
    assert(s.keeps_order(id));
    assert forall|k: Id| #[trigger] t.tasks.contains_key(k) && k != id implies t.keeps_order(k) by {
        assert(s.keeps_order(k));
        assert(t.attempts(k) == s.attempts(k));
    }
}

/// Counting an attempt leaves its task unsettled.
proof fn lemma_count_unsettled(s: SupervisorView, id: Id)
    requires
        s.unsettled(id),
    ensures
        s.count_attempt(id).unsettled(id),
{
    let t = s.count_attempt(id);
    assert forall|k: Id| #[trigger] t.tasks.contains_key(k) && k != id implies t.keeps_order(k) by {
        assert(s.keeps_order(k));
        assert(t.attempts(k) == s.attempts(k));
    }
}

/// Order holds at the start.
pub proof fn order_at_the_start(s: SupervisorView)
    requires
        s == SupervisorView::initial(s.tasks, s.links, s.config),
        s.wf(),
    ensures
        s.orderly(),
{
    assert forall|k: Id| #[trigger] s.tasks.contains_key(k) implies s.keeps_order(k) by {
        assert forall|dep: Id| #[trigger] s.tasks[k].depends_on.contains(dep) implies s.states[dep] is Pending by {
            lemma_dependency(s, k, dep);
        }
    }
}

/// The end of a running attempt keeps the order, and no task that has come to
/// an end is touched.
pub proof fn outcome_keeps_order(s: SupervisorView, id: Id, outcome: OutcomeView, now_ns: u64)
    requires
        s.orderly(),
        s.running.contains_key(id),
    ensures
        s.after_event(RunEventView::Outcome { task: id, outcome }, now_ns).orderly(),
        forall|k: Id| s.tasks.contains_key(k) && s.states[k].terminal() ==> #[trigger] s.after_event(
            RunEventView::Outcome { task: id, outcome },
            now_ns,
        ).states[k] == s.states[k],
{
    let u = SupervisorView { running: s.running.remove(id), ..s };
    let t = s.after_event(RunEventView::Outcome { task: id, outcome }, now_ns);
    lemma_unsettled(s, id);
    assert(s.keeps_order(id));
    assert(u.attempts(id) == s.attempts(id));
    match outcome {
        OutcomeView::Success { output, .. } => {
            lemma_settle_orderly(u, id, t, TaskStateView::Completed { output });
        },
        OutcomeView::Blocked { question, .. } => {
            lemma_settle_orderly(u, id, t, TaskStateView::Blocked { question });
        },
        OutcomeView::Fatal { error, .. } => {
            lemma_fail_orderly(u, id, error);
        },
        OutcomeView::Retryable { error, .. } => {
            let counted = u.count_attempt(id);
            let max = u.tasks[id].max_attempts;
            lemma_count_unsettled(u, id);
            if counted.attempts(id) >= max {
                lemma_fail_orderly(counted, id, exhausted_error(error, max));
            } else {
                lemma_settle_orderly(counted, id, t, TaskStateView::Pending);
            }
        },
    }
}

/// Giving up a stalled attempt keeps the order.
pub proof fn lemma_recover_orderly(s: SupervisorView, id: Id, now_ns: u64)
    requires
        s.orderly(),
        s.running.contains_key(id),
    ensures
        s.recover(id, now_ns).orderly(),
        s.recover(id, now_ns).running == s.running.remove(id),
        forall|k: Id| is_ready(s.tasks, s.states, k) ==> #[trigger] is_ready(
            s.tasks,
            s.recover(id, now_ns).states,
            k,
        ),
        s.attempts(id) + 1 < s.tasks[id].max_attempts ==> is_ready(s.tasks, s.recover(id, now_ns).states, id),
        forall|k: Id| s.tasks.contains_key(k) && s.states[k].terminal() ==> #[trigger] s.recover(id, now_ns).states[k]
            == s.states[k],
{
    let u = SupervisorView { running: s.running.remove(id), ..s };
    lemma_unsettled(s, id);
    assert(s.keeps_order(id));
    let told = u.emit(EventView::WorkerStallConfirmed { task: id });
    assert(told.unsettled(id)) by {
        assert forall|k: Id| #[trigger] told.tasks.contains_key(k) && k != id implies told.keeps_order(k) by {
            assert(u.keeps_order(k));
            assert(told.attempts(k) == u.attempts(k));
        }
    }
    lemma_count_unsettled(told, id);
    let counted = told.count_attempt(id);
    let max = s.tasks[id].max_attempts;
    let t = s.recover(id, now_ns);
    if counted.attempts(id) >= max {
        lemma_fail_orderly(counted, id, stalled_error(s.running[id].attempt, max));
    } else {
        lemma_settle_orderly(counted, id, t, TaskStateView::Pending);
        assert(is_ready(s.tasks, t.states, id)) by {
            assert(s.tasks[id].depends_on =~= t.tasks[id].depends_on);
            assert forall|i: int| 0 <= i < s.tasks[id].depends_on.len() implies completed(
                t.states,
                #[trigger] s.tasks[id].depends_on[i],
            ) by {
                assert(s.tasks[id].depends_on.contains(s.tasks[id].depends_on[i]));
            }
        }
        assert forall|k: Id| is_ready(s.tasks, s.states, k) implies #[trigger] is_ready(s.tasks, t.states, k) by {
            assert forall|i: int| 0 <= i < s.tasks[k].depends_on.len() implies completed(
                t.states,
                #[trigger] s.tasks[k].depends_on[i],
            ) by {
                assert(completed(s.states, s.tasks[k].depends_on[i]));
            }
        }
    }
}

/// A set of tasks can be listed in order.
pub proof fn lemma_listed(all: Set<Id>, set: Set<Id>)
    requires
        all.finite(),
        set.subset_of(all),
    ensures
        lists_in_order(sorted_ids(set), set),
        sorted_ids(set).no_duplicates(),
{
    vstd::set_lib::lemma_set_subset_finite(all, set);
    lemma_finite_set_is_listed(set);
    lemma_sorted_no_duplicates(sorted_ids(set));
}

/// The stalled attempts can be listed in order, and all of them run, as tasks
/// of the supervisor, before the check and after the suspicions are settled.
pub proof fn lemma_stalled_listed(s: SupervisorView, ages: Map<Id, u64>, now_ns: u64)
    requires
        s.wf(),
    ensures
        lists_in_order(sorted_ids(s.stalled(ages, now_ns)), s.stalled(ages, now_ns)),
        sorted_ids(s.stalled(ages, now_ns)).no_duplicates(),
        s.observe(ages, now_ns).running.dom() == s.running.dom(),
        s.observe(ages, now_ns).wf(),
        forall|i: int| 0 <= i < sorted_ids(s.stalled(ages, now_ns)).len() ==> s.running.contains_key(
            #[trigger] sorted_ids(s.stalled(ages, now_ns))[i],
        ) && s.tasks.contains_key(sorted_ids(s.stalled(ages, now_ns))[i]),
{
    let seen = s.observe(ages, now_ns);
    let stalled = s.stalled(ages, now_ns);
    let ids = sorted_ids(stalled);
    assert(seen.running.dom() =~= s.running.dom());
    lemma_listed(s.tasks.dom(), stalled);
    assert forall|i: int| 0 <= i < ids.len() implies s.running.contains_key(#[trigger] ids[i])
        && s.tasks.contains_key(ids[i]) by {
        assert(ids.contains(ids[i]));
        assert(stalled.contains(ids[i]));
        assert(s.running.dom().contains(ids[i]));
    }
}

/// Giving up stalled attempts keeps the order.
pub proof fn lemma_recover_all_orderly(s: SupervisorView, ids: Seq<Id>, now_ns: u64)
    requires
        s.orderly(),
        ids.no_duplicates(),
        forall|i: int| 0 <= i < ids.len() ==> s.running.contains_key(#[trigger] ids[i]),
    ensures
        s.recover_all(ids, now_ns).orderly(),
        s.recover_all(ids, now_ns).tasks == s.tasks,
        forall|k: Id| s.tasks.contains_key(k) && s.states[k].terminal()
            ==> #[trigger] s.recover_all(ids, now_ns).states[k]
            == s.states[k],
    decreases ids.len(),
{
    if ids.len() > 0 {
        let front = ids.drop_last();
        let last = ids.last();
        assert forall|i: int| 0 <= i < front.len() implies
            s.running.contains_key(#[trigger] front[i]) && s.tasks.contains_key(front[i]) by {
            assert(ids[i] == front[i]);
        }
        lemma_recover_all_orderly(s, front, now_ns);
        lemma_recover_all(s, front, now_ns);
        let t = s.recover_all(front, now_ns);
        assert(ids[ids.len() - 1] == last);
        assert(!front.contains(last));
        assert(t.running.contains_key(last));
        lemma_recover_orderly(t, last, now_ns);
    }
}

/// `t` differs from `s` at most in what is announced.
pub open spec fn differ_in_announcements(s: SupervisorView, t: SupervisorView) -> bool {
    t == SupervisorView { events: t.events, wake: t.wake, ..s }
}

/// What is announced has no part in the order.
pub proof fn lemma_announcements_keep_order(s: SupervisorView, t: SupervisorView)
    requires
        s.orderly(),
        differ_in_announcements(s, t),
    ensures
        t.orderly(),
{
    assert forall|k: Id| #[trigger] t.tasks.contains_key(k) implies t.keeps_order(k) by {
        assert(s.keeps_order(k));
        assert(t.attempts(k) == s.attempts(k));
    }
}

/// Settling suspicions keeps the order.
pub proof fn lemma_observe_orderly(s: SupervisorView, ages: Map<Id, u64>, now_ns: u64)
    requires
        s.orderly(),
    ensures
        s.observe(ages, now_ns).orderly(),
{
    let seen = s.observe(ages, now_ns);
    assert(seen.running.dom() =~= s.running.dom());
    assert forall|k: Id| #[trigger] seen.tasks.contains_key(k) implies seen.keeps_order(k) by {
        assert(s.keeps_order(k));
        assert(seen.attempts(k) == s.attempts(k));
    }
}

/// A liveness check keeps the order, and no task that has come to an end is
/// touched.
pub proof fn check_keeps_order(s: SupervisorView, ages: Map<Id, u64>, now_ns: u64)
    requires
        s.orderly(),
    ensures
        s.after_check(ages, now_ns).orderly(),
        forall|k: Id| s.tasks.contains_key(k) && s.states[k].terminal()
            ==> #[trigger] s.after_check(ages, now_ns).states[k]
            == s.states[k],
{
    let ids = sorted_ids(s.stalled(ages, now_ns));
    lemma_observe_orderly(s, ages, now_ns);
    lemma_stalled_listed(s, ages, now_ns);
    let seen = s.observe(ages, now_ns);
    assert forall|i: int| 0 <= i < ids.len() implies seen.running.contains_key(#[trigger] ids[i]) by {
        assert(s.running.dom().contains(ids[i]));
    }
    lemma_recover_all_orderly(seen, ids, now_ns);
}

/// Answering a blocked task keeps the order, and no task that has come to an
/// end is touched.
pub proof fn answer_keeps_order(s: SupervisorView, id: Id, answer: Seq<char>)
    requires
        s.orderly(),
    ensures
        s.resolve(id, answer).orderly(),
        forall|k: Id| s.tasks.contains_key(k) && s.states[k].terminal() ==> #[trigger] s.resolve(id, answer).states[k]
            == s.states[k],
{
    if s.states.contains_key(id) && s.states[id] is Blocked {
        assert(s.tasks.contains_key(id));
        assert(s.keeps_order(id));
        assert(s.unsettled(id));
        lemma_settle_orderly(s, id, s.resolve(id, answer), TaskStateView::Pending);
    }
}

/// What a task that may start looks like.
proof fn lemma_ready(s: SupervisorView, id: Id)
    requires
        s.orderly(),
        is_ready(s.tasks, s.states, id),
    ensures
        s.unsettled(id),
        s.attempts(id) < u32::MAX,
{
    assert(s.keeps_order(id));
    assert forall|dep: Id| #[trigger] s.tasks[id].depends_on.contains(dep) implies completed(s.states, dep) by {
        let i = choose|i: int| 0 <= i < s.tasks[id].depends_on.len() && s.tasks[id].depends_on[i] == dep;
        assert(completed(s.states, s.tasks[id].depends_on[i]));
    }
}

/// Considering a task that may start keeps the order, only tasks that wait are
/// touched, and all others that may start still may.
pub proof fn lemma_consider_orderly(d: Dispatch, id: Id, now_ns: u64)
    requires
        d.supervisor.orderly(),
        is_ready(d.supervisor.tasks, d.supervisor.states, id),
    ensures
        d.consider(id, now_ns).supervisor.orderly(),
        forall|k: Id| d.supervisor.tasks.contains_key(k) && !(d.supervisor.states[k] is Pending)
            ==> #[trigger] d.consider(
            id,
            now_ns,
        ).supervisor.states[k] == d.supervisor.states[k],
        forall|k: Id| is_ready(d.supervisor.tasks, d.supervisor.states, k) && k != id ==> #[trigger] is_ready(
            d.supervisor.tasks,
            d.consider(id, now_ns).supervisor.states,
            k,
        ),
{
    let s = d.supervisor;
    let r = d.consider(id, now_ns).supervisor;
    lemma_ready(s, id);
    lemma_consider(d, id, now_ns);
    if s.in_backoff(id, now_ns) {
    } else if s.tasks[id].token_budget > d.governor.available() {
        let requested = s.tasks[id].token_budget;
        let available = d.governor.available() as u64;
        let told = s.emit(EventView::BudgetRejected { task: id, requested, available });
        assert forall|k: Id| #[trigger] told.tasks.contains_key(k) implies told.keeps_order(k) by {
            assert(s.keeps_order(k));
            assert(told.attempts(k) == s.attempts(k));
        }
        if told.running.len() == 0 {
            lemma_fail_orderly(told, id, budget_error(requested, available));
        }
    } else {
        assert forall|k: Id| #[trigger] r.tasks.contains_key(k) implies r.keeps_order(k) by {
            assert(r.attempts(k) == s.attempts(k));
            assert(s.keeps_order(k));
            assert forall|dep: Id| #[trigger] s.tasks[k].depends_on.contains(dep) implies s.tasks.contains_key(dep)
                && dep != k by {
                lemma_dependency(s, k, dep);
            }
        }
        assert forall|k: Id| is_ready(s.tasks, s.states, k) && k != id implies #[trigger] is_ready(
            s.tasks,
            r.states,
            k,
        ) by {
            assert forall|i: int| 0 <= i < s.tasks[k].depends_on.len() implies completed(
                r.states,
                #[trigger] s.tasks[k].depends_on[i],
            ) by {
                assert(completed(s.states, s.tasks[k].depends_on[i]));
            }
        }
    }
}

/// Considering tasks that may start keeps the order.
pub proof fn lemma_consider_all_orderly(d: Dispatch, ids: Seq<Id>, now_ns: u64)
    requires
        d.supervisor.orderly(),
        ids.no_duplicates(),
        forall|i: int| 0 <= i < ids.len() ==> is_ready(d.supervisor.tasks, d.supervisor.states, #[trigger] ids[i]),
    ensures
        d.consider_all(ids, now_ns).supervisor.orderly(),
        d.consider_all(ids, now_ns).supervisor.tasks == d.supervisor.tasks,
        d.consider_all(ids, now_ns).supervisor.config == d.supervisor.config,
        d.consider_all(ids, now_ns).supervisor.attempts_done == d.supervisor.attempts_done,
        d.consider_all(ids, now_ns).supervisor.next_retry_at == d.supervisor.next_retry_at,
        forall|k: Id| d.supervisor.tasks.contains_key(k) && !(d.supervisor.states[k] is Pending)
            ==> #[trigger] d.consider_all(
            ids,
            now_ns,
        ).supervisor.states[k] == d.supervisor.states[k],
        forall|k: Id| is_ready(d.supervisor.tasks, d.supervisor.states, k) && !ids.contains(k) ==> #[trigger] is_ready(
            d.supervisor.tasks,
            d.consider_all(ids, now_ns).supervisor.states,
            k,
        ),
    decreases ids.len(),
{
    if ids.len() > 0 {
        let front = ids.drop_last();
        let last = ids.last();
        assert forall|i: int| 0 <= i < front.len() implies is_ready(
            d.supervisor.tasks,
            d.supervisor.states,
            #[trigger] front[i],
        ) by {
            assert(ids[i] == front[i]);
        }
        lemma_consider_all_orderly(d, front, now_ns);
        let t = d.consider_all(front, now_ns);
        assert(ids[ids.len() - 1] == last);
        assert(!front.contains(last));
        assert(is_ready(d.supervisor.tasks, t.supervisor.states, last));
        lemma_consider(t, last, now_ns);
        lemma_consider_orderly(t, last, now_ns);
        assert forall|k: Id| #[trigger] front.contains(k) implies ids.contains(k) by {
            let i = choose|i: int| 0 <= i < front.len() && front[i] == k;
            assert(ids[i] == k);
        }
    }
}

/// The tasks that may start can be listed in order.
pub proof fn lemma_ready_listed(s: SupervisorView)
    requires
        s.wf(),
    ensures
        lists_in_order(sorted_ids(ready_set(s.tasks, s.states)), ready_set(s.tasks, s.states)),
        sorted_ids(ready_set(s.tasks, s.states)).no_duplicates(),
        forall|i: int| 0 <= i < sorted_ids(ready_set(s.tasks, s.states)).len() ==> is_ready(
            s.tasks,
            s.states,
            #[trigger] sorted_ids(ready_set(s.tasks, s.states))[i],
        ),
{
    let ready = ready_set(s.tasks, s.states);
    lemma_listed(s.tasks.dom(), ready);
    let ids = sorted_ids(ready);
    assert forall|i: int| 0 <= i < ids.len() implies is_ready(s.tasks, s.states, #[trigger] ids[i]) by {
        assert(ids.contains(ids[i]));
        assert(ready.contains(ids[i]));
    }
}

/// A dispatch keeps the order, and only tasks that wait are touched.
pub proof fn dispatch_keeps_order(s: SupervisorView, governor: GovernorView, now_ns: u64)
    requires
        s.orderly(),
    ensures
        dispatched(s, governor, now_ns).supervisor.orderly(),
        dispatched(s, governor, now_ns).supervisor.tasks == s.tasks,
        dispatched(s, governor, now_ns).supervisor.config == s.config,
        forall|k: Id| s.tasks.contains_key(k) && !(s.states[k] is Pending) ==> #[trigger] dispatched(
            s,
            governor,
            now_ns,
        ).supervisor.states[k] == s.states[k],
{
    lemma_ready_listed(s);
    lemma_consider_all_orderly(
        Dispatch { supervisor: s, governor, launches: Seq::empty() },
        sorted_ids(ready_set(s.tasks, s.states)),
        now_ns,
    );
}

/// While order holds, no attempt counter overflows: a dispatch can be made, a
/// liveness check that has the ages of all running attempts can be made, and
/// the end of a running attempt can be taken in where its backoff fits.
pub proof fn order_admits_every_step(s: SupervisorView, now_ns: u64)
    requires
        s.orderly(),
    ensures
        s.can_advance(),
        forall|ages: Map<Id, u64>|
            s.running.dom().subset_of(ages.dom()) ==> #[trigger] s.accepts(RunEventView::Tick { ages }, now_ns),
        forall|id: Id, outcome: OutcomeView|
            s.running.contains_key(id) && s.backoff_fits(id) ==> #[trigger] s.accepts(
                RunEventView::Outcome { task: id, outcome },
                now_ns,
            ),
{
    assert forall|id: Id| #[trigger] ready_set(s.tasks, s.states).contains(id) implies s.attempts(id) < u32::MAX by {
        lemma_ready(s, id);
    }
    assert forall|id: Id| #[trigger] s.running.contains_key(id) implies s.tasks.contains_key(id) && s.attempts(id)
        < u32::MAX by {
        assert(s.tasks.contains_key(id));
        assert(s.keeps_order(id));
    }
    assert forall|ages: Map<Id, u64>| s.running.dom().subset_of(ages.dom()) implies #[trigger] s.accepts(
        RunEventView::Tick { ages },
        now_ns,
    ) by {
        assert forall|id: Id| #[trigger] s.running.contains_key(id) implies ages.contains_key(id) by {
            assert(s.running.dom().contains(id));
        }
    }
}

/// A failure cancels every task that waits for the failed one, directly or
/// through others; none of them is running, and no other task is touched.
pub proof fn failure_cancels_the_blast_radius(s: SupervisorView, id: Id, error: Seq<char>, d: Id)
    requires
        s.orderly(),
        s.tasks.contains_key(id),
        s.states[id] is Running || is_ready(s.tasks, s.states, id),
        s.tasks.contains_key(d),
        d != id,
    ensures
        reaches(task_edges(s.tasks), id, d) ==> !s.running.contains_key(d) && s.fail(id, error).states[d] is Cancelled,
        !reaches(task_edges(s.tasks), id, d) ==> s.fail(id, error).states[d] == s.states[d],
{
    lemma_links_match_edges(s.tasks, s.links);
    assert(s.keeps_order(d));
    assert(s.keeps_order(id));
    if reaches(task_edges(s.tasks), id, d) {
        let u = SupervisorView { running: s.running.remove(id), ..s };
        if s.states[id] is Running {
            lemma_unsettled(s, id);
        } else {
            lemma_ready(s, id);
            assert(u.running =~= s.running);
        }
        lemma_downstream_waits(u, id, d);
    }
}

/// A task is cancelled if and only if a task has failed that it depends on,
/// directly or through others.
pub proof fn cancelled_iff_a_failure_reaches_it(s: SupervisorView, k: Id)
    requires
        s.orderly(),
        s.tasks.contains_key(k),
    ensures
        s.states[k] is Cancelled <==> failure_reaches(s, k),
{
    let edges = task_edges(s.tasks);
    if failure_reaches(s, k) {
        let f = choose|f: Id|
            s.tasks.contains_key(f) && s.states[f] is Failed && #[trigger] reaches(task_edges(s.tasks), f, k);
        let set = Set::new(|x: Id| s.tasks.contains_key(x) && s.states[x] is Cancelled);
        assert forall|x: Id, y: Id| (x == f || set.contains(x)) && #[trigger] edges.contains((x, y)) implies
            set.contains(y) by {
            assert(s.tasks[y].depends_on.contains(x));
            assert(s.keeps_order(y));
            assert(!completed(s.states, x));
        }
        lemma_closed_set(edges, f, set, k);
    }
    if s.states[k] is Cancelled && !failure_reaches(s, k) {
        let set = Set::new(
            |x: Id| s.tasks.contains_key(x) && s.states[x] is Cancelled && !failure_reaches(s, x),
        );
        vstd::set_lib::lemma_set_subset_finite(s.tasks.dom(), set);
        assert forall|b: Id| #[trigger] set.contains(b) implies exists|a: Id|
            set.contains(a) && edges.contains((a, b)) by {
            assert(s.keeps_order(b));
            let a = choose|a: Id| #[trigger]
                s.tasks[b].depends_on.contains(a) && (s.states[a] is Failed || s.states[a] is Cancelled);
            lemma_dependency(s, b, a);
            if s.states[a] is Failed {
                lemma_edge_reaches(edges, a, b);
            } else if failure_reaches(s, a) {
                let f = choose|f: Id|
                    s.tasks.contains_key(f) && s.states[f] is Failed && #[trigger] reaches(
                        task_edges(s.tasks),
                        f,
                        a,
                    );
                lemma_reaches_then_edge(edges, f, a, b);
            }
            assert(set.contains(a) && edges.contains((a, b)));
        }
        let c = lemma_cycle_exists(edges, set, k);
    }
}

/// A task has failed that `k` depends on, directly or through others.
pub open spec fn failure_reaches(s: SupervisorView, k: Id) -> bool {
    exists|f: Id|
        s.tasks.contains_key(f) && s.states[f] is Failed && #[trigger] reaches(task_edges(s.tasks), f, k)
}

/// Nothing waits in vain: while some task has not come to an end and none is
/// running or blocked, some task may start.
pub proof fn some_task_may_start(s: SupervisorView)
    requires
        s.orderly(),
        !s.all_terminal(),
        forall|k: Id| #[trigger] s.states.contains_key(k) ==> !(s.states[k] is Running) && !(s.states[k] is Blocked),
    ensures
        exists|k: Id| ready_set(s.tasks, s.states).contains(k),
{
    let edges = task_edges(s.tasks);
    let waiting = Set::new(|k: Id| s.tasks.contains_key(k) && s.states[k] is Pending);
    vstd::set_lib::lemma_set_subset_finite(s.tasks.dom(), waiting);
    let y = choose|y: Id| #[trigger] s.states.contains_key(y) && !s.states[y].terminal();
    assert(s.tasks.contains_key(y));
    assert(waiting.contains(y));
    if forall|k: Id| !ready_set(s.tasks, s.states).contains(k) {
        assert forall|b: Id| #[trigger] waiting.contains(b) implies exists|a: Id|
            waiting.contains(a) && edges.contains((a, b)) by {
            assert(!ready_set(s.tasks, s.states).contains(b));
            let i = choose|i: int|
                0 <= i < s.tasks[b].depends_on.len() && !completed(s.states, #[trigger] s.tasks[b].depends_on[i]);
            let a = s.tasks[b].depends_on[i];
            assert(s.tasks[b].depends_on.contains(a));
            lemma_dependency(s, b, a);
            assert(s.keeps_order(b));
            assert(s.states.contains_key(a));
            assert(waiting.contains(a));
        }
        let c = lemma_cycle_exists(edges, waiting, y);
        assert(false);
    }
}

/// No deadlock: with nothing running and a slot to give, a dispatch starts or
/// fails a task as soon as one that may start is out of its backoff window.
pub proof fn dispatch_makes_progress(s: SupervisorView, governor: GovernorView, now_ns: u64, k: Id)
    requires
        s.orderly(),
        s.running.dom() == Set::<Id>::empty(),
        s.config.max_concurrent > 0,
        is_ready(s.tasks, s.states, k),
        !s.in_backoff(k, now_ns),
    ensures
        ({
            let d = dispatched(s, governor, now_ns);
            d.launches.len() > 0 || exists|j: Id|
                ready_set(s.tasks, s.states).contains(j) && #[trigger] d.supervisor.states[j] is Failed
        }),
{
    let ids = sorted_ids(ready_set(s.tasks, s.states));
    lemma_ready_listed(s);
    assert(ready_set(s.tasks, s.states).contains(k));
    assert(ids.contains(k));
    lemma_progress(Dispatch { supervisor: s, governor, launches: Seq::empty() }, ids, now_ns, k);
}

/// Either all that was considered is in its backoff window and nothing has
/// changed, or something was started or failed.
proof fn lemma_progress(d: Dispatch, ids: Seq<Id>, now_ns: u64, k: Id)
    requires
        d.supervisor.orderly(),
        d.supervisor.running.dom() == Set::<Id>::empty(),
        d.supervisor.config.max_concurrent > 0,
        d.launches.len() == 0,
        ids.no_duplicates(),
        forall|i: int| 0 <= i < ids.len() ==> is_ready(d.supervisor.tasks, d.supervisor.states, #[trigger] ids[i]),
        !d.supervisor.in_backoff(k, now_ns),
    ensures
        ({
            let r = d.consider_all(ids, now_ns);
            ||| r.launches.len() > 0
            ||| exists|j: Id|
                ready_set(d.supervisor.tasks, d.supervisor.states).contains(j)
                    && #[trigger] r.supervisor.states[j] is Failed
            ||| r == d && !ids.contains(k)
        }),
    decreases ids.len(),
{
    if ids.len() > 0 {
        let front = ids.drop_last();
        let last = ids.last();
        let ready = ready_set(d.supervisor.tasks, d.supervisor.states);
        assert forall|i: int| 0 <= i < front.len() implies is_ready(
            d.supervisor.tasks,
            d.supervisor.states,
            #[trigger] front[i],
        ) by {
            assert(ids[i] == front[i]);
        }
        assert(ids[ids.len() - 1] == last);
        assert(!front.contains(last));
        assert(ready.contains(last));
        lemma_progress(d, front, now_ns, k);
        lemma_consider_all_orderly(d, front, now_ns);
        let t = d.consider_all(front, now_ns);
        let r = d.consider_all(ids, now_ns);
        assert(is_ready(d.supervisor.tasks, t.supervisor.states, last));
        lemma_consider_orderly(t, last, now_ns);
        if t.launches.len() > 0 {
        } else if t != d || front.contains(k) {
            let j = choose|j: Id| ready.contains(j) && #[trigger] t.supervisor.states[j] is Failed;
            assert(r.supervisor.states[j] is Failed);
        } else {
            assert(!d.full());
            if d.supervisor.in_backoff(last, now_ns) {
                if ids.contains(k) {
                    let i = choose|i: int| 0 <= i < ids.len() && ids[i] == k;
                    assert(i < front.len() ==> front[i] == k);
                }
            } else if d.supervisor.tasks[last].token_budget > d.governor.available() {
                assert(r.supervisor.states[last] is Failed);
            } else {
                assert(r.launches.len() > 0);
            }
        }
    }
}

} // verus!
