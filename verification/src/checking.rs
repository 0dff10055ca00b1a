//! Laws of the liveness check as a whole: what becomes of the tasks that it
//! gives up, and of all others.

use crate::dag::task_edges;
use crate::effects::{lemma_fails, on_record};
use crate::graph::reaches;
use crate::model::{lemma_recover_all, EventView, SupervisorView};
use crate::order::{sorted_ids, Id};
use crate::orderly::{
    lemma_observe_orderly, lemma_recover_all_orderly, lemma_recover_orderly, lemma_stalled_listed,
};
use crate::task::TaskStateView;
use crate::text::decimal;
use vstd::prelude::*;

verus! {

proof fn lemma_lost(s: SupervisorView, ids: Seq<Id>, now_ns: u64, id: Id)
    requires
        s.orderly(),
        ids.no_duplicates(),
        forall|i: int| 0 <= i < ids.len() ==> s.running.contains_key(#[trigger] ids[i]) && s.tasks.contains_key(ids[i]),
        ids.contains(id),
        on_record(s.attempts_done, id) < u32::MAX,
        on_record(s.attempts_done, id) + 1 >= s.tasks[id].max_attempts,
    ensures
        s.recover_all(ids, now_ns).states[id] == (TaskStateView::Failed {
            error: "worker stalled (no heartbeat) on attempt "@ + decimal(s.running[id].attempt as nat) + "/"@
                + decimal(s.tasks[id].max_attempts as nat),
        }),
    decreases ids.len(),
{
    let front = ids.drop_last();
    let last = ids.last();
    assert forall|i: int| 0 <= i < front.len() implies s.running.contains_key(#[trigger] front[i])
        && s.tasks.contains_key(front[i]) by {
        assert(ids[i] == front[i]);
    }
    assert(ids[ids.len() - 1] == last);
    assert(!front.contains(last));
    lemma_recover_all(s, front, now_ns);
    lemma_recover_all_orderly(s, front, now_ns);
    let m = s.recover_all(front, now_ns);
    assert(m.running.contains_key(last));
    lemma_recover_orderly(m, last, now_ns);
    if last == id {
        assert(m.attempts(id) == s.attempts(id));
        assert(m.running[id] == s.running[id]);
    } else {
        let i = choose|i: int| 0 <= i < ids.len() && ids[i] == id;
        assert(front[i] == id);
        lemma_lost(s, front, now_ns, id);
    }
}

/// A check fails every task whose last attempt it gives up, whatever else it
/// gives up, and says which attempt it was of how many.
pub proof fn stall_of_the_last_attempt_fails_the_task(s: SupervisorView, ages: Map<Id, u64>, now_ns: u64, id: Id)
    requires
        s.orderly(),
        s.stalled(ages, now_ns).contains(id),
        on_record(s.attempts_done, id) < u32::MAX,
        on_record(s.attempts_done, id) + 1 >= s.tasks[id].max_attempts,
    ensures
        s.after_check(ages, now_ns).states[id] == (TaskStateView::Failed {
            error: "worker stalled (no heartbeat) on attempt "@ + decimal(s.running[id].attempt as nat) + "/"@
                + decimal(s.tasks[id].max_attempts as nat),
        }),
{
    let seen = s.observe(ages, now_ns);
    let ids = sorted_ids(s.stalled(ages, now_ns));
    lemma_stalled_listed(s, ages, now_ns);
    lemma_observe_orderly(s, ages, now_ns);
    assert(ids.contains(id));
    assert forall|i: int| 0 <= i < ids.len() implies seen.running.contains_key(#[trigger] ids[i])
        && seen.tasks.contains_key(ids[i]) by {
        assert(s.running.dom().contains(ids[i]));
    }
    lemma_lost(seen, ids, now_ns, id);
}

proof fn lemma_left_alone(s: SupervisorView, ids: Seq<Id>, now_ns: u64, k: Id)
    requires
        s.wf(),
        forall|i: int| 0 <= i < ids.len() ==> s.tasks.contains_key(#[trigger] ids[i]),
        forall|i: int| 0 <= i < ids.len() ==> ids[i] != k && !reaches(task_edges(s.tasks), #[trigger] ids[i], k),
        s.tasks.contains_key(k),
    ensures
        ({
            let t = s.recover_all(ids, now_ns);
            &&& t.states[k] == s.states[k]
            &&& t.attempts_done.contains_key(k) == s.attempts_done.contains_key(k)
            &&& t.attempts_done[k] == s.attempts_done[k]
            &&& t.next_retry_at.contains_key(k) == s.next_retry_at.contains_key(k)
            &&& t.next_retry_at[k] == s.next_retry_at[k]
        }),
    decreases ids.len(),
{
    if ids.len() > 0 {
        let front = ids.drop_last();
        let last = ids.last();
        assert forall|i: int| 0 <= i < front.len() implies s.tasks.contains_key(#[trigger] front[i]) && front[i] != k
            && !reaches(task_edges(s.tasks), front[i], k) by {
            assert(ids[i] == front[i]);
        }
        assert(ids[ids.len() - 1] == last);
        assert(!reaches(task_edges(s.tasks), ids[ids.len() - 1], k));
        lemma_left_alone(s, front, now_ns, k);
        lemma_recover_all(s, front, now_ns);
        let m = s.recover_all(front, now_ns);
        let counted = SupervisorView { running: m.running.remove(last), ..m }.emit(
            EventView::WorkerStallConfirmed { task: last },
        ).count_attempt(last);
        assert(counted.wf());
        let error = "worker stalled (no heartbeat) on attempt "@ + decimal(m.running[last].attempt as nat) + "/"@
            + decimal(m.tasks[last].max_attempts as nat);
        lemma_fails(counted, last, error);
        assert(m.states.dom().contains(k));
    }
}

/// A check leaves a task as it is, its state, its counter, its backoff and its
/// answer, unless it gives up the attempt of that task or of one that it
/// depends on, directly or through others.
pub proof fn check_leaves_all_others_alone(s: SupervisorView, ages: Map<Id, u64>, now_ns: u64, k: Id)
    requires
        s.wf(),
        s.tasks.contains_key(k),
        !s.stalled(ages, now_ns).contains(k),
        forall|f: Id| #[trigger] s.stalled(ages, now_ns).contains(f) ==> !reaches(task_edges(s.tasks), f, k),
    ensures
        ({
            let t = s.after_check(ages, now_ns);
            &&& t.states[k] == s.states[k]
            &&& on_record(t.attempts_done, k) == on_record(s.attempts_done, k)
            &&& t.next_retry_at.contains_key(k) == s.next_retry_at.contains_key(k)
            &&& t.next_retry_at[k] == s.next_retry_at[k]
            &&& t.answers == s.answers
        }),
{
    let seen = s.observe(ages, now_ns);
    let ids = sorted_ids(s.stalled(ages, now_ns));
    lemma_stalled_listed(s, ages, now_ns);
    assert forall|i: int| 0 <= i < ids.len() implies seen.tasks.contains_key(#[trigger] ids[i]) && ids[i] != k
        && !reaches(task_edges(seen.tasks), ids[i], k) by {
        assert(ids.contains(ids[i]));
        assert(s.stalled(ages, now_ns).contains(ids[i]));
        assert(s.running.dom().contains(ids[i]));
    }
    assert(seen.running.dom() =~= s.running.dom());
    lemma_left_alone(seen, ids, now_ns, k);
    lemma_recover_all(seen, ids, now_ns);
}

} // verus!
