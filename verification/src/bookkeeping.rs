//! Laws that tie the books to the run: while order holds, exactly the running
//! attempts hold a reservation, each its own.

use crate::budget::{first_reservation, of_others, GovernorView};
use crate::laws::lemma_first_reservation;
use crate::model::{dispatched, lemma_recover_all, release_all, RunEventView, SupervisorView};
use crate::order::{id_lt, lemma_id_lt_irreflexive, sorted_ids, Id};
use crate::orderly::lemma_stalled_listed;
use crate::scheduling::{
    claims, dispatch_reserves_whole_budgets, dispatch_runs_what_it_starts,
    dispatch_starts_only_what_may_start, started,
};
use crate::worker::OutcomeView;
use crate::dag::is_ready;
use vstd::prelude::*;

verus! {

/// Some reservation is for `k`.
pub open spec fn booked(reservations: Seq<(Id, u64)>, k: Id) -> bool {
    exists|i: int| 0 <= i < reservations.len() && (#[trigger] reservations[i]).0 == k
}

/// No two reservations are for the same task.
pub open spec fn booked_once(reservations: Seq<(Id, u64)>) -> bool {
    forall|i: int, j: int| 0 <= i < j < reservations.len()
        ==> (#[trigger] reservations[i]).0 != (#[trigger] reservations[j]).0
}

/// Exactly the running attempts hold a reservation, each one.
pub open spec fn books_match(s: SupervisorView, g: GovernorView) -> bool {
    &&& booked_once(g.reservations)
    &&& forall|k: Id| #[trigger] booked(g.reservations, k) <==> s.running.contains_key(k)
}

/// A release takes out the reservations of its task and no others.
proof fn lemma_release(reservations: Seq<(Id, u64)>, task: Id)
    requires
        booked_once(reservations),
    ensures
        booked_once(reservations.filter(of_others(task))),
        forall|k: Id| #[trigger] booked(reservations.filter(of_others(task)), k)
            <==> booked(reservations, k) && k != task,
    decreases reservations.len(),
{
    reveal(Seq::filter);
    if reservations.len() > 0 {
        let front = reservations.drop_last();
        let last = reservations.last();
        let kept = front.filter(of_others(task));
        assert(booked_once(front));
        lemma_release(front, task);
        lemma_booked_push(front, last);
        lemma_booked_push(kept, last);
        assert(front.push(last) =~= reservations);
        if booked(front, last.0) {
            let i = choose|i: int| 0 <= i < front.len() && (#[trigger] front[i]).0 == last.0;
            assert(reservations[i].0 == reservations[front.len() as int].0);
        }
        if last.0 != task {
            let more = kept.push(last);
            assert forall|i: int, j: int| 0 <= i < j < more.len() implies
                (#[trigger] more[i]).0 != (#[trigger] more[j]).0 by {
                assert(more[i] == kept[i]);
                if j == kept.len() {
                    assert(booked(kept, kept[i].0));
                } else {
                    assert(more[j] == kept[j]);
                }
            }
        }
    }
}

proof fn lemma_booked_push(reservations: Seq<(Id, u64)>, r: (Id, u64))
    ensures
        forall|k: Id| #[trigger] booked(reservations.push(r), k) <==> booked(reservations, k) || k == r.0,
{
    let more = reservations.push(r);
    assert forall|k: Id| #[trigger] booked(more, k) <==> booked(reservations, k) || k == r.0 by {
        if booked(reservations, k) {
            let i = choose|i: int| 0 <= i < reservations.len() && (#[trigger] reservations[i]).0 == k;
            assert(more[i].0 == k);
        }
        if k == r.0 {
            assert(more[reservations.len() as int].0 == k);
        }
        if booked(more, k) {
            let i = choose|i: int| 0 <= i < more.len() && (#[trigger] more[i]).0 == k;
            if i < reservations.len() {
                assert(reservations[i].0 == k);
            }
        }
    }
}

/// A settlement takes out the reservation of its task and no other.
proof fn lemma_settle(g: GovernorView, task: Id, actual: u64)
    requires
        booked_once(g.reservations),
    ensures
        booked_once(g.settle(task, actual).reservations),
        forall|k: Id| #[trigger] booked(g.settle(task, actual).reservations, k)
            <==> booked(g.reservations, k) && k != task,
{
    let all = g.reservations;
    let at = first_reservation(all, task);
    let left = g.settle(task, actual).reservations;
    let n = all.len() - 1;
    lemma_first_reservation(all, task);
    assert forall|k: Id| #[trigger] booked(left, k) <==> booked(all, k) && k != task by {
        if booked(left, k) {
            let i = choose|i: int| 0 <= i < left.len() && (#[trigger] left[i]).0 == k;
            if at < all.len() {
                let j = if i == at { n } else { i };
                assert(all[j].0 == k);
                assert(j != at);
                assert(all[at].0 == task);
            } else {
                assert(all[i].0 == k);
            }
        }
        if booked(all, k) && k != task {
            let i = choose|i: int| 0 <= i < all.len() && (#[trigger] all[i]).0 == k;
            if at < all.len() {
                let j = if i == n { at } else { i };
                assert(left[j].0 == k);
            }
        }
    }
    assert forall|i: int, j: int| 0 <= i < j < left.len() implies (#[trigger] left[i]).0 != (#[trigger] left[j]).0 by {
        if at < all.len() {
            let a = if i == at { n } else { i };
            let b = if j == at { n } else { j };
            assert(left[i] == all[a] && left[j] == all[b]);
        }
    }
}

proof fn lemma_release_all(g: GovernorView, ids: Seq<Id>)
    requires
        booked_once(g.reservations),
    ensures
        booked_once(release_all(g, ids).reservations),
        forall|k: Id| #[trigger] booked(release_all(g, ids).reservations, k)
            <==> booked(g.reservations, k) && !ids.contains(k),
    decreases ids.len(),
{
    if ids.len() > 0 {
        let front = ids.drop_last();
        lemma_release_all(g, front);
        lemma_release(release_all(g, front).reservations, ids.last());
        assert forall|k: Id| #[trigger] ids.contains(k) <==> front.contains(k) || k == ids.last() by {
            if ids.contains(k) {
                let i = choose|i: int| 0 <= i < ids.len() && ids[i] == k;
                if i < front.len() {
                    assert(front[i] == k);
                }
            }
            if front.contains(k) {
                let i = choose|i: int| 0 <= i < front.len() && front[i] == k;
                assert(ids[i] == k);
            }
        }
    }
}

/// The end of an attempt closes its reservation and no other.
pub proof fn outcome_closes_its_reservation(
    s: SupervisorView,
    g: GovernorView,
    id: Id,
    outcome: OutcomeView,
    now_ns: u64,
)
    requires
        books_match(s, g),
    ensures
        books_match(
            s.after_event(RunEventView::Outcome { task: id, outcome }, now_ns),
            s.books_after(g, RunEventView::Outcome { task: id, outcome }, now_ns),
        ),
{
    lemma_settle(g, id, outcome.tokens());
}

/// A liveness check releases the reservations of the attempts it gives up, and
/// no others.
pub proof fn check_releases_what_it_gives_up(s: SupervisorView, g: GovernorView, ages: Map<Id, u64>, now_ns: u64)
    requires
        s.wf(),
        books_match(s, g),
    ensures
        books_match(
            s.after_event(RunEventView::Tick { ages }, now_ns),
            s.books_after(g, RunEventView::Tick { ages }, now_ns),
        ),
{
    let seen = s.observe(ages, now_ns);
    let ids = sorted_ids(s.stalled(ages, now_ns));
    lemma_stalled_listed(s, ages, now_ns);
    lemma_recover_all(seen, ids, now_ns);
    lemma_release_all(g, ids);
}

/// A dispatch takes one reservation for each attempt that it starts.
pub proof fn dispatch_books_what_it_starts(s: SupervisorView, g: GovernorView, now_ns: u64)
    requires
        s.orderly(),
        g.within_budget(),
        books_match(s, g),
    ensures
        books_match(dispatched(s, g, now_ns).supervisor, dispatched(s, g, now_ns).governor),
{
    let d = dispatched(s, g, now_ns);
    let begun = started(d.launches);
    let all = g.reservations;
    let more = all + claims(d.launches);
    dispatch_starts_only_what_may_start(s, g, now_ns);
    dispatch_reserves_whole_budgets(s, g, now_ns);
    dispatch_runs_what_it_starts(s, g, now_ns);
    assert forall|i: int| 0 <= i < begun.len() implies !s.running.contains_key(#[trigger] begun[i]) by {
        assert(is_ready(s.tasks, s.states, d.launches[i].spec.id));
        assert(s.keeps_order(begun[i]));
    }
    assert forall|k: Id| #[trigger] booked(more, k) <==> booked(all, k) || begun.contains(k) by {
        if booked(more, k) {
            let i = choose|i: int| 0 <= i < more.len() && (#[trigger] more[i]).0 == k;
            if i < all.len() {
                assert(all[i].0 == k);
            } else {
                assert(begun[i - all.len()] == k);
            }
        }
        if booked(all, k) {
            let i = choose|i: int| 0 <= i < all.len() && (#[trigger] all[i]).0 == k;
            assert(more[i].0 == k);
        }
        if begun.contains(k) {
            let i = choose|i: int| 0 <= i < begun.len() && begun[i] == k;
            assert(more[all.len() + i].0 == k);
        }
    }
    assert forall|i: int, j: int| 0 <= i < j < more.len() implies (#[trigger] more[i]).0 != (#[trigger] more[j]).0 by {
        if j < all.len() {
            assert(more[i] == all[i] && more[j] == all[j]);
        } else {
            let b = j - all.len();
            assert(more[j].0 == begun[b]);
            if i < all.len() {
                assert(all[i].0 == more[i].0);
                assert(booked(all, all[i].0));
            } else {
                let a = i - all.len();
                assert(more[i].0 == begun[a]);
                assert(id_lt(begun[a], begun[b]));
                lemma_id_lt_irreflexive(begun[a]);
            }
        }
    }
}

/// At the end of a run nothing is left reserved.
pub proof fn nothing_stays_reserved(s: SupervisorView, g: GovernorView)
    requires
        s.orderly(),
        s.all_terminal(),
        books_match(s, g),
    ensures
        g.reservations == Seq::<(Id, u64)>::empty(),
        g.reserved() == 0,
{
    if g.reservations.len() > 0 {
        let k = g.reservations[0].0;
        assert(booked(g.reservations, k));
        assert(s.tasks.contains_key(k));
        assert(s.keeps_order(k));
        assert(s.states.contains_key(k));
    }
}

} // verus!
