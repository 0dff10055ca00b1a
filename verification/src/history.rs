//! What holds of whole runs, from their start through every step.

use crate::bookkeeping::{
    books_match, check_releases_what_it_gives_up, dispatch_books_what_it_starts,
    outcome_closes_its_reservation,
};
use crate::budget::GovernorView;
use crate::laws::events_stay_within_budget;
use crate::model::{dispatched, lemma_recover_all, release_all, RunEventView, SupervisorView};
use crate::order::{sorted_ids, Id};
use crate::orderly::{
    answer_keeps_order, check_keeps_order, dispatch_keeps_order, lemma_announcements_keep_order,
    lemma_stalled_listed,
    order_at_the_start, outcome_keeps_order,
};
use crate::scheduling::{dispatch_reserves_whole_budgets, dispatch_respects_the_cap};
use vstd::prelude::*;

verus! {

/// A step of a run, each a call that whoever drives the supervisor may make.
pub enum Step {
    /// An answer comes in: `resolve_blocker`.
    Answer { id: Id, answer: Seq<char> },
    /// An event is handled: `handle_event`.
    Event { event: RunEventView, now_ns: u64 },
    /// What may start is started, and the run finished at its end: `advance`.
    Advance { now_ns: u64 },
    /// The announced events are fetched: `events`.
    Fetch,
    /// The wake-up is taken note of: `take_wake`.
    TakeWake,
}

/// A supervisor and its governor.
pub struct Desk {
    pub supervisor: SupervisorView,
    pub governor: GovernorView,
}

impl Desk {
    /// A desk at which nothing has happened yet.
    pub open spec fn fresh(self) -> bool {
        let s = self.supervisor;
        &&& s.wf()
        &&& s == SupervisorView::initial(s.tasks, s.links, s.config)
        &&& self.governor.settled == 0
        &&& self.governor.reservations == Seq::<(Id, u64)>::empty()
    }

    /// The step can be taken: the end of an attempt is reported only while the
    /// attempt runs.
    pub open spec fn admits(self, step: Step) -> bool {
        match step {
            Step::Event { event: RunEventView::Outcome { task, .. }, .. } => self.supervisor.running.contains_key(task),
            _ => true,
        }
    }

    pub open spec fn after(self, step: Step) -> Desk {
        match step {
            Step::Answer { id, answer } => Desk { supervisor: self.supervisor.resolve(id, answer), ..self },
            Step::Event { event, now_ns } => Desk {
                supervisor: self.supervisor.after_event(event, now_ns),
                governor: self.supervisor.books_after(self.governor, event, now_ns),
            },
            Step::Advance { now_ns } => Desk {
                supervisor: dispatched(self.supervisor, self.governor, now_ns).supervisor.concluded(),
                governor: dispatched(self.supervisor, self.governor, now_ns).governor,
            },
            Step::Fetch => Desk { supervisor: self.supervisor.drained(), ..self },
            Step::TakeWake => Desk { supervisor: self.supervisor.calmed(), ..self },
        }
    }

    pub open spec fn after_all(self, steps: Seq<Step>) -> Desk
        decreases steps.len(),
    {
        if steps.len() == 0 {
            self
        } else {
            self.after_all(steps.drop_last()).after(steps.last())
        }
    }

    /// Each of the steps can be taken when its turn comes.
    pub open spec fn admits_all(self, steps: Seq<Step>) -> bool {
        forall|i: int| 0 <= i < steps.len() ==> self.after_all(steps.take(i)).admits(#[trigger] steps[i])
    }

    /// What holds at every moment of a run.
    pub open spec fn sound(self) -> bool {
        &&& self.supervisor.orderly()
        &&& self.supervisor.running.len() <= self.supervisor.config.max_concurrent
        &&& self.governor.within_budget()
        &&& books_match(self.supervisor, self.governor)
    }
}

/// The first run begins as the supervisor was made.
pub proof fn first_run_begins_fresh(d: Desk)
    requires
        d.fresh(),
    ensures
        d.supervisor.begun() == d.supervisor,
{
    assert(d.supervisor.begun() =~= d.supervisor);
}

/// A liveness check gives up attempts and starts none.
proof fn lemma_check_running(s: SupervisorView, ages: Map<Id, u64>, now_ns: u64)
    requires
        s.wf(),
    ensures
        s.after_check(ages, now_ns).running.dom().subset_of(s.running.dom()),
        s.after_check(ages, now_ns).config == s.config,
        s.after_check(ages, now_ns).tasks == s.tasks,
{
    let seen = s.observe(ages, now_ns);
    let ids = sorted_ids(s.stalled(ages, now_ns));
    lemma_stalled_listed(s, ages, now_ns);
    lemma_recover_all(seen, ids, now_ns);
    let t = s.after_check(ages, now_ns);
    assert forall|x: Id| #[trigger] t.running.dom().contains(x) implies s.running.dom().contains(x) by {
        assert(t.running.contains_key(x));
    }
}

/// Every step keeps what holds throughout a run, leaves every task that has
/// come to an end as it is, and changes neither the tasks nor the budget.
pub proof fn step_is_sound(d: Desk, step: Step)
    requires
        d.sound(),
        d.admits(step),
    ensures
        d.after(step).sound(),
        d.after(step).supervisor.tasks == d.supervisor.tasks,
        d.after(step).supervisor.config == d.supervisor.config,
        d.after(step).governor.global_budget == d.governor.global_budget,
        forall|k: Id| d.supervisor.tasks.contains_key(k) && d.supervisor.states[k].terminal() ==> #[trigger] d.after(
            step,
        ).supervisor.states[k] == d.supervisor.states[k],
{
    let s = d.supervisor;
    let g = d.governor;
    vstd::set_lib::lemma_set_subset_finite(s.tasks.dom(), s.running.dom());
    match step {
        Step::Answer { id, answer } => {
            answer_keeps_order(s, id, answer);
            assert(s.resolve(id, answer).running == s.running);
        },
        Step::Event { event, now_ns } => {
            events_stay_within_budget(s, g, event, now_ns);
            match event {
                RunEventView::Outcome { task, outcome } => {
                    outcome_keeps_order(s, task, outcome, now_ns);
                    outcome_closes_its_reservation(s, g, task, outcome, now_ns);
                    assert(d.after(step).supervisor.running == s.running.remove(task));
                },
                RunEventView::Wake => {},
                RunEventView::Tick { ages } => {
                    check_keeps_order(s, ages, now_ns);
                    check_releases_what_it_gives_up(s, g, ages, now_ns);
                    lemma_check_running(s, ages, now_ns);
                    vstd::set_lib::lemma_len_subset(s.after_check(ages, now_ns).running.dom(), s.running.dom());
                    lemma_releases_keep_budget(g, s.aborts(event, now_ns));
                },
            }
        },
        Step::Advance { now_ns } => {
            dispatch_keeps_order(s, g, now_ns);
            dispatch_reserves_whole_budgets(s, g, now_ns);
            dispatch_respects_the_cap(s, g, now_ns);
            dispatch_books_what_it_starts(s, g, now_ns);
            let t = dispatched(s, g, now_ns).supervisor;
            lemma_announcements_keep_order(t, t.concluded());
        },
        Step::Fetch => {
            lemma_announcements_keep_order(s, s.drained());
        },
        Step::TakeWake => {
            lemma_announcements_keep_order(s, s.calmed());
        },
    }
}

proof fn lemma_releases_keep_budget(g: GovernorView, ids: Seq<Id>)
    ensures
        release_all(g, ids).global_budget == g.global_budget,
    decreases ids.len(),
{
    if ids.len() > 0 {
        lemma_releases_keep_budget(g, ids.drop_last());
    }
}

/// The first of the steps can be taken without the rest.
pub proof fn lemma_prefix_admitted(d: Desk, steps: Seq<Step>, n: int)
    requires
        0 <= n <= steps.len(),
        d.admits_all(steps),
    ensures
        d.admits_all(steps.take(n)),
{
    let front = steps.take(n);
    assert forall|i: int| 0 <= i < front.len() implies d.after_all(front.take(i)).admits(#[trigger] front[i]) by {
        assert(front.take(i) =~= steps.take(i));
        assert(front[i] == steps[i]);
    }
}

/// All steps but the last can be taken, and then the last.
pub proof fn lemma_front_admitted(d: Desk, steps: Seq<Step>)
    requires
        steps.len() > 0,
        d.admits_all(steps),
    ensures
        d.admits_all(steps.drop_last()),
        d.after_all(steps.drop_last()).admits(steps.last()),
{
    let n = steps.len() - 1;
    lemma_prefix_admitted(d, steps, n);
    assert(steps.take(n) =~= steps.drop_last());
    assert(d.after_all(steps.take(n)).admits(steps[n]));
}

/// At every moment of every run: a task has begun only after all it depends on
/// had completed, no more tasks run than may, what is spent and reserved stays
/// within the budget, and exactly the running attempts hold a reservation.
pub proof fn every_run_is_sound(d: Desk, steps: Seq<Step>)
    requires
        d.fresh(),
        d.admits_all(steps),
    ensures
        d.after_all(steps).sound(),
        d.after_all(steps).supervisor.tasks == d.supervisor.tasks,
        d.after_all(steps).supervisor.config == d.supervisor.config,
        d.after_all(steps).governor.global_budget == d.governor.global_budget,
    decreases steps.len(),
{
    if steps.len() == 0 {
        order_at_the_start(d.supervisor);
        assert(d.supervisor.running.dom() =~= Set::<Id>::empty());
    } else {
        let front = steps.drop_last();
        lemma_front_admitted(d, steps);
        every_run_is_sound(d, front);
        step_is_sound(d.after_all(front), steps.last());
    }
}

/// No end is undone: a task that has come to an end stays as it is through all
/// further steps of the run.
pub proof fn ends_are_final(d: Desk, steps: Seq<Step>, n: int, k: Id)
    requires
        d.fresh(),
        d.admits_all(steps),
        0 <= n <= steps.len(),
        d.supervisor.tasks.contains_key(k),
        d.after_all(steps.take(n)).supervisor.states[k].terminal(),
    ensures
        d.after_all(steps).supervisor.states[k] == d.after_all(steps.take(n)).supervisor.states[k],
    decreases steps.len(),
{
    if n == steps.len() {
        assert(steps.take(n) =~= steps);
    } else {
        let front = steps.drop_last();
        lemma_front_admitted(d, steps);
        assert(front.take(n) =~= steps.take(n));
        ends_are_final(d, front, n, k);
        every_run_is_sound(d, front);
        step_is_sound(d.after_all(front), steps.last());
    }
}

} // verus!
