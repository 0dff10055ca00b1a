//! The supervisor as a mathematical state machine: what its state is, and
//! what each decision makes of it.

use crate::budget::{BudgetErrorView, GovernorView};
use crate::dag::{
    acyclic_tasks, blast_radius, dependencies_known, filed_by_id, links_match, ready_set,
};
use crate::order::{sorted_ids, Id};
use crate::supervisor::{Running, SupervisorConfig};
use crate::task::{TaskSpecView, TaskStateView};
use crate::text::decimal;
use crate::worker::OutcomeView;
use vstd::prelude::*;

verus! {

/// Nanoseconds in a millisecond.
pub const NS_PER_MS: u64 = 1_000_000;

/// What a runtime event says, as mathematical values.
pub enum EventView {
    TaskStarted { task: Id, attempt: u32 },
    TaskCompleted { task: Id },
    TaskRetrying { task: Id, attempt: u32, error: Seq<char> },
    TaskBlocked { task: Id, question: Seq<char> },
    BlockerResolved { task: Id },
    TaskFailed { task: Id, error: Seq<char> },
    TaskCancelled { task: Id, reason: Seq<char> },
    WorkerStallSuspected { task: Id, heartbeat_age_ms: u64 },
    WorkerStallConfirmed { task: Id },
    BudgetRejected { task: Id, requested: u64, available: u64 },
    RunFinished { completed: usize, failed: usize, cancelled: usize },
}

/// What the run loop waits for, as mathematical values.
pub enum RunEventView {
    Outcome { task: Id, outcome: OutcomeView },
    Wake,
    Tick { ages: Map<Id, u64> },
}

/// What a run has come to.
pub struct ReportView {
    pub states: Map<Id, TaskStateView>,
    pub completed: nat,
    pub failed: nat,
    pub cancelled: nat,
}

/// The state of a supervisor.
#[verifier::ext_equal]
pub struct SupervisorView {
    pub tasks: Map<Id, TaskSpecView>,
    /// For each task those that depend on it directly.
    pub links: Map<Id, Seq<Id>>,
    pub config: SupervisorConfig,
    pub states: Map<Id, TaskStateView>,
    /// Answers that wait for the next attempt of their task.
    pub answers: Map<Id, Seq<char>>,
    pub running: Map<Id, Running>,
    /// Attempts that have failed or stalled so far.
    pub attempts_done: Map<Id, u32>,
    /// When the backoff window of a task closes, in nanoseconds.
    pub next_retry_at: Map<Id, u128>,
    /// The events announced so far and not yet fetched.
    pub events: Seq<EventView>,
    /// The run loop is to look again at once.
    pub wake: bool,
}

/// What a heartbeat age says of a running attempt.
#[derive(Debug, Clone, Copy, PartialEq, Eq, Structural)]
pub enum Liveness {
    /// The heartbeat is fresh.
    Alive,
    /// The heartbeat is stale for the first time.
    Suspected,
    /// Suspected before, and the confirmation window is still open.
    Confirming,
    /// Suspected before, and the confirmation window has passed.
    Stalled,
}

/// Whole milliseconds from `since_ns` to `now_ns`, and zero where the latter
/// comes first.
pub open spec fn ms_between(since_ns: u64, now_ns: u64) -> int {
    if now_ns < since_ns {
        0
    } else {
        (now_ns - since_ns) / 1_000_000
    }
}

pub open spec fn liveness(config: SupervisorConfig, age_ms: u64, suspected_at: Option<u64>, now_ns: u64) -> Liveness {
    if age_ms < config.stall_suspect_ms {
        Liveness::Alive
    } else {
        match suspected_at {
            None => Liveness::Suspected,
            Some(since) => if ms_between(since, now_ns) >= config.stall_confirm_ms {
                Liveness::Stalled
            } else {
                Liveness::Confirming
            },
        }
    }
}

/// The reason given to a task that is cancelled because `task` failed.
pub open spec fn cancel_reason(task: Id) -> Seq<char> {
    "upstream task "@ + task + " failed"@
}

/// The error of a task whose last attempt ended with `error`.
pub open spec fn exhausted_error(error: Seq<char>, max: u32) -> Seq<char> {
    error + " (after "@ + decimal(max as nat) + " attempts)"@
}

/// The error of a task whose last attempt stalled.
pub open spec fn stalled_error(attempt: u32, max: u32) -> Seq<char> {
    "worker stalled (no heartbeat) on attempt "@ + decimal(attempt as nat) + "/"@ + decimal(max as nat)
}

/// The error of a task whose budget can never be reserved.
pub open spec fn budget_error(requested: u64, available: u64) -> Seq<char> {
    "budget exhausted: "@ + (BudgetErrorView::Exhausted { requested, available }).message()
}

impl SupervisorView {
    /// What holds of every supervisor: its tasks form a DAG, every task and
    /// nothing else has a state, and only tasks run.
    pub open spec fn wf(self) -> bool {
        &&& filed_by_id(self.tasks)
        &&& dependencies_known(self.tasks)
        &&& links_match(self.tasks, self.links)
        &&& acyclic_tasks(self.tasks)
        &&& self.tasks.dom().finite()
        &&& self.states.dom() == self.tasks.dom()
        &&& self.running.dom().subset_of(self.tasks.dom())
    }

    pub open spec fn emit(self, event: EventView) -> SupervisorView {
        SupervisorView { events: self.events.push(event), ..self }
    }

    pub open spec fn set_state(self, id: Id, state: TaskStateView) -> SupervisorView {
        SupervisorView { states: self.states.insert(id, state), ..self }
    }

    pub open spec fn woken(self) -> SupervisorView {
        SupervisorView { wake: true, ..self }
    }

    /// The attempts of `id` that have failed or stalled so far.
    pub open spec fn attempts(self, id: Id) -> u32 {
        if self.attempts_done.contains_key(id) {
            self.attempts_done[id]
        } else {
            0
        }
    }

    /// One more attempt of `id` has failed or stalled.
    pub open spec fn count_attempt(self, id: Id) -> SupervisorView {
        SupervisorView { attempts_done: self.attempts_done.insert(id, (self.attempts(id) + 1) as u32), ..self }
    }

    /// All tasks have come to an end.
    pub open spec fn all_terminal(self) -> bool {
        forall|id: Id| #[trigger] self.states.contains_key(id) ==> self.states[id].terminal()
    }

    /// The tasks that the failure of `id` cancels.
    pub open spec fn casualties(self, id: Id) -> Set<Id> {
        Set::new(
            |d: Id|
                d != id && blast_radius(self.links, id).contains(d) && self.states.contains_key(d)
                    && !self.states[d].terminal(),
        )
    }

    /// `id` fails for good, and all that waits for it is cancelled.
    pub open spec fn fail(self, id: Id, error: Seq<char>) -> SupervisorView {
        let casualties = self.casualties(id);
        SupervisorView {
            states: Map::new(
                |k: Id| k == id || self.states.contains_key(k),
                |k: Id|
                    if k == id {
                        TaskStateView::Failed { error }
                    } else if casualties.contains(k) {
                        TaskStateView::Cancelled { reason: cancel_reason(id) }
                    } else {
                        self.states[k]
                    },
            ),
            events: self.events.push(EventView::TaskFailed { task: id, error }) + cancellations(
                sorted_ids(casualties),
                id,
            ),
            wake: true,
            ..self
        }
    }

    /// The answer to a blocked task puts it back into the schedule.
    pub open spec fn resolve(self, id: Id, answer: Seq<char>) -> SupervisorView {
        if self.states.contains_key(id) && self.states[id] is Blocked {
            SupervisorView {
                states: self.states.insert(id, TaskStateView::Pending),
                answers: self.answers.insert(id, answer),
                events: self.events.push(EventView::BlockerResolved { task: id }),
                wake: true,
                ..self
            }
        } else {
            self
        }
    }

    /// The next attempt of `id` may start at `at_ns`.
    pub open spec fn retry(self, id: Id, at_ns: u128, error: Seq<char>) -> SupervisorView {
        SupervisorView {
            next_retry_at: self.next_retry_at.insert(id, at_ns),
            states: self.states.insert(id, TaskStateView::Pending),
            events: self.events.push(
                EventView::TaskRetrying { task: id, attempt: (self.attempts(id) + 1) as u32, error },
            ),
            ..self
        }
    }

    /// When the backoff window after attempt `n` closes.
    pub open spec fn backoff_end(self, n: u32, now_ns: u64) -> u128 {
        (now_ns + self.config.retry_backoff_ms * n * 1_000_000) as u128
    }

    /// What an attempt that ended with `outcome` makes of its task.
    pub open spec fn after_outcome(self, id: Id, outcome: OutcomeView, now_ns: u64) -> SupervisorView {
        match outcome {
            OutcomeView::Success { output, .. } => {
                self.set_state(id, TaskStateView::Completed { output }).emit(
                    EventView::TaskCompleted { task: id },
                ).woken()
            },
            OutcomeView::Blocked { question, .. } => {
                self.set_state(id, TaskStateView::Blocked { question }).emit(
                    EventView::TaskBlocked { task: id, question },
                ).woken()
            },
            OutcomeView::Fatal { error, .. } => self.fail(id, error),
            OutcomeView::Retryable { error, .. } => {
                let counted = self.count_attempt(id);
                let max = self.tasks[id].max_attempts;
                if counted.attempts(id) >= max {
                    counted.fail(id, exhausted_error(error, max))
                } else {
                    counted.retry(id, self.backoff_end(counted.attempts(id), now_ns), error).woken()
                }
            },
        }
    }

    /// The retry after one more failed attempt of `id` has a backoff that
    /// fits in 64 bits of milliseconds, or there is no such retry.
    pub open spec fn backoff_fits(self, id: Id) -> bool {
        self.attempts(id) + 1 >= self.tasks[id].max_attempts || self.config.retry_backoff_ms * (self.attempts(id) + 1)
            <= u64::MAX
    }

    /// What the heartbeat ages say of the running attempt of `id`.
    pub open spec fn liveness(self, ages: Map<Id, u64>, id: Id, now_ns: u64) -> Liveness {
        liveness(self.config, ages[id], self.running[id].suspected_at, now_ns)
    }

    /// The running tasks whose heartbeat is stale for the first time.
    pub open spec fn suspects(self, ages: Map<Id, u64>, now_ns: u64) -> Set<Id> {
        Set::new(|id: Id| self.running.contains_key(id) && self.liveness(ages, id, now_ns) is Suspected)
    }

    /// The running tasks whose stall is confirmed.
    pub open spec fn stalled(self, ages: Map<Id, u64>, now_ns: u64) -> Set<Id> {
        Set::new(|id: Id| self.running.contains_key(id) && self.liveness(ages, id, now_ns) is Stalled)
    }

    /// Suspicions are dropped and raised as the heartbeat ages say.
    pub open spec fn observe(self, ages: Map<Id, u64>, now_ns: u64) -> SupervisorView {
        SupervisorView {
            running: Map::new(
                |id: Id| self.running.contains_key(id),
                |id: Id|
                    Running {
                        suspected_at: match self.liveness(ages, id, now_ns) {
                            Liveness::Alive => None,
                            Liveness::Suspected => Some(now_ns),
                            _ => self.running[id].suspected_at,
                        },
                        ..self.running[id]
                    },
            ),
            events: self.events + suspicions(sorted_ids(self.suspects(ages, now_ns)), ages),
            ..self
        }
    }

    /// A stalled attempt of `id` is given up, and its task retried after its
    /// backoff or failed.
    pub open spec fn recover(self, id: Id, now_ns: u64) -> SupervisorView {
        let counted = SupervisorView { running: self.running.remove(id), ..self }.emit(
            EventView::WorkerStallConfirmed { task: id },
        ).count_attempt(id);
        let max = self.tasks[id].max_attempts;
        if counted.attempts(id) >= max {
            counted.fail(id, stalled_error(self.running[id].attempt, max))
        } else {
            counted.retry(
                id,
                self.backoff_end(counted.attempts(id), now_ns),
                "worker stalled (no heartbeat)"@,
            )
        }
    }

    /// The stalled attempts of `ids` are given up one after the other.
    pub open spec fn recover_all(self, ids: Seq<Id>, now_ns: u64) -> SupervisorView
        decreases ids.len(),
    {
        if ids.len() == 0 {
            self
        } else {
            self.recover_all(ids.drop_last(), now_ns).recover(ids.last(), now_ns)
        }
    }

    /// What a liveness check makes of the state.
    pub open spec fn after_check(self, ages: Map<Id, u64>, now_ns: u64) -> SupervisorView {
        self.observe(ages, now_ns).recover_all(sorted_ids(self.stalled(ages, now_ns)), now_ns)
    }

    /// The backoff window of `id` is still open.
    pub open spec fn in_backoff(self, id: Id, now_ns: u64) -> bool {
        self.next_retry_at.contains_key(id) && now_ns < self.next_retry_at[id]
    }

    /// The answer that waits for the next attempt of `id`.
    pub open spec fn answer_for(self, id: Id) -> Option<Seq<char>> {
        if self.answers.contains_key(id) {
            Some(self.answers[id])
        } else {
            None
        }
    }

    /// The tasks in a state that `pick` holds of.
    pub open spec fn in_state(self, pick: spec_fn(TaskStateView) -> bool) -> Set<Id> {
        Set::new(|id: Id| self.states.contains_key(id) && pick(self.states[id]))
    }

    pub open spec fn completed_tasks(self) -> Set<Id> {
        self.in_state(|s: TaskStateView| s is Completed)
    }

    pub open spec fn failed_tasks(self) -> Set<Id> {
        self.in_state(|s: TaskStateView| s is Failed)
    }

    pub open spec fn cancelled_tasks(self) -> Set<Id> {
        self.in_state(|s: TaskStateView| s is Cancelled)
    }

    /// A supervisor of which nothing has run yet.
    pub open spec fn initial(
        tasks: Map<Id, TaskSpecView>,
        links: Map<Id, Seq<Id>>,
        config: SupervisorConfig,
    ) -> SupervisorView {
        SupervisorView {
            tasks,
            links,
            config,
            states: Map::new(|id: Id| tasks.contains_key(id), |id: Id| TaskStateView::Pending),
            answers: Map::empty(),
            running: Map::empty(),
            attempts_done: Map::empty(),
            next_retry_at: Map::empty(),
            events: Seq::empty(),
            wake: false,
        }
    }

    /// A new run knows of no attempt and of no backoff.
    pub open spec fn begun(self) -> SupervisorView {
        SupervisorView {
            running: Map::empty(),
            attempts_done: Map::empty(),
            next_retry_at: Map::empty(),
            ..self
        }
    }

    /// What the run has come to.
    pub open spec fn report(self) -> ReportView {
        ReportView {
            states: self.states,
            completed: self.completed_tasks().len(),
            failed: self.failed_tasks().len(),
            cancelled: self.cancelled_tasks().len(),
        }
    }

    /// The end of the run is announced.
    pub open spec fn finished(self) -> SupervisorView {
        self.emit(
            EventView::RunFinished {
                completed: self.completed_tasks().len() as usize,
                failed: self.failed_tasks().len() as usize,
                cancelled: self.cancelled_tasks().len() as usize,
            },
        )
    }

    /// A run in which every task has come to an end is finished.
    pub open spec fn concluded(self) -> SupervisorView {
        if self.all_terminal() {
            self.finished()
        } else {
            self
        }
    }

    /// The events announced so far have been fetched.
    pub open spec fn drained(self) -> SupervisorView {
        SupervisorView { events: Seq::empty(), ..self }
    }

    /// The run loop has taken note that it is to look again.
    pub open spec fn calmed(self) -> SupervisorView {
        SupervisorView { wake: false, ..self }
    }

    /// The event can be handled: it speaks of tasks of this supervisor, and
    /// the counters it moves do not overflow.
    pub open spec fn accepts(self, event: RunEventView, now_ns: u64) -> bool {
        match event {
            RunEventView::Outcome { task, outcome } => {
                &&& self.tasks.contains_key(task)
                &&& outcome is Retryable ==> self.attempts(task) < u32::MAX && self.backoff_fits(task)
            },
            RunEventView::Wake => true,
            RunEventView::Tick { ages } => {
                &&& forall|id: Id| #[trigger] self.running.contains_key(id) ==> ages.contains_key(id)
                &&& forall|id: Id| #[trigger] self.stalled(ages, now_ns).contains(id) ==> self.attempts(id) < u32::MAX
            },
        }
    }

    /// What an event makes of the state.
    pub open spec fn after_event(self, event: RunEventView, now_ns: u64) -> SupervisorView {
        match event {
            RunEventView::Outcome { task, outcome } => {
                SupervisorView { running: self.running.remove(task), ..self }.after_outcome(task, outcome, now_ns)
            },
            RunEventView::Wake => self,
            RunEventView::Tick { ages } => self.after_check(ages, now_ns),
        }
    }

    /// The tasks whose attempt an event makes the supervisor abort.
    pub open spec fn aborts(self, event: RunEventView, now_ns: u64) -> Seq<Id> {
        match event {
            RunEventView::Tick { ages } => sorted_ids(self.stalled(ages, now_ns)),
            _ => Seq::empty(),
        }
    }

    /// What an event makes of the books.
    pub open spec fn books_after(self, governor: GovernorView, event: RunEventView, now_ns: u64) -> GovernorView {
        match event {
            RunEventView::Outcome { task, outcome } => governor.settle(task, outcome.tokens()),
            RunEventView::Wake => governor,
            RunEventView::Tick { .. } => release_all(governor, self.aborts(event, now_ns)),
        }
    }

    /// No attempt that a dispatch may start has a number beyond 32 bits.
    pub open spec fn can_advance(self) -> bool {
        forall|id: Id| #[trigger] ready_set(self.tasks, self.states).contains(id) ==> self.attempts(id) < u32::MAX
    }
}

/// One cancellation for each of `ids`, since `cause` failed.
pub open spec fn cancellations(ids: Seq<Id>, cause: Id) -> Seq<EventView> {
    Seq::new(ids.len(), |i: int| EventView::TaskCancelled { task: ids[i], reason: cancel_reason(cause) })
}

/// One suspicion for each of `ids`.
pub open spec fn suspicions(ids: Seq<Id>, ages: Map<Id, u64>) -> Seq<EventView> {
    Seq::new(ids.len(), |i: int| EventView::WorkerStallSuspected { task: ids[i], heartbeat_age_ms: ages[ids[i]] })
}

/// Every reservation for one of `ids` goes.
pub open spec fn release_all(governor: GovernorView, ids: Seq<Id>) -> GovernorView
    decreases ids.len(),
{
    if ids.len() == 0 {
        governor
    } else {
        release_all(governor, ids.drop_last()).release(ids.last())
    }
}

/// An attempt that is to be started.
pub struct LaunchView {
    pub spec: TaskSpecView,
    pub attempt: u32,
    /// The answer to the question that the task raised.
    pub answer: Option<Seq<char>>,
}

/// A supervisor and its governor in the middle of a dispatch.
#[verifier::ext_equal]
pub struct Dispatch {
    pub supervisor: SupervisorView,
    pub governor: GovernorView,
    pub launches: Seq<LaunchView>,
}

impl Dispatch {
    /// `id` starts if its budget can be reserved.
    pub open spec fn consider(self, id: Id, now_ns: u64) -> Dispatch {
        if self.supervisor.in_backoff(id, now_ns) {
            self
        } else if self.supervisor.tasks[id].token_budget > self.governor.available() {
            self.reject(id)
        } else {
            self.launch(id)
        }
    }

    /// The budget of `id` does not fit. With nothing running no settlement
    /// will ever free budget, so `id` fails.
    pub open spec fn reject(self, id: Id) -> Dispatch {
        let requested = self.supervisor.tasks[id].token_budget;
        let available = self.governor.available() as u64;
        let told = self.supervisor.emit(EventView::BudgetRejected { task: id, requested, available });
        Dispatch {
            supervisor: if told.running.len() == 0 {
                told.fail(id, budget_error(requested, available))
            } else {
                told
            },
            ..self
        }
    }

    /// `id` starts with its whole budget reserved.
    pub open spec fn launch(self, id: Id) -> Dispatch {
        let s = self.supervisor;
        let attempt = (s.attempts(id) + 1) as u32;
        Dispatch {
            supervisor: SupervisorView {
                states: s.states.insert(id, TaskStateView::Running { attempt }),
                answers: s.answers.remove(id),
                running: s.running.insert(id, Running { attempt, suspected_at: None }),
                events: s.events.push(EventView::TaskStarted { task: id, attempt }),
                ..s
            },
            governor: self.governor.reserve(id, s.tasks[id].token_budget),
            launches: self.launches.push(LaunchView { spec: s.tasks[id], attempt, answer: s.answer_for(id) }),
        }
    }

    /// No further task may start.
    pub open spec fn full(self) -> bool {
        self.supervisor.running.len() >= self.supervisor.config.max_concurrent
    }

    /// The tasks of `ids` are considered one after the other, until as many
    /// run as may.
    pub open spec fn consider_all(self, ids: Seq<Id>, now_ns: u64) -> Dispatch
        decreases ids.len(),
    {
        if ids.len() == 0 {
            self
        } else {
            let d = self.consider_all(ids.drop_last(), now_ns);
            if d.full() {
                d
            } else {
                d.consider(ids.last(), now_ns)
            }
        }
    }
}

/// What a dispatch makes of a supervisor and its governor.
pub open spec fn dispatched(supervisor: SupervisorView, governor: GovernorView, now_ns: u64) -> Dispatch {
    Dispatch { supervisor, governor, launches: Seq::empty() }.consider_all(
        sorted_ids(ready_set(supervisor.tasks, supervisor.states)),
        now_ns,
    )
}

/// Every backoff fits in 96 bits of milliseconds.
pub proof fn lemma_backoff_in_range(base: u64, n: u32)
    ensures
        0 <= base * n <= 0xFFFF_FFFF_FFFF_FFFF_FFFF_FFFF,
{
    assert(0 <= base * n <= 0xFFFF_FFFF_FFFF_FFFF * 0xFFFF_FFFF) by (nonlinear_arith)
        requires
            0 <= base <= 0xFFFF_FFFF_FFFF_FFFF,
            0 <= n <= 0xFFFF_FFFF,
    ;
}

/// A failure keeps the invariant.
pub proof fn lemma_fail_wf(s: SupervisorView, id: Id, error: Seq<char>)
    requires
        s.wf(),
        s.tasks.contains_key(id),
    ensures
        s.fail(id, error).wf(),
{
    assert(s.fail(id, error).states.dom() =~= s.tasks.dom());
}

/// An outcome keeps the invariant.
pub proof fn lemma_outcome_wf(s: SupervisorView, id: Id, outcome: OutcomeView, now_ns: u64)
    requires
        s.wf(),
        s.tasks.contains_key(id),
    ensures
        s.after_outcome(id, outcome, now_ns).wf(),
{
    match outcome {
        OutcomeView::Success { output, .. } => {
            assert(s.states.insert(id, TaskStateView::Completed { output }).dom() =~= s.tasks.dom());
        },
        OutcomeView::Blocked { question, .. } => {
            assert(s.states.insert(id, TaskStateView::Blocked { question }).dom() =~= s.tasks.dom());
        },
        OutcomeView::Fatal { error, .. } => {
            lemma_fail_wf(s, id, error);
        },
        OutcomeView::Retryable { error, .. } => {
            lemma_fail_wf(s.count_attempt(id), id, exhausted_error(error, s.tasks[id].max_attempts));
            assert(s.states.insert(id, TaskStateView::Pending).dom() =~= s.tasks.dom());
        },
    }
}

/// Giving up stalled attempts keeps the invariant, and leaves all other
/// attempts running.
pub proof fn lemma_recover_all(s: SupervisorView, ids: Seq<Id>, now_ns: u64)
    requires
        s.wf(),
        forall|i: int| 0 <= i < ids.len() ==> s.tasks.contains_key(#[trigger] ids[i]),
    ensures
        s.recover_all(ids, now_ns).wf(),
        s.recover_all(ids, now_ns).tasks == s.tasks,
        s.recover_all(ids, now_ns).links == s.links,
        s.recover_all(ids, now_ns).config == s.config,
        s.recover_all(ids, now_ns).answers == s.answers,
        forall|x: Id| #[trigger] s.recover_all(ids, now_ns).running.contains_key(x)
            <==> s.running.contains_key(x) && !ids.contains(x),
        forall|x: Id| !ids.contains(x) ==> #[trigger] s.recover_all(ids, now_ns).running[x] == s.running[x],
        forall|x: Id| !ids.contains(x) ==> #[trigger] s.recover_all(ids, now_ns).attempts(x) == s.attempts(x),
    decreases ids.len(),
{
    if ids.len() > 0 {
        let front = ids.drop_last();
        let last = ids.last();
        assert forall|i: int| 0 <= i < front.len() implies s.tasks.contains_key(#[trigger] front[i]) by {
            assert(ids[i] == front[i]);
        }
        assert(ids[ids.len() - 1] == last);
        lemma_recover_all(s, front, now_ns);
        let t = s.recover_all(front, now_ns);
        let counted = SupervisorView { running: t.running.remove(last), ..t }.emit(
            EventView::WorkerStallConfirmed { task: last },
        ).count_attempt(last);
        assert(counted.wf());
        lemma_fail_wf(counted, last, stalled_error(t.running[last].attempt, t.tasks[last].max_attempts));
        assert(counted.states.insert(last, TaskStateView::Pending).dom() =~= s.tasks.dom());
        assert forall|x: Id| #[trigger] ids.contains(x) <==> front.contains(x) || x == last by {
            if ids.contains(x) {
                let i = choose|i: int| 0 <= i < ids.len() && ids[i] == x;
                if i < front.len() {
                    assert(front[i] == x);
                }
            }
            if front.contains(x) {
                let i = choose|i: int| 0 <= i < front.len() && front[i] == x;
                assert(ids[i] == x);
            }
        }
        assert forall|x: Id| !ids.contains(x) implies
            #[trigger] s.recover_all(ids, now_ns).attempts(x) == s.attempts(x) by {
            assert(t.attempts(x) == s.attempts(x));
            assert(counted.attempts(x) == t.attempts(x));
        }
    }
}

/// Considering a task keeps the invariant and all but the books, the states,
/// the answers, the running attempts and the events.
pub proof fn lemma_consider(d: Dispatch, id: Id, now_ns: u64)
    requires
        d.supervisor.wf(),
        d.supervisor.tasks.contains_key(id),
    ensures
        d.consider(id, now_ns).supervisor.wf(),
        d.consider(id, now_ns).supervisor.tasks == d.supervisor.tasks,
        d.consider(id, now_ns).supervisor.links == d.supervisor.links,
        d.consider(id, now_ns).supervisor.config == d.supervisor.config,
        d.consider(id, now_ns).supervisor.attempts_done == d.supervisor.attempts_done,
        d.consider(id, now_ns).supervisor.next_retry_at == d.supervisor.next_retry_at,
{
    let s = d.supervisor;
    let requested = s.tasks[id].token_budget;
    let available = d.governor.available() as u64;
    let told = s.emit(EventView::BudgetRejected { task: id, requested, available });
    assert(told.wf());
    lemma_fail_wf(told, id, budget_error(requested, available));
    assert(d.launch(id).supervisor.states.dom() =~= s.tasks.dom());
}

} // verus!
