//! The supervisor: dependency-aware dispatch, heartbeat liveness,
//! automatic recovery, blocker escalation, and budget enforcement —
//! one state machine, fully observable.
//!
//! ## Failure philosophy
//!
//! The supervisor never uses a wall-clock guess about how long a task
//! "should" take. Liveness is evidence-based: a worker that stops beating
//! its heartbeat is first *suspected*, then *confirmed* stalled after a
//! second observation window, and only then recovered (aborted and
//! retried). Permanent failures cancel their transitive dependents loudly
//! instead of leaving them pending forever.

use crate::budget::CostGovernor;
use crate::dag::{blast_radius, ready_set, TaskDag};
use crate::ids::{IdMap, TaskId};
use crate::model::{
    cancel_reason, cancellations, dispatched, lemma_backoff_in_range, lemma_consider, lemma_fail_wf, lemma_outcome_wf,
    lemma_recover_all, liveness, release_all, suspicions, Dispatch, EventView, LaunchView,
    Liveness, NS_PER_MS, ReportView, RunEventView, SupervisorView,
};
use crate::order::{
    id_lt, lemma_id_lt_irreflexive, lemma_order_len, lemma_pick, lemma_pick_all,
    lemma_pick_next, lemma_take_next, lists_in_order, pick, sorted_ids, Id,
};
use crate::orderly::lemma_stalled_listed;
use crate::task::{TaskSpec, TaskState, TaskStateView};
use crate::text::{decimal_string, join};
use crate::worker::WorkerOutcome;
use vstd::prelude::*;

verus! {

#[derive(Debug, Clone, Copy, PartialEq, Eq, Structural)]
pub struct SupervisorConfig {
    /// Maximum concurrently running tasks.
    pub max_concurrent: usize,
    /// Heartbeat age (ms) after which a worker becomes *suspected* stalled.
    pub stall_suspect_ms: u64,
    /// Additional confirmation window (ms) before a suspected worker is
    /// declared stalled and recovered. Detect → confirm → recover.
    pub stall_confirm_ms: u64,
    /// Base backoff between retry attempts; attempt `n` waits `n * base`.
    pub retry_backoff_ms: u64,
    /// Supervisor tick for liveness checks.
    pub tick_ms: u64,
}

impl Default for SupervisorConfig {
    fn default() -> (r: Self)
        ensures
            r == (SupervisorConfig {
                max_concurrent: 8,
                stall_suspect_ms: 2_000,
                stall_confirm_ms: 1_000,
                retry_backoff_ms: 500,
                tick_ms: 100,
            }),
    {
        SupervisorConfig {
            max_concurrent: 8,
            stall_suspect_ms: 2_000,
            stall_confirm_ms: 1_000,
            retry_backoff_ms: 500,
            tick_ms: 100,
        }
    }
}

/// Everything the runtime does is announced here — drive dashboards,
/// logs, or tests from the same stream.
#[derive(Debug, Clone)]
pub enum RuntimeEvent {
    TaskStarted { task: TaskId, attempt: u32 },
    TaskCompleted { task: TaskId },
    TaskRetrying { task: TaskId, attempt: u32, error: String },
    TaskBlocked { task: TaskId, question: String },
    BlockerResolved { task: TaskId },
    TaskFailed { task: TaskId, error: String },
    TaskCancelled { task: TaskId, reason: String },
    WorkerStallSuspected { task: TaskId, heartbeat_age_ms: u64 },
    WorkerStallConfirmed { task: TaskId },
    BudgetRejected { task: TaskId, requested: u64, available: u64 },
    RunFinished { completed: usize, failed: usize, cancelled: usize },
}

impl DeepView for RuntimeEvent {
    type V = EventView;

    open spec fn deep_view(&self) -> EventView {
        match self {
            RuntimeEvent::TaskStarted { task, attempt } => EventView::TaskStarted { task: task@, attempt: *attempt },
            RuntimeEvent::TaskCompleted { task } => EventView::TaskCompleted { task: task@ },
            RuntimeEvent::TaskRetrying { task, attempt, error } => EventView::TaskRetrying {
                task: task@,
                attempt: *attempt,
                error: error@,
            },
            RuntimeEvent::TaskBlocked { task, question } => EventView::TaskBlocked {
                task: task@,
                question: question@,
            },
            RuntimeEvent::BlockerResolved { task } => EventView::BlockerResolved { task: task@ },
            RuntimeEvent::TaskFailed { task, error } => EventView::TaskFailed { task: task@, error: error@ },
            RuntimeEvent::TaskCancelled { task, reason } => EventView::TaskCancelled { task: task@, reason: reason@ },
            RuntimeEvent::WorkerStallSuspected { task, heartbeat_age_ms } => EventView::WorkerStallSuspected {
                task: task@,
                heartbeat_age_ms: *heartbeat_age_ms,
            },
            RuntimeEvent::WorkerStallConfirmed { task } => EventView::WorkerStallConfirmed { task: task@ },
            RuntimeEvent::BudgetRejected { task, requested, available } => EventView::BudgetRejected {
                task: task@,
                requested: *requested,
                available: *available,
            },
            RuntimeEvent::RunFinished { completed, failed, cancelled } => EventView::RunFinished {
                completed: *completed,
                failed: *failed,
                cancelled: *cancelled,
            },
        }
    }
}

/// What the supervisor keeps of an attempt that is under way.
#[derive(Debug, Clone, Copy, PartialEq, Eq, Structural)]
pub struct Running {
    pub attempt: u32,
    /// When its heartbeat was first seen stale, in nanoseconds.
    pub suspected_at: Option<u64>,
}

impl DeepView for Running {
    type V = Running;

    open spec fn deep_view(&self) -> Running {
        *self
    }
}

/// An attempt that is to be started.
#[derive(Debug)]
pub struct Launch {
    pub spec: TaskSpec,
    pub attempt: u32,
    /// The answer to the question that the task raised.
    pub answer: Option<String>,
}

impl DeepView for Launch {
    type V = LaunchView;

    open spec fn deep_view(&self) -> LaunchView {
        LaunchView { spec: self.spec.deep_view(), attempt: self.attempt, answer: self.answer.deep_view() }
    }
}

/// What a run has come to.
#[derive(Debug)]
pub struct RunReport {
    pub states: IdMap<TaskState>,
    pub completed: usize,
    pub failed: usize,
    pub cancelled: usize,
}

impl View for RunReport {
    type V = ReportView;

    open spec fn view(&self) -> ReportView {
        ReportView {
            states: self.states@,
            completed: self.completed as nat,
            failed: self.failed as nat,
            cancelled: self.cancelled as nat,
        }
    }
}

impl Clone for RunReport {
    fn clone(&self) -> (r: Self)
        ensures
            r@ == self@,
    {
        RunReport {
            states: self.states.clone(),
            completed: self.completed,
            failed: self.failed,
            cancelled: self.cancelled,
        }
    }
}

/// What the run loop waits for.
#[derive(Debug)]
pub enum RunEvent {
    /// An attempt has ended.
    Outcome { task: TaskId, outcome: WorkerOutcome },
    /// Something has changed: look again.
    Wake,
    /// A tick has passed; `ages` holds the heartbeat age of each running
    /// attempt in milliseconds.
    Tick { ages: IdMap<u64> },
}

impl View for RunEvent {
    type V = RunEventView;

    open spec fn view(&self) -> RunEventView {
        match self {
            RunEvent::Outcome { task, outcome } => RunEventView::Outcome { task: task@, outcome: outcome@ },
            RunEvent::Wake => RunEventView::Wake,
            RunEvent::Tick { ages } => RunEventView::Tick { ages: ages@ },
        }
    }
}

/// What is to be done before the run loop waits again: start `launches`, and
/// return `report` where there is one.
#[derive(Debug)]
pub struct RunStep {
    pub launches: Vec<Launch>,
    pub report: Option<RunReport>,
}

/// The supervisor: the tasks, what has become of them, and what it has to
/// announce.
#[derive(Debug)]
pub struct Supervisor {
    dag: TaskDag,
    config: SupervisorConfig,
    states: IdMap<TaskState>,
    answers: IdMap<String>,
    running: IdMap<Running>,
    attempts_done: IdMap<u32>,
    next_retry_at: IdMap<u128>,
    events: Vec<RuntimeEvent>,
    wake: bool,
}

impl View for Supervisor {
    type V = SupervisorView;

    closed spec fn view(&self) -> SupervisorView {
        SupervisorView {
            tasks: self.dag.tasks@,
            links: self.dag.dependents@,
            config: self.config,
            states: self.states@,
            answers: self.answers@,
            running: self.running@,
            attempts_done: self.attempts_done@,
            next_retry_at: self.next_retry_at@,
            events: self.events.deep_view(),
            wake: self.wake,
        }
    }
}

/// What a heartbeat age says of a running attempt.
fn judge(config: &SupervisorConfig, age_ms: u64, suspected_at: Option<u64>, now_ns: u64) -> (r: Liveness)
    ensures
        r == liveness(*config, age_ms, suspected_at, now_ns),
{
    if age_ms < config.stall_suspect_ms {
        Liveness::Alive
    } else {
        match suspected_at {
            None => Liveness::Suspected,
            Some(since) => if now_ns.saturating_sub(since) / NS_PER_MS >= config.stall_confirm_ms {
                Liveness::Stalled
            } else {
                Liveness::Confirming
            },
        }
    }
}

/// The text of `cancel_reason`.
fn cancel_reason_text(task: &str) -> (r: String)
    ensures
        r@ == cancel_reason(task@),
{
    join("upstream task ", task).concat(" failed")
}

impl Supervisor {
    /// Announces an event.
    fn emit(&mut self, event: RuntimeEvent)
        ensures
            final(self)@ == old(self)@.emit(event.deep_view()),
    {
        let ghost before = self@;
        self.events.push(event);
        assert(self.events.deep_view() =~= before.events.push(event.deep_view()));
        assert(self@ =~= before.emit(event.deep_view()));
    }

    /// Permanent failure: mark the task failed and cancel its entire
    /// transitive blast radius — loudly, never silently.
    fn fail_task(&mut self, task_id: &str, error: &str)
        ensures
            final(self)@ == old(self)@.fail(task_id@, error@),
            old(self)@.wf() && old(self)@.tasks.contains_key(task_id@) ==> final(self)@.wf(),
    {
        let ghost start = self@;
        let ghost id = task_id@;
        let ghost lost = start.casualties(id);
        self.states.insert(task_id.to_string(), TaskState::Failed { error: error.to_string() });
        self.emit(RuntimeEvent::TaskFailed { task: task_id.to_string(), error: error.to_string() });
        let ghost told = self@;
        let blast = self.dag.transitive_dependents(task_id).to_vec();
        let ghost order = blast.deep_view();
        let mut i: usize = 0;
        proof {
            let hit = pick(order.take(0), lost);
            assert(told.events + cancellations(hit, id) =~= told.events);
        }
        while i < blast.len()
            invariant
                i <= blast@.len(),
                id == task_id@,
                order == blast.deep_view(),
                lists_in_order(order, blast_radius(start.links, id)),
                lost == start.casualties(id),
                told.states == start.states.insert(id, TaskStateView::Failed { error: error@ }),
                self@.states.dom() == told.states.dom(),
                forall|k: Id| #[trigger] self@.states.contains_key(k)
                    ==> self@.states[k] == if pick(order.take(i as int), lost).contains(k) {
                    TaskStateView::Cancelled { reason: cancel_reason(id) }
                } else {
                    told.states[k]
                },
                self@ == (SupervisorView {
                    states: self@.states,
                    events: told.events + cancellations(pick(order.take(i as int), lost), id),
                    ..told
                }),
            decreases blast@.len() - i,
        {
            let dependent = &blast[i];
            let ghost d = dependent@;
            let ghost hit = pick(order.take(i as int), lost);
            let live = match self.states.get(dependent.as_str()) {
                Some(state) => !state.is_terminal(),
                None => false,
            };
            proof {
                assert(order[i as int] == d);
                assert(order.contains(d));
                lemma_pick_next(order, lost, i as int);
                lemma_pick(order.take(i as int), lost);
                if hit.contains(d) {
                    let j = choose|j: int| 0 <= j < i && order.take(i as int)[j] == d;
                    assert(id_lt(order[j], order[i as int]));
                    lemma_id_lt_irreflexive(d);
                }
                assert(live == lost.contains(d));
            }
            if live {
                let reason = cancel_reason_text(task_id);
                self.states.insert(dependent.clone(), TaskState::Cancelled { reason: reason.clone() });
                self.emit(RuntimeEvent::TaskCancelled { task: dependent.clone(), reason });
                proof {
                    let longer = hit.push(d);
                    assert forall|x: Id| #[trigger] longer.contains(x) <==> hit.contains(x) || x == d by {
                        if hit.contains(x) {
                            let k = choose|k: int| 0 <= k < hit.len() && hit[k] == x;
                            assert(longer[k] == x);
                        }
                        if x == d {
                            assert(longer[hit.len() as int] == d);
                        }
                    }
                    assert(told.events + cancellations(longer, id) =~= (told.events + cancellations(hit, id)).push(
                        EventView::TaskCancelled { task: d, reason: cancel_reason(id) },
                    ));
                    assert(self@.states.dom() =~= told.states.dom());
                }
            }
            i += 1;
        }
        self.wake = true;
        proof {
            assert(order.take(order.len() as int) =~= order);
            assert forall|x: Id| #[trigger] lost.contains(x) implies order.contains(x) by {}
            lemma_pick_all(order, lost);
            assert(self@.states =~= start.fail(id, error@).states);
            assert(self@ =~= start.fail(id, error@));
            if start.wf() && start.tasks.contains_key(id) {
                lemma_fail_wf(start, id, error@);
            }
        }
    }

    /// Counts one more failed attempt of the task.
    fn count_attempt(&mut self, task_id: &str) -> (r: u32)
        requires
            old(self)@.attempts(task_id@) < u32::MAX,
        ensures
            final(self)@ == old(self)@.count_attempt(task_id@),
            r == final(self)@.attempts(task_id@),
            r == old(self)@.attempts(task_id@) + 1,
    {
        let ghost before = self@;
        let attempts: u32 = match self.attempts_done.get(task_id) {
            Some(n) => *n + 1,
            None => 1,
        };
        self.attempts_done.insert(task_id.to_string(), attempts);
        assert(self@ =~= before.count_attempt(task_id@));
        attempts
    }

    /// When the backoff window after attempt `n` closes.
    fn backoff_end(&self, n: u32, now_ns: u64) -> (r: u128)
        ensures
            r == self@.backoff_end(n, now_ns),
            r == now_ns + self@.config.retry_backoff_ms * n * 1_000_000,
    {
        let base: u64 = self.config.retry_backoff_ms;
        proof {
            lemma_backoff_in_range(base, n);
        }
        let wait_ms: u128 = base as u128 * n as u128;
        now_ns as u128 + wait_ms * NS_PER_MS as u128
    }

    /// Puts the task back into the schedule, from `at_ns` on.
    fn schedule_retry(&mut self, task_id: &str, attempts: u32, at_ns: u128, error: String)
        requires
            attempts == old(self)@.attempts(task_id@),
            attempts < u32::MAX,
        ensures
            final(self)@ == old(self)@.retry(task_id@, at_ns, error@),
    {
        let ghost before = self@;
        self.next_retry_at.insert(task_id.to_string(), at_ns);
        self.states.insert(task_id.to_string(), TaskState::Pending);
        self.emit(RuntimeEvent::TaskRetrying { task: task_id.to_string(), attempt: attempts + 1, error });
        assert(self@ =~= before.retry(task_id@, at_ns, error@));
    }

    /// What an attempt that has ended makes of its task and of the books.
    pub fn handle_outcome(&mut self, governor: &mut CostGovernor, task_id: &str, outcome: WorkerOutcome, now_ns: u64)
        requires
            old(self)@.wf(),
            old(self)@.tasks.contains_key(task_id@),
            outcome@ is Retryable ==> old(self)@.attempts(task_id@) < u32::MAX && old(self)@.backoff_fits(task_id@),
        ensures
            final(self)@ == old(self)@.after_outcome(task_id@, outcome@, now_ns),
            final(governor)@ == old(governor)@.settle(task_id@, outcome@.tokens()),
            final(self)@.wf(),
    {
        let ghost before = self@;
        let ghost id = task_id@;
        let ghost report = outcome@;
        proof {
            lemma_outcome_wf(before, id, report, now_ns);
        }
        match outcome {
            WorkerOutcome::Success { output, tokens_used } => {
                let _ = governor.settle(task_id, tokens_used);
                self.states.insert(task_id.to_string(), TaskState::Completed { output });
                self.emit(RuntimeEvent::TaskCompleted { task: task_id.to_string() });
            },
            WorkerOutcome::Blocked { question, tokens_used } => {
                let _ = governor.settle(task_id, tokens_used);
                self.states.insert(task_id.to_string(), TaskState::Blocked { question: question.clone() });
                self.emit(RuntimeEvent::TaskBlocked { task: task_id.to_string(), question });
            },
            WorkerOutcome::Fatal { error, tokens_used } => {
                let _ = governor.settle(task_id, tokens_used);
                self.fail_task(task_id, error.as_str());
            },
            WorkerOutcome::Retryable { error, tokens_used } => {
                let _ = governor.settle(task_id, tokens_used);
                let attempts = self.count_attempt(task_id);
                let max = self.dag.tasks.get(task_id).unwrap().max_attempts;
                if attempts >= max {
                    let text = join(error.as_str(), " (after ").concat(decimal_string(max as u64).as_str()).concat(
                        " attempts)",
                    );
                    self.fail_task(task_id, text.as_str());
                } else {
                    let at_ns = self.backoff_end(attempts, now_ns);
                    self.schedule_retry(task_id, attempts, at_ns, error);
                }
            },
        }
        self.wake = true;
        assert(self@ =~= before.after_outcome(id, report, now_ns));
    }

    /// Answer a blocked task's question; it re-enters the schedule and the
    /// answer is handed to the worker on its next attempt.
    pub fn resolve_blocker(&mut self, task: &str, answer: &str) -> (r: bool)
        requires
            old(self)@.wf(),
        ensures
            r == (old(self)@.states.contains_key(task@) && old(self)@.states[task@] is Blocked),
            final(self)@ == old(self)@.resolve(task@, answer@),
            final(self)@.wf(),
    {
        let ghost before = self@;
        let blocked = match self.states.get(task) {
            Some(TaskState::Blocked { .. }) => true,
            _ => false,
        };
        if blocked {
            self.states.insert(task.to_string(), TaskState::Pending);
            self.answers.insert(task.to_string(), answer.to_string());
            self.emit(RuntimeEvent::BlockerResolved { task: task.to_string() });
            self.wake = true;
            assert(self@ =~= before.resolve(task@, answer@));
            assert(self@.states.dom() =~= before.states.dom());
        }
        blocked
    }

    /// Drops and raises suspicions, and names the attempts whose stall is
    /// confirmed.
    fn observe(&mut self, ages: &IdMap<u64>, now_ns: u64) -> (r: Vec<TaskId>)
        requires
            forall|id: Id| #[trigger] old(self)@.running.contains_key(id) ==> ages@.contains_key(id),
        ensures
            final(self)@ == old(self)@.observe(ages@, now_ns),
            r.deep_view() == sorted_ids(old(self)@.stalled(ages@, now_ns)),
            lists_in_order(r.deep_view(), old(self)@.stalled(ages@, now_ns)),
    {
        let ghost start = self@;
        let ghost target = start.observe(ages@, now_ns).running;
        let ghost suspects = start.suspects(ages@, now_ns);
        let ghost stalled = start.stalled(ages@, now_ns);
        let n = self.running.len();
        let keys = self.running.keys();
        let ghost order = keys.deep_view();
        let mut r: Vec<TaskId> = Vec::new();
        let mut i: usize = 0;
        proof {
            assert(r.deep_view() =~= Seq::<Id>::empty());
            assert(start.events + suspicions(pick(order.take(0), suspects), ages@) =~= start.events);
        }
        while i < n
            invariant
                i <= n == order.len(),
                order == keys.deep_view(),
                lists_in_order(order, start.running.dom()),
                forall|id: Id| #[trigger] start.running.contains_key(id) ==> ages@.contains_key(id),
                target == start.observe(ages@, now_ns).running,
                suspects == start.suspects(ages@, now_ns),
                stalled == start.stalled(ages@, now_ns),
                self@.running.dom() == start.running.dom(),
                forall|x: Id| #[trigger] self@.running.contains_key(x)
                    ==> self@.running[x] == if order.take(i as int).contains(x) {
                    target[x]
                } else {
                    start.running[x]
                },
                self@ == (SupervisorView {
                    running: self@.running,
                    events: start.events + suspicions(pick(order.take(i as int), suspects), ages@),
                    ..start
                }),
                r.deep_view() == pick(order.take(i as int), stalled),
            decreases n - i,
        {
            let task_id = &keys[i];
            let ghost id = task_id@;
            let ghost seen = order.take(i as int);
            let ghost told = pick(seen, suspects);
            let ghost listed = r.deep_view();
            proof {
                assert(order[i as int] == id);
                assert(order.contains(id));
                lemma_pick_next(order, suspects, i as int);
                lemma_pick_next(order, stalled, i as int);
                if seen.contains(id) {
                    let j = choose|j: int| 0 <= j < i && seen[j] == id;
                    assert(id_lt(order[j], order[i as int]));
                    lemma_id_lt_irreflexive(id);
                }
                lemma_take_next(order, i as int);
            }
            let run: Running = *self.running.get(task_id.as_str()).unwrap();
            let age: u64 = *ages.get(task_id.as_str()).unwrap();
            assert(run == start.running[id]);
            assert(age == ages@[id]);
            match judge(&self.config, age, run.suspected_at, now_ns) {
                Liveness::Alive => {
                    self.running.insert(task_id.clone(), Running { attempt: run.attempt, suspected_at: None });
                },
                Liveness::Suspected => {
                    self.running.insert(
                        task_id.clone(),
                        Running { attempt: run.attempt, suspected_at: Some(now_ns) },
                    );
                    self.emit(RuntimeEvent::WorkerStallSuspected { task: task_id.clone(), heartbeat_age_ms: age });
                    assert(start.events + suspicions(told.push(id), ages@) =~= (start.events + suspicions(
                        told,
                        ages@,
                    )).push(EventView::WorkerStallSuspected { task: id, heartbeat_age_ms: age }));
                },
                Liveness::Confirming => {},
                Liveness::Stalled => {
                    r.push(task_id.clone());
                    assert(r.deep_view() =~= listed.push(id));
                },
            }
            assert(self@.running.dom() =~= start.running.dom());
            i += 1;
        }
        proof {
            assert(order.take(order.len() as int) =~= order);
            assert forall|x: Id| #[trigger] suspects.contains(x) implies order.contains(x) by {}
            assert forall|x: Id| #[trigger] stalled.contains(x) implies order.contains(x) by {}
            lemma_pick_all(order, suspects);
            lemma_pick_all(order, stalled);
            assert(self@.running =~= target);
            assert(self@ =~= start.observe(ages@, now_ns));
        }
        r
    }

    /// Gives up a stalled attempt, and retries or fails its task.
    fn recover(&mut self, governor: &mut CostGovernor, task_id: &str, now_ns: u64)
        requires
            old(self)@.running.contains_key(task_id@),
            old(self)@.tasks.contains_key(task_id@),
            old(self)@.attempts(task_id@) < u32::MAX,
        ensures
            final(self)@ == old(self)@.recover(task_id@, now_ns),
            final(governor)@ == old(governor)@.release(task_id@),
    {
        let ghost before = self@;
        let run = self.running.remove(task_id).unwrap();
        governor.release(task_id);
        self.emit(RuntimeEvent::WorkerStallConfirmed { task: task_id.to_string() });
        let attempts = self.count_attempt(task_id);
        let max = self.dag.tasks.get(task_id).unwrap().max_attempts;
        if attempts >= max {
            let text = join(
                "worker stalled (no heartbeat) on attempt ",
                decimal_string(run.attempt as u64).as_str(),
            ).concat("/").concat(decimal_string(max as u64).as_str());
            self.fail_task(task_id, text.as_str());
        } else {
            let at_ns = self.backoff_end(attempts, now_ns);
            self.schedule_retry(task_id, attempts, at_ns, "worker stalled (no heartbeat)".to_string());
        }
        assert(self@ =~= before.recover(task_id@, now_ns));
    }

    /// Evidence-based liveness: suspect on heartbeat age, confirm after a
    /// second window, only then abort and recover. Names the tasks whose
    /// attempt is to be aborted.
    pub fn check_stalls(&mut self, governor: &mut CostGovernor, ages: &IdMap<u64>, now_ns: u64) -> (r: Vec<TaskId>)
        requires
            old(self)@.wf(),
            forall|id: Id| #[trigger] old(self)@.running.contains_key(id) ==> ages@.contains_key(id),
            forall|id: Id| #[trigger] old(self)@.stalled(ages@, now_ns).contains(id)
                ==> old(self)@.attempts(id) < u32::MAX,
        ensures
            final(self)@ == old(self)@.after_check(ages@, now_ns),
            final(governor)@ == release_all(
                old(governor)@,
                sorted_ids(old(self)@.stalled(ages@, now_ns)),
            ),
            r.deep_view() == sorted_ids(old(self)@.stalled(ages@, now_ns)),
            final(self)@.wf(),
    {
        let ghost start = self@;
        let ghost books = governor@;
        let ghost set = start.stalled(ages@, now_ns);
        let stalled = self.observe(ages, now_ns);
        let ghost seen = self@;
        let ghost order = stalled.deep_view();
        let mut i: usize = 0;
        proof {
            lemma_stalled_listed(start, ages@, now_ns);
            assert(order.take(0) =~= Seq::<Id>::empty());
        }
        while i < stalled.len()
            invariant
                i <= stalled@.len(),
                order == stalled.deep_view(),
                lists_in_order(order, set),
                forall|j: int| 0 <= j < order.len() ==> start.running.contains_key(#[trigger] order[j])
                    && seen.tasks.contains_key(order[j]),
                set == start.stalled(ages@, now_ns),
                seen.running.dom() == start.running.dom(),
                seen.wf(),
                seen == start.observe(ages@, now_ns),
                forall|id: Id| #[trigger] set.contains(id) ==> start.attempts(id) < u32::MAX,
                self@ == seen.recover_all(order.take(i as int), now_ns),
                governor@ == release_all(books, order.take(i as int)),
            decreases stalled@.len() - i,
        {
            let ghost id = order[i as int];
            proof {
                assert(stalled@[i as int]@ == id);
                let front = order.take(i as int);
                lemma_recover_all(seen, front, now_ns);
                assert(order.contains(id));
                assert(set.contains(id));
                assert(seen.running.dom().contains(id));
                if front.contains(id) {
                    let j = choose|j: int| 0 <= j < i && front[j] == id;
                    assert(id_lt(order[j], order[i as int]));
                    lemma_id_lt_irreflexive(id);
                }
                assert(seen.attempts(id) == start.attempts(id));
                assert(order.take(i + 1).drop_last() =~= front);
                assert(order.take(i + 1).last() == id);
            }
            self.recover(governor, stalled[i].as_str(), now_ns);
            i += 1;
        }
        proof {
            assert(order.take(order.len() as int) =~= order);
            lemma_recover_all(seen, order, now_ns);
        }
        stalled
    }

    /// Starts the task if its budget can be reserved.
    fn consider(&mut self, governor: &mut CostGovernor, launches: &mut Vec<Launch>, task_id: &str, now_ns: u64)
        requires
            old(self)@.wf(),
            old(self)@.tasks.contains_key(task_id@),
            old(self)@.attempts(task_id@) < u32::MAX,
        ensures
            (Dispatch {
                supervisor: final(self)@,
                governor: final(governor)@,
                launches: final(launches).deep_view(),
            }) == (Dispatch {
                supervisor: old(self)@,
                governor: old(governor)@,
                launches: old(launches).deep_view(),
            }).consider(task_id@, now_ns),
    {
        let ghost id = task_id@;
        let ghost before = Dispatch {
            supervisor: self@,
            governor: governor@,
            launches: launches.deep_view(),
        };
        let waits = match self.next_retry_at.get(task_id) {
            Some(at_ns) => (now_ns as u128) < *at_ns,
            None => false,
        };
        if waits {
            return;
        }
        let spec = self.dag.tasks.get(task_id).unwrap().clone();
        if let Err(e) = governor.reserve(task_id, spec.token_budget) {
            let snapshot = governor.snapshot();
            self.emit(
                RuntimeEvent::BudgetRejected {
                    task: task_id.to_string(),
                    requested: spec.token_budget,
                    available: snapshot.available,
                },
            );
            // With nothing running no settlement will ever free budget: fail
            // loudly instead of waiting forever.
            if self.running.is_empty() {
                let text = join("budget exhausted: ", e.message().as_str());
                self.fail_task(task_id, text.as_str());
            }
            assert(self@ =~= before.reject(id).supervisor);
            return;
        }
        let attempt: u32 = match self.attempts_done.get(task_id) {
            Some(n) => *n + 1,
            None => 1,
        };
        let answer = self.answers.remove(task_id);
        self.states.insert(task_id.to_string(), TaskState::Running { attempt });
        self.emit(RuntimeEvent::TaskStarted { task: task_id.to_string(), attempt });
        self.running.insert(task_id.to_string(), Running { attempt, suspected_at: None });
        launches.push(Launch { spec, attempt, answer });
        proof {
            let l = before.launch(id);
            assert(self@ =~= l.supervisor);
            assert(launches.deep_view() =~= l.launches);
        }
    }

    /// Starts what may start: tasks whose dependencies have completed, in the
    /// order of their ids, as long as a slot is free and the budget lasts.
    pub fn dispatch_ready(&mut self, governor: &mut CostGovernor, now_ns: u64) -> (r: Vec<Launch>)
        requires
            old(self)@.wf(),
            forall|id: Id| #[trigger] ready_set(old(self)@.tasks, old(self)@.states).contains(id)
                ==> old(self)@.attempts(id) < u32::MAX,
        ensures
            (Dispatch { supervisor: final(self)@, governor: final(governor)@, launches: r.deep_view() }) == dispatched(
                old(self)@,
                old(governor)@,
                now_ns,
            ),
            final(self)@.wf(),
    {
        let ready = self.dag.ready(&self.states);
        let mut launches: Vec<Launch> = Vec::new();
        let ghost start = Dispatch { supervisor: self@, governor: governor@, launches: Seq::empty() };
        let ghost order = ready.deep_view();
        let ghost set = ready_set(start.supervisor.tasks, start.supervisor.states);
        let mut i: usize = 0;
        proof {
            assert(launches.deep_view() =~= Seq::<LaunchView>::empty());
            assert(order.take(0) =~= Seq::<Id>::empty());
        }
        while i < ready.len()
            invariant
                i <= ready@.len(),
                order == ready.deep_view(),
                lists_in_order(order, set),
                set == ready_set(start.supervisor.tasks, start.supervisor.states),
                forall|id: Id| #[trigger] set.contains(id) ==> start.supervisor.attempts(id) < u32::MAX,
                (Dispatch {
                    supervisor: self@,
                    governor: governor@,
                    launches: launches.deep_view(),
                }) == start.consider_all(order.take(i as int), now_ns),
                self@.wf(),
                self@.tasks == start.supervisor.tasks,
                self@.attempts_done == start.supervisor.attempts_done,
            decreases ready@.len() - i,
        {
            let ghost id = order[i as int];
            let ghost before = Dispatch {
                supervisor: self@,
                governor: governor@,
                launches: launches.deep_view(),
            };
            proof {
                assert(ready@[i as int]@ == id);
                assert(order.contains(id));
                assert(set.contains(id));
                assert(self@.attempts(id) == start.supervisor.attempts(id));
                assert(order.take(i + 1).drop_last() =~= order.take(i as int));
                assert(order.take(i + 1).last() == id);
                lemma_consider(before, id, now_ns);
            }
            if self.running.len() < self.config.max_concurrent {
                self.consider(governor, &mut launches, ready[i].as_str(), now_ns);
            }
            i += 1;
        }
        assert(order.take(order.len() as int) =~= order);
        launches
    }

    /// A supervisor of the tasks of `dag`, none of which has run yet.
    pub fn new(dag: TaskDag, config: SupervisorConfig) -> (r: Self)
        requires
            dag.valid(),
        ensures
            r@ == SupervisorView::initial(dag.tasks@, dag.dependents@, config),
            r@.wf(),
    {
        let n = dag.tasks.len();
        let ghost ids = dag.tasks.ids();
        let mut states: IdMap<TaskState> = IdMap::new();
        let mut i: usize = 0;
        while i < n
            invariant
                i <= n == ids.len(),
                ids == dag.tasks.ids(),
                forall|x: Id| #[trigger] states@.contains_key(x) <==> ids.take(i as int).contains(x),
                forall|x: Id| #[trigger] states@.contains_key(x) ==> states@[x] is Pending,
            decreases n - i,
        {
            proof {
                lemma_take_next(ids, i as int);
            }
            states.insert(dag.tasks.id_at(i).clone(), TaskState::Pending);
            i += 1;
        }
        let r = Supervisor {
            dag,
            config,
            states,
            answers: IdMap::new(),
            running: IdMap::new(),
            attempts_done: IdMap::new(),
            next_retry_at: IdMap::new(),
            events: Vec::new(),
            wake: false,
        };
        proof {
            let fresh = SupervisorView::initial(dag.tasks@, dag.dependents@, config);
            assert(ids.take(ids.len() as int) =~= ids);
            assert(r@.states =~= fresh.states);
            assert(r@.events =~= fresh.events);
            assert(r@ =~= fresh);
            assert(r@.states.dom() =~= r@.tasks.dom());
        }
        r
    }

    /// The events announced since the last call, in their order.
    pub fn events(&mut self) -> (r: Vec<RuntimeEvent>)
        ensures
            r.deep_view() == old(self)@.events,
            final(self)@ == old(self)@.drained(),
    {
        let mut r: Vec<RuntimeEvent> = Vec::new();
        std::mem::swap(&mut r, &mut self.events);
        assert(self.events.deep_view() =~= Seq::<EventView>::empty());
        r
    }

    /// Whether the run loop is to look again at once. Asking settles it.
    pub fn take_wake(&mut self) -> (r: bool)
        ensures
            r == old(self)@.wake,
            final(self)@ == old(self)@.calmed(),
    {
        let r = self.wake;
        self.wake = false;
        r
    }

    /// The validated DAG this supervisor is driving (for introspection and
    /// visualization).
    pub fn dag(&self) -> (r: &TaskDag)
        ensures
            r.tasks@ == self@.tasks,
            r.dependents@ == self@.links,
    {
        &self.dag
    }

    pub fn config(&self) -> (r: SupervisorConfig)
        ensures
            r == self@.config,
    {
        self.config
    }

    /// Current task states (cloned snapshot).
    pub fn states(&self) -> (r: IdMap<TaskState>)
        ensures
            r@ == self@.states,
    {
        self.states.clone()
    }

    /// The tasks that run, in the order of their ids.
    pub fn running_tasks(&self) -> (r: Vec<TaskId>)
        ensures
            r.deep_view() == sorted_ids(self@.running.dom()),
    {
        self.running.keys()
    }

    /// Whether the given attempt of the task is under way. The outcome of an
    /// attempt that was given up meanwhile is nothing to be handled.
    pub fn is_under_way(&self, task: &str, attempt: u32) -> (r: bool)
        ensures
            r == (self@.running.contains_key(task@) && self@.running[task@].attempt == attempt),
    {
        match self.running.get(task) {
            Some(run) => run.attempt == attempt,
            None => false,
        }
    }

    /// Every task has come to an end.
    pub fn all_terminal(&self) -> (r: bool)
        ensures
            r == self@.all_terminal(),
    {
        let n = self.states.len();
        let ghost ids = self.states.ids();
        let mut i: usize = 0;
        while i < n
            invariant
                i <= n == ids.len(),
                ids == self.states.ids(),
                self.states@ == self@.states,
                forall|j: int| 0 <= j < i ==> self@.states[#[trigger] ids[j]].terminal(),
            decreases n - i,
        {
            if !self.states.value_at(i).is_terminal() {
                return false;
            }
            i += 1;
        }
        assert forall|id: Id| #[trigger] self@.states.contains_key(id) implies self@.states[id].terminal() by {
            assert(ids.contains(id));
        }
        true
    }

    /// A new run of the tasks begins.
    pub fn begin_run(&mut self)
        requires
            old(self)@.wf(),
        ensures
            final(self)@ == old(self)@.begun(),
            final(self)@.wf(),
    {
        let ghost before = self@;
        self.running = IdMap::new();
        self.attempts_done = IdMap::new();
        self.next_retry_at = IdMap::new();
        assert(self@ =~= before.begun());
    }

    /// Counts the tasks by how they ended and announces the end of the run.
    pub fn report(&mut self) -> (r: RunReport)
        ensures
            r@ == old(self)@.report(),
            final(self)@ == old(self)@.finished(),
    {
        let n = self.states.len();
        let ghost start = self@;
        let ghost ids = self.states.ids();
        let ghost done = start.completed_tasks();
        let ghost lost = start.failed_tasks();
        let ghost dropped = start.cancelled_tasks();
        let mut completed: usize = 0;
        let mut failed: usize = 0;
        let mut cancelled: usize = 0;
        let mut i: usize = 0;
        while i < n
            invariant
                i <= n == ids.len(),
                ids == self.states.ids(),
                self.states@ == start.states,
                lists_in_order(ids, start.states.dom()),
                done == start.completed_tasks(),
                lost == start.failed_tasks(),
                dropped == start.cancelled_tasks(),
                completed <= i,
                failed <= i,
                cancelled <= i,
                completed == pick(ids.take(i as int), done).len(),
                failed == pick(ids.take(i as int), lost).len(),
                cancelled == pick(ids.take(i as int), dropped).len(),
            decreases n - i,
        {
            proof {
                lemma_pick_next(ids, done, i as int);
                lemma_pick_next(ids, lost, i as int);
                lemma_pick_next(ids, dropped, i as int);
                assert(ids.contains(ids[i as int]));
            }
            match self.states.value_at(i) {
                TaskState::Completed { .. } => {
                    completed += 1;
                },
                TaskState::Failed { .. } => {
                    failed += 1;
                },
                TaskState::Cancelled { .. } => {
                    cancelled += 1;
                },
                _ => {},
            }
            i += 1;
        }
        proof {
            assert(ids.take(ids.len() as int) =~= ids);
            lemma_pick_all(ids, done);
            lemma_pick_all(ids, lost);
            lemma_pick_all(ids, dropped);
            lemma_order_len(pick(ids, done), done);
            lemma_order_len(pick(ids, lost), lost);
            lemma_order_len(pick(ids, dropped), dropped);
        }
        self.emit(RuntimeEvent::RunFinished { completed, failed, cancelled });
        RunReport { states: self.states.clone(), completed, failed, cancelled }
    }

    /// Whether [`Supervisor::handle_event`] can take the event.
    pub fn accepts(&self, event: &RunEvent, now_ns: u64) -> (r: bool)
        ensures
            r == self@.accepts(event@, now_ns),
    {
        match event {
            RunEvent::Wake => true,
            RunEvent::Outcome { task, outcome } => {
                let spec = match self.dag.tasks.get(task.as_str()) {
                    Some(spec) => spec,
                    None => {
                        return false;
                    },
                };
                match outcome {
                    WorkerOutcome::Retryable { .. } => {
                        let attempts: u32 = match self.attempts_done.get(task.as_str()) {
                            Some(n) => *n,
                            None => 0,
                        };
                        if attempts == u32::MAX {
                            return false;
                        }
                        let next: u32 = attempts + 1;
                        next >= spec.max_attempts || self.config.retry_backoff_ms.checked_mul(next as u64).is_some()
                    },
                    _ => true,
                }
            },
            RunEvent::Tick { ages } => {
                let n = self.running.len();
                let ghost ids = self.running.ids();
                let ghost view = self@;
                let mut i: usize = 0;
                while i < n
                    invariant
                        i <= n == ids.len(),
                        ids == self.running.ids(),
                        view == self@,
                        lists_in_order(ids, view.running.dom()),
                        event@ == (RunEventView::Tick { ages: ages@ }),
                        forall|j: int| 0 <= j < i ==> ages@.contains_key(#[trigger] ids[j]),
                        forall|j: int| 0 <= j < i && view.stalled(ages@, now_ns).contains(#[trigger] ids[j])
                            ==> view.attempts(ids[j]) < u32::MAX,
                    decreases n - i,
                {
                    let id = self.running.id_at(i);
                    let run = self.running.value_at(i);
                    assert(view.running.contains_key(id@));
                    let age: u64 = match ages.get(id.as_str()) {
                        Some(age) => *age,
                        None => {
                            return false;
                        },
                    };
                    let stalled = match judge(&self.config, age, run.suspected_at, now_ns) {
                        Liveness::Stalled => true,
                        _ => false,
                    };
                    assert(stalled == view.stalled(ages@, now_ns).contains(id@));
                    if stalled {
                        if let Some(n) = self.attempts_done.get(id.as_str()) {
                            if *n == u32::MAX {
                                return false;
                            }
                        }
                    }
                    i += 1;
                }
                proof {
                    assert forall|id: Id| #[trigger] view.running.contains_key(id) implies ages@.contains_key(id) by {
                        assert(ids.contains(id));
                    }
                    assert forall|id: Id| #[trigger] view.stalled(ages@, now_ns).contains(id) implies view.attempts(id)
                        < u32::MAX by {
                        assert(ids.contains(id));
                        let j = choose|j: int| 0 <= j < ids.len() && ids[j] == id;
                        assert(view.stalled(ages@, now_ns).contains(ids[j]));
                    }
                }
                true
            },
        }
    }

    /// What has happened since the run loop began to wait. Names the tasks
    /// whose attempt is to be aborted.
    pub fn handle_event(&mut self, governor: &mut CostGovernor, event: RunEvent, now_ns: u64) -> (r: Vec<TaskId>)
        requires
            old(self)@.wf(),
            old(self)@.accepts(event@, now_ns),
        ensures
            final(self)@ == old(self)@.after_event(event@, now_ns),
            final(governor)@ == old(self)@.books_after(old(governor)@, event@, now_ns),
            r.deep_view() == old(self)@.aborts(event@, now_ns),
            final(self)@.wf(),
    {
        match event {
            RunEvent::Wake => {
                let r: Vec<TaskId> = Vec::new();
                assert(r.deep_view() =~= Seq::<Id>::empty());
                r
            },
            RunEvent::Outcome { task, outcome } => {
                let ghost before = self@;
                let _ = self.running.remove(task.as_str());
                assert(self@ =~= SupervisorView { running: before.running.remove(task@), ..before });
                self.handle_outcome(governor, task.as_str(), outcome, now_ns);
                let r: Vec<TaskId> = Vec::new();
                assert(r.deep_view() =~= Seq::<Id>::empty());
                r
            },
            RunEvent::Tick { ages } => self.check_stalls(governor, &ages, now_ns),
        }
    }

    /// Whether [`Supervisor::advance`] can be called.
    pub fn can_advance(&self) -> (r: bool)
        requires
            self@.wf(),
        ensures
            r == self@.can_advance(),
    {
        let ready = self.dag.ready(&self.states);
        let ghost order = ready.deep_view();
        let ghost set = ready_set(self@.tasks, self@.states);
        let mut i: usize = 0;
        while i < ready.len()
            invariant
                i <= ready@.len(),
                order == ready.deep_view(),
                set == ready_set(self@.tasks, self@.states),
                lists_in_order(order, set),
                forall|j: int| 0 <= j < i ==> self@.attempts(#[trigger] order[j]) < u32::MAX,
            decreases ready@.len() - i,
        {
            assert(order[i as int] == ready@[i as int]@);
            assert(order.contains(order[i as int]));
            if let Some(n) = self.attempts_done.get(ready[i].as_str()) {
                if *n == u32::MAX {
                    assert(set.contains(order[i as int]));
                    return false;
                }
            }
            i += 1;
        }
        assert forall|id: Id| #[trigger] set.contains(id) implies self@.attempts(id) < u32::MAX by {
            assert(order.contains(id));
        }
        true
    }

    /// Starts what may start, and ends the run once every task has come to an
    /// end.
    pub fn advance(&mut self, governor: &mut CostGovernor, now_ns: u64) -> (r: RunStep)
        requires
            old(self)@.wf(),
            old(self)@.can_advance(),
        ensures
            ({
                let d = dispatched(old(self)@, old(governor)@, now_ns);
                &&& r.launches.deep_view() == d.launches
                &&& final(governor)@ == d.governor
                &&& final(self)@ == d.supervisor.concluded()
                &&& match r.report {
                    Some(report) => d.supervisor.all_terminal() && report@ == d.supervisor.report(),
                    None => !d.supervisor.all_terminal(),
                }
            }),
            final(self)@.wf(),
    {
        let launches = self.dispatch_ready(governor, now_ns);
        if self.all_terminal() {
            let report = self.report();
            RunStep { launches, report: Some(report) }
        } else {
            RunStep { launches, report: None }
        }
    }
}

} // verus!
