//! End-to-end runtime scenarios with mock workers on a simulated clock:
//! parallelism, retry, stall recovery, blockers, budget enforcement, and
//! failure cascades.

use nexus::budget::CostGovernor;
use nexus::dag::TaskDag;
use nexus::demo::{build_demo_supervisor, next_sleep};
use nexus::ids::IdMap;
use nexus::supervisor::{
    Launch, RunEvent, RunReport, RuntimeEvent, Supervisor, SupervisorConfig,
};
use nexus::task::{TaskSpec, TaskState};
use nexus::worker::{Heartbeat, WorkerOutcome};
use std::collections::BTreeMap;

const MS: u64 = 1_000_000;

fn fast_config() -> SupervisorConfig {
    SupervisorConfig {
        max_concurrent: 8,
        stall_suspect_ms: 100,
        stall_confirm_ms: 50,
        retry_backoff_ms: 10,
        tick_ms: 10,
    }
}

fn governor() -> CostGovernor {
    CostGovernor::new(10_000_000)
}

/// What a mock worker does with an attempt.
enum Work {
    /// Works for so many milliseconds, beating all the time.
    Done(u64, WorkerOutcome),
    /// Stops beating forever.
    Hangs,
}

/// An attempt under way: its heartbeat and, unless it hangs, when it ends.
struct Attempt {
    heartbeat: Heartbeat,
    end: Option<(u64, WorkerOutcome)>,
}

/// What came of a simulated run.
struct Run {
    report: RunReport,
    events: Vec<RuntimeEvent>,
    elapsed_ms: u64,
}

/// What a reader of the event stream takes the states of the tasks to be.
struct Reader {
    states: BTreeMap<String, String>,
}

impl Reader {
    fn read(&mut self, event: &RuntimeEvent) {
        let (task, state) = match event {
            RuntimeEvent::TaskStarted { task, attempt } => (task, format!("running {attempt}")),
            RuntimeEvent::TaskCompleted { task } => (task, "completed".to_string()),
            RuntimeEvent::TaskRetrying { task, .. } => (task, "pending".to_string()),
            RuntimeEvent::TaskBlocked { task, question } => (task, format!("blocked {question}")),
            RuntimeEvent::BlockerResolved { task } => (task, "pending".to_string()),
            RuntimeEvent::TaskFailed { task, error } => (task, format!("failed {error}")),
            RuntimeEvent::TaskCancelled { task, reason } => (task, format!("cancelled {reason}")),
            _ => return,
        };
        self.states.insert(task.clone(), state);
    }
}

/// What holds at every moment of a run.
fn check_moment(sup: &Supervisor, gov: &CostGovernor, reader: &Reader) {
    let states = sup.states();
    let mut reserved: u64 = 0;
    let mut running: Vec<String> = Vec::new();
    for id in sup.dag().tasks.keys() {
        let spec = sup.dag().tasks.get(&id).unwrap();
        let deps: Vec<&TaskState> = spec
            .depends_on
            .iter()
            .map(|d| states.get(d).unwrap())
            .collect();
        let done = deps
            .iter()
            .all(|d| matches!(d, TaskState::Completed { .. }));
        let lost = deps
            .iter()
            .any(|d| matches!(d, TaskState::Failed { .. } | TaskState::Cancelled { .. }));
        let shown = match states.get(&id).unwrap() {
            TaskState::Pending => {
                assert!(!lost);
                "pending".to_string()
            }
            TaskState::Running { attempt } => {
                assert!(done);
                assert!(*attempt <= spec.max_attempts);
                reserved += spec.token_budget;
                running.push(id.clone());
                format!("running {attempt}")
            }
            TaskState::Blocked { question } => {
                assert!(done);
                format!("blocked {question}")
            }
            TaskState::Completed { .. } => {
                assert!(done);
                "completed".to_string()
            }
            TaskState::Failed { error } => {
                assert!(done);
                format!("failed {error}")
            }
            TaskState::Cancelled { reason } => {
                assert!(lost);
                format!("cancelled {reason}")
            }
        };
        let told = reader
            .states
            .get(&id)
            .cloned()
            .unwrap_or_else(|| "pending".to_string());
        assert_eq!(shown, told);
    }
    // Cancelled is exactly what some failed task reaches.
    let ids = sup.dag().tasks.keys();
    for id in &ids {
        let reached = ids.iter().any(|f| {
            matches!(states.get(f), Some(TaskState::Failed { .. }))
                && sup.dag().transitive_dependents(f).contains(id)
        });
        let cancelled = matches!(states.get(id), Some(TaskState::Cancelled { .. }));
        assert_eq!(cancelled, reached);
    }
    assert_eq!(sup.running_tasks(), running);
    assert!(running.len() <= sup.config().max_concurrent);
    let books = gov.snapshot();
    assert_eq!(books.reserved, reserved);
    assert!(books.settled + books.reserved <= books.global_budget);
}

/// Drives the supervisor to completion on a simulated clock. `answer` sees
/// every question and may answer it.
fn drive(
    sup: &mut Supervisor,
    gov: &mut CostGovernor,
    worker: &mut dyn FnMut(&Launch) -> Work,
    answer: &mut dyn FnMut(&str, &str) -> Option<String>,
) -> Run {
    let tick_ms = sup.config().tick_ms;
    let mut now_ms: u64 = 0;
    let mut next_tick: u64 = tick_ms;
    let mut under_way: BTreeMap<String, Attempt> = BTreeMap::new();
    let mut events: Vec<RuntimeEvent> = Vec::new();
    let mut event = RunEvent::Wake;
    let mut reader = Reader {
        states: BTreeMap::new(),
    };
    let mut endings: u32 = 0;
    let mut executions: BTreeMap<String, u32> = BTreeMap::new();
    let mut questions: BTreeMap<String, u32> = BTreeMap::new();
    sup.begin_run();
    loop {
        assert!(now_ms < 100_000, "the run does not end");
        assert!(sup.accepts(&event, now_ms * MS));
        if let RunEvent::Outcome { task, outcome } = &event {
            if matches!(outcome, WorkerOutcome::Blocked { .. }) {
                *questions.entry(task.clone()).or_insert(0) += 1;
            } else {
                endings += 1;
            }
        }
        for task in sup.handle_event(gov, event, now_ms * MS) {
            assert!(under_way.remove(&task).is_some());
        }
        assert!(sup.can_advance());
        let step = sup.advance(gov, now_ms * MS);
        for launch in step.launches {
            *executions.entry(launch.spec.id.clone()).or_insert(0) += 1;
            let end = match worker(&launch) {
                Work::Done(ms, outcome) => Some((now_ms + ms, outcome)),
                Work::Hangs => None,
            };
            let attempt = Attempt {
                heartbeat: Heartbeat::new_at(now_ms),
                end,
            };
            assert!(under_way.insert(launch.spec.id.clone(), attempt).is_none());
        }
        assert_eq!(
            sup.running_tasks(),
            under_way.keys().cloned().collect::<Vec<String>>()
        );
        let news = sup.events();
        news.iter().for_each(|e| reader.read(e));
        check_moment(sup, gov, &reader);
        for e in &news {
            if let RuntimeEvent::TaskBlocked { task, question } = e {
                if let Some(text) = answer(task, question) {
                    assert!(sup.resolve_blocker(task, &text));
                }
            }
        }
        events.extend(news);
        let answered = sup.events();
        answered.iter().for_each(|e| reader.read(e));
        check_moment(sup, gov, &reader);
        events.extend(answered);
        if let Some(report) = step.report {
            assert_eq!(
                report.completed + report.failed + report.cancelled,
                sup.dag().tasks.len()
            );
            let ids = sup.dag().tasks.keys();
            let attempts: u32 = ids
                .iter()
                .map(|id| sup.dag().tasks.get(id).unwrap().max_attempts)
                .sum();
            assert!(endings <= attempts);
            for id in &ids {
                let times = executions.get(id).copied().unwrap_or(0);
                let asked = questions.get(id).copied().unwrap_or(0);
                assert!(times <= sup.dag().tasks.get(id).unwrap().max_attempts + asked);
                if matches!(state(&report, id), TaskState::Cancelled { .. }) {
                    assert_eq!(times, 0);
                }
            }
            assert_eq!(gov.snapshot().reserved, 0);
            return Run {
                report,
                events,
                elapsed_ms: now_ms,
            };
        }
        if sup.take_wake() {
            event = RunEvent::Wake;
            continue;
        }
        let first = under_way
            .iter()
            .filter_map(|(task, a)| a.end.as_ref().map(|(at, _)| (*at, task.clone())))
            .min();
        match first {
            Some((at, task)) if at <= next_tick => {
                now_ms = at;
                let (_, outcome) = under_way.remove(&task).unwrap().end.unwrap();
                event = RunEvent::Outcome { task, outcome };
            }
            _ => {
                now_ms = next_tick;
                next_tick += tick_ms;
                let mut ages: IdMap<u64> = IdMap::new();
                for (task, a) in under_way.iter_mut() {
                    if a.end.is_some() {
                        a.heartbeat.beat_at(now_ms);
                    }
                    ages.insert(task.clone(), a.heartbeat.age_at(now_ms));
                }
                event = RunEvent::Tick { ages };
            }
        }
    }
}

fn unanswered(_task: &str, _question: &str) -> Option<String> {
    None
}

fn success(output: &str, tokens_used: u64) -> WorkerOutcome {
    WorkerOutcome::Success {
        output: output.to_string(),
        tokens_used,
    }
}

fn state<'a>(report: &'a RunReport, task: &str) -> &'a TaskState {
    report.states.get(task).unwrap()
}

#[test]
fn diamond_dag_completes_in_dependency_order() {
    let dag = TaskDag::build(vec![
        TaskSpec::new("a", ""),
        TaskSpec::new("b", "").after("a"),
        TaskSpec::new("c", "").after("a"),
        TaskSpec::new("d", "").after("b").after("c"),
    ])
    .unwrap();

    let mut order: Vec<String> = Vec::new();
    let mut sup = Supervisor::new(dag, fast_config());
    let mut worker = |launch: &Launch| {
        order.push(launch.spec.id.clone());
        Work::Done(0, success(&launch.spec.id, 10))
    };
    let run = drive(&mut sup, &mut governor(), &mut worker, &mut unanswered);

    assert_eq!(run.report.completed, 4);
    assert_eq!(order[0], "a");
    assert_eq!(order[3], "d");
}

#[test]
fn flaky_worker_recovers_via_retry() {
    let dag = TaskDag::build(vec![TaskSpec::new("flaky", "").attempts(3)]).unwrap();
    let mut calls: u32 = 0;
    let mut worker = |_launch: &Launch| {
        calls += 1;
        if calls <= 2 {
            Work::Done(
                0,
                WorkerOutcome::Retryable {
                    error: "transient network failure".into(),
                    tokens_used: 5,
                },
            )
        } else {
            Work::Done(0, success("third time lucky", 5))
        }
    };

    let mut sup = Supervisor::new(dag, fast_config());
    let run = drive(&mut sup, &mut governor(), &mut worker, &mut unanswered);

    assert_eq!(run.report.completed, 1);
    assert_eq!(calls, 3);
}

#[test]
fn attempts_exhausted_fails_and_cancels_dependents() {
    let dag = TaskDag::build(vec![
        TaskSpec::new("doomed", "").attempts(2),
        TaskSpec::new("downstream", "").after("doomed"),
    ])
    .unwrap();

    let mut worker = |_launch: &Launch| {
        Work::Done(
            0,
            WorkerOutcome::Retryable {
                error: "always fails".into(),
                tokens_used: 1,
            },
        )
    };

    let mut sup = Supervisor::new(dag, fast_config());
    let run = drive(&mut sup, &mut governor(), &mut worker, &mut unanswered);

    assert_eq!(run.report.failed, 1);
    assert_eq!(run.report.cancelled, 1);
    assert!(matches!(
        state(&run.report, "downstream"),
        TaskState::Cancelled { .. }
    ));
    assert!(matches!(
        state(&run.report, "doomed"),
        TaskState::Failed { error } if error == "always fails (after 2 attempts)"
    ));
}

#[test]
fn stalled_worker_is_detected_confirmed_and_recovered() {
    let dag = TaskDag::build(vec![TaskSpec::new("sleepy", "").attempts(2)]).unwrap();
    let mut calls: u32 = 0;
    let mut worker = |_launch: &Launch| {
        calls += 1;
        if calls == 1 {
            // First attempt: stop beating forever -> stall.
            Work::Hangs
        } else {
            // Second attempt behaves: beats and succeeds.
            Work::Done(0, success("recovered", 7))
        }
    };

    let mut sup = Supervisor::new(dag, fast_config());
    let run = drive(&mut sup, &mut governor(), &mut worker, &mut unanswered);

    assert_eq!(run.report.completed, 1);
    assert_eq!(calls, 2);

    // The event stream must show suspect -> confirm, not a silent kill.
    let mut saw_suspect = false;
    let mut saw_confirm = false;
    for event in &run.events {
        match event {
            RuntimeEvent::WorkerStallSuspected { .. } => saw_suspect = true,
            RuntimeEvent::WorkerStallConfirmed { .. } => saw_confirm = true,
            _ => {}
        }
    }
    assert!(saw_suspect && saw_confirm);
}

#[test]
fn blocked_task_resumes_with_answer() {
    let dag = TaskDag::build(vec![TaskSpec::new("asker", "")]).unwrap();
    let mut worker = |launch: &Launch| match &launch.answer {
        None => Work::Done(
            0,
            WorkerOutcome::Blocked {
                question: "prod or staging?".into(),
                tokens_used: 3,
            },
        ),
        Some(answer) => Work::Done(0, success(&format!("deployed to {answer}"), 3)),
    };
    let mut resolver = |_task: &str, question: &str| {
        assert_eq!(question, "prod or staging?");
        Some("staging".to_string())
    };

    let mut sup = Supervisor::new(dag, fast_config());
    let run = drive(&mut sup, &mut governor(), &mut worker, &mut resolver);

    assert_eq!(run.report.completed, 1);
    assert!(matches!(
        state(&run.report, "asker"),
        TaskState::Completed { output } if output == "deployed to staging"
    ));
}

#[test]
fn budget_governor_blocks_overspend_and_fails_loudly() {
    // Global budget fits the first task but not the second.
    let dag = TaskDag::build(vec![
        TaskSpec::new("cheap", "").budget(100),
        TaskSpec::new("expensive", "").after("cheap").budget(10_000),
    ])
    .unwrap();
    let mut worker = |launch: &Launch| Work::Done(0, success(&launch.spec.id, 100));

    let mut gov = CostGovernor::new(500);
    let mut sup = Supervisor::new(dag, fast_config());
    let run = drive(&mut sup, &mut gov, &mut worker, &mut unanswered);

    assert_eq!(run.report.completed, 1);
    assert_eq!(run.report.failed, 1);
    assert!(matches!(
        state(&run.report, "expensive"),
        TaskState::Failed { error } if error.contains("budget")
    ));
    assert!(matches!(
        state(&run.report, "expensive"),
        TaskState::Failed { error }
            if error == "budget exhausted: global budget exhausted: requested 10000, available 400"
    ));

    let mut saw_rejection = false;
    for event in &run.events {
        if matches!(event, RuntimeEvent::BudgetRejected { .. }) {
            saw_rejection = true;
        }
    }
    assert!(saw_rejection);
}

#[test]
fn parallel_dispatch_actually_overlaps() {
    // Two independent 100ms tasks under max_concurrent=2 must finish in
    // well under 200ms of serial time.
    let dag = TaskDag::build(vec![TaskSpec::new("p1", ""), TaskSpec::new("p2", "")]).unwrap();
    let mut worker = |launch: &Launch| Work::Done(10 * 10, success(&launch.spec.id, 1));

    let mut sup = Supervisor::new(dag, fast_config());
    let run = drive(&mut sup, &mut governor(), &mut worker, &mut unanswered);

    assert_eq!(run.report.completed, 2);
    let elapsed = run.elapsed_ms;
    assert!(elapsed < 180, "tasks ran serially: {elapsed:?}");
}

#[test]
fn example_workflow_runs_to_completion() {
    // Fast speed so the run is quick; auto-resolve the blocker.
    let speed: f64 = 20.0;
    let mut demo = build_demo_supervisor();
    let mut agents = demo.worker;
    let mut worker = |launch: &Launch| {
        let plan = agents.begin(&launch.spec.id, &launch.answer);
        let mut left = (plan.base_ms as f64 / plan.divisor as f64 / speed) as u64;
        let mut total: u64 = 0;
        while left > 0 {
            let (pause, rest) = next_sleep(left);
            total += pause;
            left = rest;
        }
        Work::Done(total, plan.outcome)
    };
    let mut resolver = |_task: &str, _question: &str| Some("staging".to_string());
    let run = drive(
        &mut demo.supervisor,
        &mut demo.governor,
        &mut worker,
        &mut resolver,
    );

    assert_eq!(run.report.failed, 0, "states: {:?}", run.report.states);
    assert_eq!(run.report.cancelled, 0);
    assert_eq!(run.report.completed, 9);

    // The deploy was approved, the flaky task was retried, and every settled
    // token is on the books.
    assert!(matches!(
        state(&run.report, "deploy_gate"),
        TaskState::Completed { output } if output == "Approved (decision: staging)"
    ));
    assert!(run.events.iter().any(|e| matches!(
        e,
        RuntimeEvent::TaskRetrying { task, attempt: 2, error }
            if task == "frontend" && error == "vite dev-server connection reset"
    )));
    let snap = demo.governor.snapshot();
    assert_eq!(snap.reserved, 0);
    assert_eq!(
        snap.settled,
        3_500 + 22_000 + 14_000 + 84_000 + 30_500 + 61_000 + 38_000 + 250 + 1_000 + 12_000 + 18_000
    );
}

#[test]
fn the_default_configuration() {
    assert_eq!(
        SupervisorConfig::default(),
        SupervisorConfig {
            max_concurrent: 8,
            stall_suspect_ms: 2_000,
            stall_confirm_ms: 1_000,
            retry_backoff_ms: 500,
            tick_ms: 100,
        }
    );
}

#[test]
fn the_cap_on_concurrency_holds() {
    let specs = ["e", "d", "c", "b", "a"];
    let dag = TaskDag::build(specs.iter().map(|id| TaskSpec::new(id, "")).collect()).unwrap();
    let config = SupervisorConfig {
        max_concurrent: 2,
        ..fast_config()
    };
    let mut sup = Supervisor::new(dag, config);
    let mut gov = governor();
    let step = sup.advance(&mut gov, 0);
    let ids: Vec<&str> = step.launches.iter().map(|l| l.spec.id.as_str()).collect();
    assert_eq!(ids, vec!["a", "b"]);
    assert!(sup.advance(&mut gov, 0).launches.is_empty());
    let aborts = sup.handle_event(
        &mut gov,
        RunEvent::Outcome {
            task: "a".into(),
            outcome: success("", 0),
        },
        0,
    );
    assert!(aborts.is_empty());
    let step = sup.advance(&mut gov, 0);
    assert_eq!(step.launches.len(), 1);
    assert_eq!(step.launches[0].spec.id, "c");
    assert!(step.report.is_none());
}

#[test]
fn retries_wait_out_their_backoff() {
    let dag = TaskDag::build(vec![TaskSpec::new("t", "").attempts(3)]).unwrap();
    let mut sup = Supervisor::new(dag, fast_config());
    let mut gov = governor();
    let retryable = || RunEvent::Outcome {
        task: "t".into(),
        outcome: WorkerOutcome::Retryable {
            error: "e".into(),
            tokens_used: 0,
        },
    };
    assert_eq!(sup.advance(&mut gov, 0).launches[0].attempt, 1);
    sup.handle_event(&mut gov, retryable(), 5 * MS);
    // Attempt 2 waits 10 ms, attempt 3 waits 20 ms.
    assert!(sup.advance(&mut gov, 15 * MS - 1).launches.is_empty());
    assert_eq!(sup.advance(&mut gov, 15 * MS).launches[0].attempt, 2);
    sup.handle_event(&mut gov, retryable(), 20 * MS);
    assert!(sup.advance(&mut gov, 40 * MS - 1).launches.is_empty());
    assert_eq!(sup.advance(&mut gov, 40 * MS).launches[0].attempt, 3);
    sup.handle_event(&mut gov, retryable(), 41 * MS);
    let report = sup.advance(&mut gov, 41 * MS).report.unwrap();
    assert_eq!(
        *state(&report, "t"),
        TaskState::Failed {
            error: "e (after 3 attempts)".into()
        }
    );
}

#[test]
fn stalls_need_two_observations() {
    let dag = TaskDag::build(vec![TaskSpec::new("t", "").attempts(1)]).unwrap();
    let mut sup = Supervisor::new(dag, fast_config());
    let mut gov = governor();
    sup.advance(&mut gov, 0);
    let tick = |age: u64| {
        let mut ages: IdMap<u64> = IdMap::new();
        ages.insert("t".into(), age);
        RunEvent::Tick { ages }
    };
    // Stale: suspected. Fresh: cleared. Stale again: suspected anew.
    assert!(sup.handle_event(&mut gov, tick(100), 100 * MS).is_empty());
    assert!(sup.handle_event(&mut gov, tick(99), 160 * MS).is_empty());
    assert!(sup.handle_event(&mut gov, tick(500), 500 * MS).is_empty());
    assert!(sup.handle_event(&mut gov, tick(549), 550 * MS - 1).is_empty());
    assert_eq!(gov.snapshot().reserved, 100_000);
    assert_eq!(
        sup.handle_event(&mut gov, tick(550), 550 * MS),
        vec!["t".to_string()]
    );
    assert_eq!(gov.snapshot().reserved, 0);
    assert_eq!(gov.snapshot().settled, 0);
    let report = sup.advance(&mut gov, 550 * MS).report.unwrap();
    assert_eq!(
        *state(&report, "t"),
        TaskState::Failed {
            error: "worker stalled (no heartbeat) on attempt 1/1".into()
        }
    );
    let kinds: Vec<String> = sup
        .events()
        .iter()
        .map(|e| format!("{e:?}").split(' ').next().unwrap().to_string())
        .collect();
    assert_eq!(
        kinds,
        vec![
            "TaskStarted",
            "WorkerStallSuspected",
            "WorkerStallSuspected",
            "WorkerStallConfirmed",
            "TaskFailed",
            "RunFinished"
        ]
    );
    assert!(sup.events().is_empty());
}

#[test]
fn stalled_tasks_wait_out_their_backoff() {
    let dag = TaskDag::build(vec![TaskSpec::new("t", "").attempts(3)]).unwrap();
    let mut sup = Supervisor::new(dag, fast_config());
    let mut gov = governor();
    let tick = || {
        let mut ages: IdMap<u64> = IdMap::new();
        ages.insert("t".into(), 1_000);
        RunEvent::Tick { ages }
    };
    let mut stall = |sup: &mut Supervisor, gov: &mut CostGovernor, now_ms: u64| {
        assert!(sup.handle_event(gov, tick(), (now_ms - 50) * MS).is_empty());
        let aborts = sup.handle_event(gov, tick(), now_ms * MS);
        assert_eq!(aborts, vec!["t".to_string()]);
    };
    assert_eq!(sup.advance(&mut gov, 0).launches[0].attempt, 1);
    // After the first stall the task waits 10 ms, after the second 20 ms.
    stall(&mut sup, &mut gov, 200);
    assert!(sup.advance(&mut gov, 210 * MS - 1).launches.is_empty());
    assert_eq!(sup.advance(&mut gov, 210 * MS).launches[0].attempt, 2);
    stall(&mut sup, &mut gov, 400);
    assert!(sup.advance(&mut gov, 420 * MS - 1).launches.is_empty());
    assert_eq!(sup.advance(&mut gov, 420 * MS).launches[0].attempt, 3);
    stall(&mut sup, &mut gov, 600);
    let report = sup.advance(&mut gov, 600 * MS).report.unwrap();
    assert_eq!(
        *state(&report, "t"),
        TaskState::Failed {
            error: "worker stalled (no heartbeat) on attempt 3/3".into()
        }
    );
}

#[test]
fn a_stall_has_a_backoff_of_any_length() {
    let dag = TaskDag::build(vec![TaskSpec::new("t", "")]).unwrap();
    let config = SupervisorConfig {
        retry_backoff_ms: u64::MAX,
        ..fast_config()
    };
    let mut sup = Supervisor::new(dag, config);
    let mut gov = governor();
    sup.advance(&mut gov, 0);
    for now_ms in [100, 150] {
        let mut ages: IdMap<u64> = IdMap::new();
        ages.insert("t".into(), now_ms);
        sup.handle_event(&mut gov, RunEvent::Tick { ages }, now_ms * MS);
    }
    assert!(sup.running_tasks().is_empty());
    assert!(sup.advance(&mut gov, u64::MAX).launches.is_empty());
}

#[test]
fn attempts_under_way_go_by_their_number() {
    let dag = TaskDag::build(vec![TaskSpec::new("t", "")]).unwrap();
    let mut sup = Supervisor::new(dag, fast_config());
    let mut gov = governor();
    assert!(!sup.is_under_way("t", 1));
    sup.advance(&mut gov, 0);
    assert!(sup.is_under_way("t", 1));
    assert!(!sup.is_under_way("t", 2));
    assert!(!sup.is_under_way("ghost", 1));
    for now_ms in [100, 150] {
        let mut ages: IdMap<u64> = IdMap::new();
        ages.insert("t".into(), now_ms);
        sup.handle_event(&mut gov, RunEvent::Tick { ages }, now_ms * MS);
    }
    assert!(!sup.is_under_way("t", 1));
    sup.advance(&mut gov, 160 * MS);
    assert!(sup.is_under_way("t", 2) && !sup.is_under_way("t", 1));
}

#[test]
fn reports_can_be_cloned() {
    let dag = TaskDag::build(vec![TaskSpec::new("a", "")]).unwrap();
    let mut sup = Supervisor::new(dag, fast_config());
    let mut worker = |_launch: &Launch| Work::Done(0, success("out", 1));
    let run = drive(&mut sup, &mut governor(), &mut worker, &mut unanswered);
    let copy = run.report.clone();
    assert_eq!(copy.completed, 1);
    assert_eq!(state(&copy, "a"), state(&run.report, "a"));
}

#[test]
fn a_fatal_outcome_fails_at_once_and_spares_independent_tasks() {
    let dag = TaskDag::build(vec![
        TaskSpec::new("bad", ""),
        TaskSpec::new("good", ""),
        TaskSpec::new("left", "").after("bad"),
        TaskSpec::new("lower", "").after("left").after("good"),
    ])
    .unwrap();
    let mut worker = |launch: &Launch| {
        if launch.spec.id == "bad" {
            Work::Done(
                0,
                WorkerOutcome::Fatal {
                    error: "impossible".into(),
                    tokens_used: 4,
                },
            )
        } else {
            Work::Done(5, success("ok", 6))
        }
    };
    let mut gov = governor();
    let mut sup = Supervisor::new(dag, fast_config());
    let run = drive(&mut sup, &mut gov, &mut worker, &mut unanswered);
    assert_eq!(
        (run.report.completed, run.report.failed, run.report.cancelled),
        (1, 1, 2)
    );
    assert_eq!(
        *state(&run.report, "bad"),
        TaskState::Failed {
            error: "impossible".into()
        }
    );
    assert_eq!(
        *state(&run.report, "lower"),
        TaskState::Cancelled {
            reason: "upstream task bad failed".into()
        }
    );
    assert_eq!(gov.snapshot().settled, 10);
    assert_eq!(gov.snapshot().reserved, 0);
}

#[test]
fn a_rejected_budget_waits_while_something_runs() {
    let dag = TaskDag::build(vec![
        TaskSpec::new("first", "").budget(80),
        TaskSpec::new("second", "").budget(60),
    ])
    .unwrap();
    let mut sup = Supervisor::new(dag, fast_config());
    let mut gov = CostGovernor::new(100);
    let step = sup.advance(&mut gov, 0);
    assert_eq!(step.launches.len(), 1);
    assert_eq!(gov.snapshot().available, 20);
    assert!(matches!(
        sup.states().get("second"),
        Some(TaskState::Pending)
    ));
    sup.handle_event(
        &mut gov,
        RunEvent::Outcome {
            task: "first".into(),
            outcome: success("", 30),
        },
        0,
    );
    let step = sup.advance(&mut gov, 0);
    assert_eq!(step.launches[0].spec.id, "second");
    assert!(sup.events().iter().any(|e| matches!(
        e,
        RuntimeEvent::BudgetRejected { task, requested: 60, available: 20 } if task == "second"
    )));
}

#[test]
fn only_blocked_tasks_can_be_resolved() {
    let dag = TaskDag::build(vec![TaskSpec::new("t", "")]).unwrap();
    let mut sup = Supervisor::new(dag, fast_config());
    let mut gov = governor();
    assert!(!sup.resolve_blocker("t", "x"));
    assert!(!sup.resolve_blocker("ghost", "x"));
    sup.advance(&mut gov, 0);
    sup.handle_event(
        &mut gov,
        RunEvent::Outcome {
            task: "t".into(),
            outcome: WorkerOutcome::Blocked {
                question: "why?".into(),
                tokens_used: 0,
            },
        },
        0,
    );
    assert!(sup.take_wake());
    assert!(!sup.take_wake());
    // A blocked task keeps the run alive.
    let step = sup.advance(&mut gov, 0);
    assert!(step.launches.is_empty() && step.report.is_none());
    assert!(sup.resolve_blocker("t", "because"));
    assert!(sup.take_wake());
    assert!(!sup.resolve_blocker("t", "again"));
    let step = sup.advance(&mut gov, 0);
    assert_eq!(step.launches[0].answer.as_deref(), Some("because"));
    // The answer is handed out once.
    sup.handle_event(
        &mut gov,
        RunEvent::Outcome {
            task: "t".into(),
            outcome: WorkerOutcome::Retryable {
                error: "e".into(),
                tokens_used: 0,
            },
        },
        0,
    );
    let step = sup.advance(&mut gov, 10 * MS);
    assert_eq!(step.launches[0].attempt, 2);
    assert_eq!(step.launches[0].answer, None);
}

#[test]
fn events_that_cannot_be_handled_are_not_accepted() {
    let dag = TaskDag::build(vec![TaskSpec::new("t", "")]).unwrap();
    let config = SupervisorConfig {
        retry_backoff_ms: u64::MAX,
        ..fast_config()
    };
    let mut sup = Supervisor::new(dag, config);
    let mut gov = governor();
    sup.advance(&mut gov, 0);
    let retryable = RunEvent::Outcome {
        task: "t".into(),
        outcome: WorkerOutcome::Retryable {
            error: "e".into(),
            tokens_used: 0,
        },
    };
    assert!(sup.accepts(&retryable, 0));
    sup.handle_event(&mut gov, retryable, 0);
    let again = RunEvent::Outcome {
        task: "t".into(),
        outcome: WorkerOutcome::Retryable {
            error: "e".into(),
            tokens_used: 0,
        },
    };
    assert!(!sup.accepts(&again, 0));
    let unknown = RunEvent::Outcome {
        task: "ghost".into(),
        outcome: success("", 0),
    };
    assert!(!sup.accepts(&unknown, 0));
    sup.begin_run();
    assert!(sup.accepts(&RunEvent::Tick { ages: IdMap::new() }, 0));
    assert_eq!(sup.advance(&mut gov, 0).launches[0].attempt, 1);
    assert!(!sup.accepts(&RunEvent::Tick { ages: IdMap::new() }, 0));
    assert!(sup.accepts(&RunEvent::Wake, 0));
}

#[test]
fn a_run_of_nothing_ends_at_once() {
    let dag = TaskDag::build(Vec::new()).unwrap();
    let mut sup = Supervisor::new(dag, fast_config());
    assert!(sup.all_terminal());
    let report = sup.advance(&mut governor(), 0).report.unwrap();
    assert_eq!(
        (report.completed, report.failed, report.cancelled),
        (0, 0, 0)
    );
    assert_eq!(sup.dag().tasks.len(), 0);
    assert_eq!(sup.report().states.len(), 0);
}
