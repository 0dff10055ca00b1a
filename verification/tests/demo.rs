//! The example workflow and its simulated agents.

use nexus::demo::{
    build_demo_supervisor, example_dag, example_scripts, next_sleep, node_meta, plan_run,
    DemoWorker, Script,
};
use nexus::worker::WorkerOutcome;

#[test]
fn example_dag_is_valid_and_has_expected_shape() {
    let dag = example_dag();
    assert_eq!(dag.tasks.len(), 9);
    // intake has two direct dependents: research and schema.
    let deps = dag.dependents.get("intake").cloned().unwrap_or_default();
    assert!(deps.contains(&"research".to_string()));
    assert!(deps.contains(&"schema".to_string()));
    // A failure at intake would cancel everything downstream.
    assert_eq!(dag.transitive_dependents(&"intake".to_string()).len(), 8);
}

#[test]
fn node_meta_covers_every_task() {
    let dag = example_dag();
    let meta = node_meta();
    for id in dag.tasks.keys() {
        assert!(meta.contains_key(&id), "missing meta for {id}");
    }
    assert_eq!(meta.get("deploy_gate").unwrap().label, "Deploy Approval");
    assert_eq!(meta.get("deploy_gate").unwrap().role, "release-mgr");
}

#[test]
fn specs_of_the_example() {
    let dag = example_dag();
    let backend = dag.tasks.get("backend").unwrap();
    assert_eq!(backend.payload, "Implement the backend service");
    assert_eq!(
        backend.depends_on,
        vec!["schema".to_string(), "research".to_string()]
    );
    assert_eq!(backend.token_budget, 120_000);
    assert_eq!(backend.max_attempts, 3);
    let total: u64 = dag
        .tasks
        .keys()
        .iter()
        .map(|id| dag.tasks.get(id).unwrap().token_budget)
        .sum();
    assert_eq!(total, 402_000);
}

#[test]
fn scripts_of_the_example() {
    let scripts = example_scripts();
    assert_eq!(scripts.len(), 9);
    let frontend = scripts.get("frontend").unwrap();
    assert_eq!(frontend.duration_ms, 2_800);
    assert_eq!(frontend.tokens, 61_000);
    assert_eq!(
        frontend.flaky_once,
        Some("vite dev-server connection reset")
    );
    let gate = scripts.get("deploy_gate").unwrap();
    assert_eq!(gate.duration_ms, 1_400);
    assert_eq!(gate.tokens, 1_000);
    assert_eq!(gate.blocks_with, Some("Deploy to prod or staging?"));
}

#[test]
fn agents_follow_their_scripts() {
    let script = Script::work(301, 103, "out").flaky("oops").blocks("which?");
    let plan = plan_run(&script, 0, &None);
    assert_eq!((plan.base_ms, plan.divisor), (500, 1));
    assert!(matches!(
        plan.outcome,
        WorkerOutcome::Blocked { question, tokens_used: 25 } if question == "which?"
    ));
    let plan = plan_run(&script, 0, &Some("a".to_string()));
    assert_eq!((plan.base_ms, plan.divisor), (301, 2));
    assert!(matches!(
        plan.outcome,
        WorkerOutcome::Retryable { error, tokens_used: 51 } if error == "oops"
    ));
    let plan = plan_run(&script, 1, &Some("a".to_string()));
    assert_eq!((plan.base_ms, plan.divisor), (301, 1));
    assert!(matches!(
        plan.outcome,
        WorkerOutcome::Success { output, tokens_used: 103 } if output == "out (decision: a)"
    ));
}

#[test]
fn runs_are_counted_per_task() {
    let mut worker = DemoWorker::new(example_scripts());
    assert!(matches!(
        worker.begin("frontend", &None).outcome,
        WorkerOutcome::Retryable { .. }
    ));
    assert!(matches!(
        worker.begin("frontend", &None).outcome,
        WorkerOutcome::Success { output, .. } if output == "Export button + progress UI wired"
    ));
    // A task without a script is quick.
    let plan = worker.begin("unheard of", &None);
    assert_eq!(plan.base_ms, 1_400);
    assert!(matches!(
        plan.outcome,
        WorkerOutcome::Success { output, tokens_used: 1_000 } if output == "done"
    ));
}

#[test]
fn agents_beat_every_quarter_second() {
    assert_eq!(next_sleep(0), (0, 0));
    assert_eq!(next_sleep(100), (100, 0));
    assert_eq!(next_sleep(250), (250, 0));
    assert_eq!(next_sleep(600), (250, 350));
}

#[test]
fn the_demo_starts_fresh() {
    let demo = build_demo_supervisor();
    let config = demo.supervisor.config();
    assert_eq!(config.max_concurrent, 4);
    assert_eq!(config.stall_suspect_ms, 6_000);
    assert_eq!(config.stall_confirm_ms, 3_000);
    assert_eq!(config.retry_backoff_ms, 600);
    assert_eq!(config.tick_ms, 200);
    assert_eq!(demo.governor.snapshot().available, 500_000);
    assert_eq!(demo.supervisor.states().len(), 9);
    assert!(!demo.supervisor.all_terminal());
}
