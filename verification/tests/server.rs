//! What the demo server decides.

use nexus::dag::TaskDag;
use nexus::demo::{example_dag, node_meta};
use nexus::ids::IdMap;
use nexus::server::{
    connect_messages, dag_nodes, ends_run, event_messages, parse_resolve_request, resolve_request,
    route, run_messages, snapshot_from, sse_frame, task_state_to_node, Route, StreamMsg,
};
use nexus::supervisor::RuntimeEvent;
use nexus::task::{TaskSpec, TaskState};

#[test]
fn routes_of_requests() {
    assert_eq!(route("GET", "/"), Route::Index);
    assert_eq!(route("GET", "/healthz"), Route::Health);
    assert_eq!(route("GET", "/api/dag"), Route::Dag);
    assert_eq!(route("POST", "/api/run"), Route::Run);
    assert_eq!(route("GET", "/api/events"), Route::Events);
    assert_eq!(route("POST", "/api/resolve"), Route::Resolve);
    assert_eq!(route("GET", "/api/run"), Route::NotFound);
    assert_eq!(route("POST", "/"), Route::NotFound);
    assert_eq!(route("get", "/"), Route::NotFound);
    assert_eq!(route("GET", "/api/dag/"), Route::NotFound);
}

#[test]
fn nodes_of_task_states() {
    let show = |st: TaskState| {
        let node = task_state_to_node("t", &st);
        assert_eq!(node.id, "t");
        (node.status, node.detail)
    };
    let pair = |a: &str, b: &str| (a.to_string(), b.to_string());
    assert_eq!(show(TaskState::Pending), pair("pending", ""));
    assert_eq!(
        show(TaskState::Running { attempt: 12 }),
        pair("running", "attempt 12")
    );
    assert_eq!(
        show(TaskState::Blocked {
            question: "q".into()
        }),
        pair("blocked", "q")
    );
    assert_eq!(
        show(TaskState::Completed { output: "o".into() }),
        pair("completed", "o")
    );
    assert_eq!(
        show(TaskState::Failed { error: "e".into() }),
        pair("failed", "e")
    );
    assert_eq!(
        show(TaskState::Cancelled { reason: "r".into() }),
        pair("cancelled", "r")
    );
}

#[test]
fn snapshots_stand_in_id_order() {
    let mut states: IdMap<TaskState> = IdMap::new();
    states.insert("b".into(), TaskState::Pending);
    states.insert("a".into(), TaskState::Running { attempt: 2 });
    let nodes = snapshot_from(&states);
    assert_eq!(nodes.len(), 2);
    assert_eq!(nodes[0].id, "a");
    assert_eq!(nodes[0].detail, "attempt 2");
    assert_eq!(nodes[1].id, "b");
    assert_eq!(nodes[1].status, "pending");
}

#[test]
fn nodes_of_the_example_dag() {
    let nodes = dag_nodes(&example_dag(), &node_meta());
    let ids: Vec<&str> = nodes.iter().map(|n| n.id.as_str()).collect();
    assert_eq!(
        ids,
        vec![
            "backend",
            "deploy",
            "deploy_gate",
            "frontend",
            "intake",
            "research",
            "schema",
            "tests",
            "verify"
        ]
    );
    assert_eq!(nodes[0].label, "Build Backend");
    assert_eq!(nodes[0].role, "engineer");
    assert_eq!(
        nodes[0].depends_on,
        vec!["schema".to_string(), "research".to_string()]
    );
    assert_eq!(nodes[0].budget, 120_000);
}

#[test]
fn a_node_without_meta_goes_by_its_id() {
    let dag = TaskDag::build(vec![TaskSpec::new("solo", "").budget(3)]).unwrap();
    let nodes = dag_nodes(&dag, &node_meta());
    assert_eq!(nodes.len(), 1);
    assert_eq!(nodes[0].label, "solo");
    assert_eq!(nodes[0].role, "agent");
    assert_eq!(nodes[0].budget, 3);
}

#[test]
fn frames_of_the_event_stream() {
    assert_eq!(sse_frame("{\"a\":1}"), "data: {\"a\":1}\n\n");
}

#[test]
fn messages_of_the_event_stream() {
    let mut states: IdMap<TaskState> = IdMap::new();
    states.insert("a".into(), TaskState::Pending);
    let is_snapshot = |msg: &StreamMsg| match msg {
        StreamMsg::Snapshot { tasks } => tasks.len() == 1 && tasks[0].id == "a",
        _ => false,
    };
    let opening = run_messages(&states);
    assert_eq!(opening.len(), 2);
    assert!(matches!(opening[0], StreamMsg::RunStarted));
    assert!(is_snapshot(&opening[1]));
    let told = event_messages(RuntimeEvent::TaskCompleted { task: "a".into() }, &states);
    assert_eq!(told.len(), 2);
    assert!(matches!(
        &told[0],
        StreamMsg::Event { event: RuntimeEvent::TaskCompleted { task } } if task == "a"
    ));
    assert!(is_snapshot(&told[1]));
    assert!(connect_messages(None).is_empty());
    let joined = connect_messages(Some(&states));
    assert_eq!(joined.len(), 1);
    assert!(is_snapshot(&joined[0]));
}

#[test]
fn the_last_event_of_a_run() {
    assert!(ends_run(&RuntimeEvent::RunFinished {
        completed: 1,
        failed: 0,
        cancelled: 0
    }));
    assert!(!ends_run(&RuntimeEvent::TaskCompleted { task: "a".into() }));
}

#[test]
fn answers_have_defaults() {
    let both = resolve_request(Some("t".into()), Some("prod".into()));
    assert_eq!((both.task.as_str(), both.answer.as_str()), ("t", "prod"));
    let none = resolve_request(None, None);
    assert_eq!((none.task.as_str(), none.answer.as_str()), ("", "staging"));
}

#[test]
fn answers_are_read_from_json() {
    let check = |body: &str, task: &str, answer: &str| {
        let r = parse_resolve_request(body.as_bytes());
        assert_eq!((r.task.as_str(), r.answer.as_str()), (task, answer), "{body}");
    };
    check(
        "{\"task\": \"deploy_gate\", \"answer\": \"prod\"}",
        "deploy_gate",
        "prod",
    );
    check("{\"task\": \"a\\u0062\"}", "ab", "staging");
    check("{\"answer\": \"\"}", "", "");
    // Fields of another type, values that are no objects, and what is not
    // JSON at all hold no text.
    check("{\"task\": 7, \"answer\": null}", "", "staging");
    check("[\"task\"]", "", "staging");
    check("{\"task\": \"t\"} trailing", "", "staging");
    check("", "", "staging");
}
