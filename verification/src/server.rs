//! What the live demo server decides: which route a request takes, what the
//! UI is shown of the tasks, and what an answer to a blocker says.
//!
//! Routes:
//!   GET  /             → the single-page demo UI
//!   GET  /api/dag      → the example DAG structure (nodes + edges)
//!   POST /api/run      → start a fresh run (resets state)
//!   GET  /api/events   → SSE stream: runtime events + state snapshots
//!   POST /api/resolve  → answer the pending human-in-the-loop blocker
//!   GET  /healthz      → liveness probe (200 "ok")

use crate::dag::{filed_by_id, TaskDag};
use crate::demo::{DemoNodeMeta, NodeMetaView};
use crate::ids::{IdMap, TaskId};
use crate::model::EventView;
use crate::order::{same_text, sorted_ids, Id};
use crate::supervisor::RuntimeEvent;
use crate::task::{copy_ids, TaskSpecView, TaskState, TaskStateView};
use crate::text::{decimal, decimal_string, join};
use vstd::prelude::*;

verus! {

/// Where a request goes.
#[derive(Debug, Clone, Copy, PartialEq, Eq, Structural)]
pub enum Route {
    Index,
    Health,
    Dag,
    Run,
    Events,
    Resolve,
    NotFound,
}

/// The route of a request.
pub open spec fn route_of(method: Seq<char>, path: Seq<char>) -> Route {
    if method == "GET"@ && path == "/"@ {
        Route::Index
    } else if method == "GET"@ && path == "/healthz"@ {
        Route::Health
    } else if method == "GET"@ && path == "/api/dag"@ {
        Route::Dag
    } else if method == "POST"@ && path == "/api/run"@ {
        Route::Run
    } else if method == "GET"@ && path == "/api/events"@ {
        Route::Events
    } else if method == "POST"@ && path == "/api/resolve"@ {
        Route::Resolve
    } else {
        Route::NotFound
    }
}

/// The route of a request.
pub fn route(method: &str, path: &str) -> (r: Route)
    ensures
        r == route_of(method@, path@),
{
    let get = same_text(method, "GET");
    let post = same_text(method, "POST");
    if get && same_text(path, "/") {
        Route::Index
    } else if get && same_text(path, "/healthz") {
        Route::Health
    } else if get && same_text(path, "/api/dag") {
        Route::Dag
    } else if post && same_text(path, "/api/run") {
        Route::Run
    } else if get && same_text(path, "/api/events") {
        Route::Events
    } else if post && same_text(path, "/api/resolve") {
        Route::Resolve
    } else {
        Route::NotFound
    }
}

/// What the UI is shown of a task.
#[derive(Debug, Clone)]
pub struct NodeState {
    pub id: String,
    /// "pending" | "running" | "blocked" | "completed" | "failed" | "cancelled"
    pub status: String,
    pub detail: String,
}

/// What a [`NodeState`] says, as mathematical values.
pub struct NodeStateView {
    pub id: Id,
    pub status: Seq<char>,
    pub detail: Seq<char>,
}

impl DeepView for NodeState {
    type V = NodeStateView;

    open spec fn deep_view(&self) -> NodeStateView {
        NodeStateView { id: self.id@, status: self.status@, detail: self.detail@ }
    }
}

/// What the UI is shown of the task `id` in the state `st`.
pub open spec fn node_of(id: Id, st: TaskStateView) -> NodeStateView {
    match st {
        TaskStateView::Pending => NodeStateView { id, status: "pending"@, detail: ""@ },
        TaskStateView::Running { attempt } => NodeStateView {
            id,
            status: "running"@,
            detail: "attempt "@ + decimal(attempt as nat),
        },
        TaskStateView::Blocked { question } => NodeStateView { id, status: "blocked"@, detail: question },
        TaskStateView::Completed { output } => NodeStateView { id, status: "completed"@, detail: output },
        TaskStateView::Failed { error } => NodeStateView { id, status: "failed"@, detail: error },
        TaskStateView::Cancelled { reason } => NodeStateView { id, status: "cancelled"@, detail: reason },
    }
}

/// What the UI is shown of the task `id` in the state `st`.
pub fn task_state_to_node(id: &str, st: &TaskState) -> (r: NodeState)
    ensures
        r.deep_view() == node_of(id@, st.deep_view()),
{
    let (status, detail) = match st {
        TaskState::Pending => ("pending", "".to_string()),
        TaskState::Running { attempt } => ("running", join("attempt ", decimal_string(*attempt as u64).as_str())),
        TaskState::Blocked { question } => ("blocked", question.clone()),
        TaskState::Completed { output } => ("completed", output.clone()),
        TaskState::Failed { error } => ("failed", error.clone()),
        TaskState::Cancelled { reason } => ("cancelled", reason.clone()),
    };
    NodeState { id: id.to_string(), status: status.to_string(), detail }
}

/// What the UI is shown of all tasks, in the order of their ids.
pub open spec fn snapshot_of(states: Map<Id, TaskStateView>) -> Seq<NodeStateView> {
    let ids = sorted_ids(states.dom());
    Seq::new(ids.len(), |i: int| node_of(ids[i], states[ids[i]]))
}

/// What the UI is shown of all tasks, in the order of their ids.
pub fn snapshot_from(states: &IdMap<TaskState>) -> (r: Vec<NodeState>)
    ensures
        r.deep_view() == snapshot_of(states@),
{
    let n = states.len();
    let ghost ids = states.ids();
    let mut r: Vec<NodeState> = Vec::new();
    let mut i: usize = 0;
    while i < n
        invariant
            i <= n == ids.len(),
            ids == states.ids(),
            r@.len() == i,
            forall|j: int| 0 <= j < i ==> (#[trigger] r@[j]).deep_view() == node_of(ids[j], states@[ids[j]]),
        decreases n - i,
    {
        r.push(task_state_to_node(states.id_at(i).as_str(), states.value_at(i)));
        i += 1;
    }
    assert(r.deep_view() =~= snapshot_of(states@));
    r
}

/// A task of the DAG as the UI draws it.
#[derive(Debug)]
pub struct DagNode {
    pub id: String,
    pub label: String,
    pub role: String,
    pub depends_on: Vec<TaskId>,
    pub budget: u64,
}

/// What a [`DagNode`] says, as mathematical values.
pub struct DagNodeView {
    pub id: Id,
    pub label: Seq<char>,
    pub role: Seq<char>,
    pub depends_on: Seq<Id>,
    pub budget: u64,
}

impl DeepView for DagNode {
    type V = DagNodeView;

    open spec fn deep_view(&self) -> DagNodeView {
        DagNodeView {
            id: self.id@,
            label: self.label@,
            role: self.role@,
            depends_on: self.depends_on.deep_view(),
            budget: self.budget,
        }
    }
}

/// A task as the UI draws it; one without a label goes by its id, as an agent.
pub open spec fn dag_node_of(spec: TaskSpecView, meta: Map<Id, NodeMetaView>) -> DagNodeView {
    DagNodeView {
        id: spec.id,
        label: if meta.contains_key(spec.id) {
            meta[spec.id].label
        } else {
            spec.id
        },
        role: if meta.contains_key(spec.id) {
            meta[spec.id].role
        } else {
            "agent"@
        },
        depends_on: spec.depends_on,
        budget: spec.token_budget,
    }
}

/// The tasks as the UI draws them, in the order of their ids.
pub open spec fn dag_nodes_of(tasks: Map<Id, TaskSpecView>, meta: Map<Id, NodeMetaView>) -> Seq<DagNodeView> {
    let ids = sorted_ids(tasks.dom());
    Seq::new(ids.len(), |i: int| dag_node_of(tasks[ids[i]], meta))
}

/// The tasks as the UI draws them, in the order of their ids.
pub fn dag_nodes(dag: &TaskDag, meta: &IdMap<DemoNodeMeta>) -> (r: Vec<DagNode>)
    requires
        filed_by_id(dag.tasks@),
    ensures
        r.deep_view() == dag_nodes_of(dag.tasks@, meta@),
{
    let n = dag.tasks.len();
    let ghost ids = dag.tasks.ids();
    let ghost tasks = dag.tasks@;
    let mut r: Vec<DagNode> = Vec::new();
    let mut i: usize = 0;
    while i < n
        invariant
            i <= n == ids.len(),
            ids == dag.tasks.ids(),
            tasks == dag.tasks@,
            r@.len() == i,
            forall|j: int| 0 <= j < i ==> (#[trigger] r@[j]).deep_view() == dag_node_of(tasks[ids[j]], meta@),
        decreases n - i,
    {
        let spec = dag.tasks.value_at(i);
        let (label, role) = match meta.get(spec.id.as_str()) {
            Some(m) => (m.label.to_string(), m.role.to_string()),
            None => (spec.id.clone(), "agent".to_string()),
        };
        r.push(
            DagNode {
                id: spec.id.clone(),
                label,
                role,
                depends_on: copy_ids(&spec.depends_on),
                budget: spec.token_budget,
            },
        );
        i += 1;
    }
    assert(r.deep_view() =~= dag_nodes_of(tasks, meta@));
    r
}

/// One message on the event stream: a decision of the supervisor, the state of
/// every task, or the start of a run.
#[derive(Debug)]
pub enum StreamMsg {
    Event { event: RuntimeEvent },
    Snapshot { tasks: Vec<NodeState> },
    /// A run has begun (clears the UI).
    RunStarted,
}

/// What a [`StreamMsg`] says, as mathematical values.
pub enum StreamMsgView {
    Event { event: EventView },
    Snapshot { tasks: Seq<NodeStateView> },
    RunStarted,
}

impl DeepView for StreamMsg {
    type V = StreamMsgView;

    open spec fn deep_view(&self) -> StreamMsgView {
        match self {
            StreamMsg::Event { event } => StreamMsgView::Event { event: event.deep_view() },
            StreamMsg::Snapshot { tasks } => StreamMsgView::Snapshot { tasks: tasks.deep_view() },
            StreamMsg::RunStarted => StreamMsgView::RunStarted,
        }
    }
}

/// What every client is sent when a run starts.
pub fn run_messages(states: &IdMap<TaskState>) -> (r: Vec<StreamMsg>)
    ensures
        r.deep_view() == seq![
            StreamMsgView::RunStarted,
            StreamMsgView::Snapshot { tasks: snapshot_of(states@) },
        ],
{
    let mut r: Vec<StreamMsg> = Vec::new();
    r.push(StreamMsg::RunStarted);
    r.push(StreamMsg::Snapshot { tasks: snapshot_from(states) });
    assert(r.deep_view() =~= seq![
        StreamMsgView::RunStarted,
        StreamMsgView::Snapshot { tasks: snapshot_of(states@) },
    ]);
    r
}

/// What every client is sent for an event: the event, and a fresh snapshot, so
/// that the UI is always consistent.
pub fn event_messages(event: RuntimeEvent, states: &IdMap<TaskState>) -> (r: Vec<StreamMsg>)
    ensures
        r.deep_view() == seq![
            StreamMsgView::Event { event: event.deep_view() },
            StreamMsgView::Snapshot { tasks: snapshot_of(states@) },
        ],
{
    let ghost told = event.deep_view();
    let mut r: Vec<StreamMsg> = Vec::new();
    r.push(StreamMsg::Event { event });
    r.push(StreamMsg::Snapshot { tasks: snapshot_from(states) });
    assert(r.deep_view() =~= seq![
        StreamMsgView::Event { event: told },
        StreamMsgView::Snapshot { tasks: snapshot_of(states@) },
    ]);
    r
}

/// What a client is sent on connect: a snapshot, once there is a run.
pub fn connect_messages(states: Option<&IdMap<TaskState>>) -> (r: Vec<StreamMsg>)
    ensures
        r.deep_view() == match states {
            Some(states) => seq![StreamMsgView::Snapshot { tasks: snapshot_of(states@) }],
            None => Seq::<StreamMsgView>::empty(),
        },
{
    let mut r: Vec<StreamMsg> = Vec::new();
    if let Some(states) = states {
        r.push(StreamMsg::Snapshot { tasks: snapshot_from(states) });
        assert(r.deep_view() =~= seq![StreamMsgView::Snapshot { tasks: snapshot_of(states@) }]);
    } else {
        assert(r.deep_view() =~= Seq::<StreamMsgView>::empty());
    }
    r
}

/// One message on the event stream, framed for the browser.
pub fn sse_frame(json: &str) -> (r: String)
    ensures
        r@ == "data: "@ + json@ + "\n\n"@,
{
    join("data: ", json).concat("\n\n")
}

/// Whether the event is the last of its run.
pub fn ends_run(event: &RuntimeEvent) -> (r: bool)
    ensures
        r == event.deep_view() is RunFinished,
{
    match event {
        RuntimeEvent::RunFinished { .. } => true,
        _ => false,
    }
}

/// An answer to a blocked task.
#[derive(Debug)]
pub struct ResolveRequest {
    pub task: String,
    pub answer: String,
}

/// What a [`ResolveRequest`] says, as mathematical values.
pub struct ResolveRequestView {
    pub task: Id,
    pub answer: Seq<char>,
}

impl View for ResolveRequest {
    type V = ResolveRequestView;

    open spec fn view(&self) -> ResolveRequestView {
        ResolveRequestView { task: self.task@, answer: self.answer@ }
    }
}

/// The text that a body of JSON holds under a key of its top-level object, if
/// it is JSON, an object, and holds a string there.
pub uninterp spec fn json_text_field(body: Seq<u8>, key: Seq<char>) -> Option<Seq<char>>;

/// `serde_json::from_slice` into a `serde_json::Value`, then `Value::get` and
/// `Value::as_str`. What comes out depends on the body and the key alone; a
/// body that does not parse, an empty one among them, holds no field.
#[verifier::external_body]
fn text_field(body: &[u8], key: &str) -> (r: Option<String>)
    ensures
        r.deep_view() == json_text_field(body@, key@),
        body@.len() == 0 ==> r is None,
{
    let parsed: serde_json::Value = serde_json::from_slice(body).unwrap_or_default();
    parsed.get(key).and_then(|v| v.as_str()).map(|s| s.to_string())
}

/// The answer that the two fields of a request give: no task where none is
/// named, and staging where no answer is.
pub open spec fn request_of(task: Option<Seq<char>>, answer: Option<Seq<char>>) -> ResolveRequestView {
    ResolveRequestView {
        task: match task {
            Some(task) => task,
            None => ""@,
        },
        answer: match answer {
            Some(answer) => answer,
            None => "staging"@,
        },
    }
}

/// The answer that the two fields of a request give.
pub fn resolve_request(task: Option<String>, answer: Option<String>) -> (r: ResolveRequest)
    ensures
        r@ == request_of(task.deep_view(), answer.deep_view()),
{
    ResolveRequest {
        task: match task {
            Some(task) => task,
            None => "".to_string(),
        },
        answer: match answer {
            Some(answer) => answer,
            None => "staging".to_string(),
        },
    }
}

/// The answer that the body of a request gives.
pub fn parse_resolve_request(body: &[u8]) -> (r: ResolveRequest)
    ensures
        r@ == request_of(json_text_field(body@, "task"@), json_text_field(body@, "answer"@)),
        body@.len() == 0 ==> r@ == request_of(None, None),
{
    resolve_request(text_field(body, "task"), text_field(body, "answer"))
}

} // verus!
