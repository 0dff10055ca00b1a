//! Laws of the live demo: how its agents behave, what its workflow waits for,
//! and what its visitors are shown.

use crate::dag::{completed, is_ready, tasks_by_id};
use crate::demo::{
    demo_settings, example_meta, example_script_views, example_specs, lemma_example_in_order,
    DemoNodeMeta, DemoPlan, DemoWorkerView, NodeMetaView, Script, ScriptView,
};
use crate::meanings::{sets_are_listed_whole_and_in_order, specs_are_filed_under_their_ids};
use crate::model::liveness;
use crate::order::{id_lt, sorted_ids, Id};
use crate::server::{
    dag_nodes_of, node_of, request_of, route_of, snapshot_of, DagNode, NodeState, ResolveRequest,
    StreamMsg, StreamMsgView,
};
use crate::task::{TaskSpecView, TaskStateView};
use crate::text::decimal;
use crate::worker::OutcomeView;
use vstd::prelude::*;

verus! {

/// An agent with a question raises it on every run until it has an answer. It
/// has then worked half a second, and spent a quarter of its tokens.
pub proof fn agent_asks_until_answered(script: ScriptView, run: u32, answer: Option<Seq<char>>)
    ensures
        ({
            let plan = script.plan(run, answer);
            &&& plan.outcome is Blocked <==> script.blocks_with is Some && answer is None
            &&& plan.outcome matches OutcomeView::Blocked { question, tokens_used } ==> {
                &&& Some(question) == script.blocks_with
                &&& 4 * tokens_used <= script.tokens < 4 * tokens_used + 4
                &&& plan.base_ms == 500 && plan.divisor == 1
            }
        }),
{
}

/// A flaky agent that does not ask fails its first run, and no other, with its
/// error: halfway through its work, with half of its tokens spent.
pub proof fn flaky_agent_fails_its_first_run(script: ScriptView, run: u32, answer: Option<Seq<char>>)
    ensures
        ({
            let plan = script.plan(run, answer);
            let asks = script.blocks_with is Some && answer is None;
            &&& plan.outcome is Retryable <==> !asks && script.flaky_once is Some && run == 0
            &&& plan.outcome matches OutcomeView::Retryable { error, tokens_used } ==> {
                &&& Some(error) == script.flaky_once
                &&& 2 * tokens_used <= script.tokens < 2 * tokens_used + 2
                &&& plan.base_ms == script.duration_ms && plan.divisor == 2
            }
            &&& !(plan.outcome is Fatal)
        }),
{
}

/// In every other run the agent succeeds with its output, after all its work
/// and with all its tokens spent; an answer is part of the output.
pub proof fn agent_succeeds_with_its_output(script: ScriptView, run: u32, answer: Option<Seq<char>>)
    requires
        script.blocks_with is None || answer is Some,
        script.flaky_once is None || run > 0,
    ensures
        ({
            let plan = script.plan(run, answer);
            &&& plan.base_ms == script.duration_ms && plan.divisor == 1
            &&& plan.outcome matches OutcomeView::Success { output, tokens_used } && tokens_used == script.tokens && (
            answer is None ==> output == script.output) && (answer matches Some(a) ==> output == script.output
                + " (decision: "@ + a + ")"@)
        }),
{
}

/// A script is made of its parts: it neither fails nor asks unless told to, and
/// being told one leaves the rest alone.
pub proof fn scripts_are_made_of_their_parts(
    script: ScriptView,
    duration_ms: u64,
    tokens: u64,
    output: Seq<char>,
    text: Seq<char>,
)
    ensures
        ({
            let w = ScriptView::work(duration_ms, tokens, output);
            &&& w.duration_ms == duration_ms && w.tokens == tokens && w.output == output
            &&& w.flaky_once is None && w.blocks_with is None
        }),
        ({
            let q = ScriptView::quick(output);
            &&& q.duration_ms == 1_400 && q.tokens == 1_000 && q.output == output
            &&& q.flaky_once is None && q.blocks_with is None
        }),
        ({
            let f = script.flaky(text);
            &&& f.flaky_once == Some(text) && f.blocks_with == script.blocks_with
            &&& f.duration_ms == script.duration_ms && f.tokens == script.tokens && f.output == script.output
        }),
        ({
            let b = script.blocks(text);
            &&& b.blocks_with == Some(text) && b.flaky_once == script.flaky_once
            &&& b.duration_ms == script.duration_ms && b.tokens == script.tokens && b.output == script.output
        }),
{
}

/// An agent follows the script of its task, and does quick work where there is
/// none; a task without runs on record has not run.
pub proof fn agent_follows_the_script_of_its_task(worker: DemoWorkerView, task: Id)
    ensures
        worker.scripts.contains_key(task) ==> worker.script(task) == worker.scripts[task],
        !worker.scripts.contains_key(task) ==> {
            &&& worker.script(task).output == "done"@
            &&& worker.script(task).duration_ms == 1_400 && worker.script(task).tokens == 1_000
            &&& worker.script(task).flaky_once is None && worker.script(task).blocks_with is None
        },
        worker.runs.contains_key(task) ==> worker.runs_of(task) == worker.runs[task],
        !worker.runs.contains_key(task) ==> worker.runs_of(task) == 0,
{
}

/// A task of the example with these dependencies may start if and only if it
/// waits and they have completed.
spec fn waits_for(states: Map<Id, TaskStateView>, id: Id, deps: Seq<Id>) -> bool {
    is_ready(tasks_by_id(example_specs()), states, id) <==> states.contains_key(id) && states[id] is Pending && forall|
        i: int,
    |
        0 <= i < deps.len() ==> states.contains_key(#[trigger] deps[i]) && states[deps[i]] is Completed
}

proof fn lemma_waits_for(states: Map<Id, TaskStateView>, n: int)
    requires
        0 <= n < example_specs().len(),
    ensures
        waits_for(states, example_specs()[n].id, example_specs()[n].depends_on),
{
    let specs = example_specs();
    lemma_example_in_order();
    specs_are_filed_under_their_ids(specs, n, specs[n].id);
    let tasks = tasks_by_id(specs);
    let id = specs[n].id;
    let deps = specs[n].depends_on;
    assert(tasks[id].depends_on == deps);
    if states.contains_key(id) && states[id] is Pending && forall|i: int|
        0 <= i < deps.len() ==> states.contains_key(#[trigger] deps[i]) && states[deps[i]] is Completed {
        assert forall|i: int| 0 <= i < deps.len() implies completed(
            states,
            #[trigger] tasks[id].depends_on[i],
        ) by {
            assert(states.contains_key(deps[i]));
        }
    }
    if is_ready(tasks, states, id) {
        assert forall|i: int| 0 <= i < deps.len() implies states.contains_key(#[trigger] deps[i])
            && states[deps[i]] is Completed by {
            assert(completed(states, tasks[id].depends_on[i]));
        }
    }
}

/// The example workflow in any state: research and schema wait for the intake,
/// the backend for both, the frontend for the schema, the tests for backend and
/// frontend, and then the approval, the deployment and its check for one
/// another.
pub proof fn example_waits_for_its_dependencies(states: Map<Id, TaskStateView>)
    ensures
        ({
            let waits = |id: Id| states.contains_key(id) && states[id] is Pending;
            let done = |id: Id| states.contains_key(id) && states[id] is Completed;
            let may_start = |id: Id| is_ready(tasks_by_id(example_specs()), states, id);
            &&& may_start("intake"@) <==> waits("intake"@)
            &&& may_start("research"@) <==> waits("research"@) && done("intake"@)
            &&& may_start("schema"@) <==> waits("schema"@) && done("intake"@)
            &&& may_start("backend"@) <==> waits("backend"@) && done("schema"@) && done("research"@)
            &&& may_start("frontend"@) <==> waits("frontend"@) && done("schema"@)
            &&& may_start("tests"@) <==> waits("tests"@) && done("backend"@) && done("frontend"@)
            &&& may_start("deploy_gate"@) <==> waits("deploy_gate"@) && done("tests"@)
            &&& may_start("deploy"@) <==> waits("deploy"@) && done("deploy_gate"@)
            &&& may_start("verify"@) <==> waits("verify"@) && done("deploy"@)
        }),
{
    let specs = example_specs();
    assert(specs.len() == 9);
    assert forall|n: int| 0 <= n < 9 implies waits_for(states, (#[trigger] specs[n]).id, specs[n].depends_on) by {
        lemma_waits_for(states, n);
    }
    assert(waits_for(states, specs[0].id, specs[0].depends_on));
    assert(waits_for(states, specs[1].id, specs[1].depends_on) && specs[1].depends_on[0] == "intake"@);
    assert(waits_for(states, specs[2].id, specs[2].depends_on) && specs[2].depends_on[0] == "intake"@);
    assert(waits_for(states, specs[3].id, specs[3].depends_on) && specs[3].depends_on[0] == "schema"@
        && specs[3].depends_on[1] == "research"@);
    assert(waits_for(states, specs[4].id, specs[4].depends_on) && specs[4].depends_on[0] == "schema"@);
    assert(waits_for(states, specs[5].id, specs[5].depends_on) && specs[5].depends_on[0] == "backend"@
        && specs[5].depends_on[1] == "frontend"@);
    assert(waits_for(states, specs[6].id, specs[6].depends_on) && specs[6].depends_on[0] == "tests"@);
    assert(waits_for(states, specs[7].id, specs[7].depends_on) && specs[7].depends_on[0] == "deploy_gate"@);
    assert(waits_for(states, specs[8].id, specs[8].depends_on) && specs[8].depends_on[0] == "deploy"@);
}

/// Of the example agents only the frontend fails at first, only the approval
/// asks, and none spends more than its task may.
pub proof fn example_agents_behave(id: Id)
    requires
        tasks_by_id(example_specs()).contains_key(id),
    ensures
        ({
            let script = example_script_views()[id];
            &&& script.flaky_once is Some <==> id == "frontend"@
            &&& script.blocks_with is Some <==> id == "deploy_gate"@
            &&& script.blocks_with matches Some(question) ==> question == "Deploy to prod or staging?"@
            &&& script.flaky_once matches Some(error) ==> error == "vite dev-server connection reset"@
            &&& script.tokens <= tasks_by_id(example_specs())[id].token_budget
        }),
{
    let specs = example_specs();
    lemma_example_in_order();
    specs_are_filed_under_their_ids(specs, 0, id);
    let n = choose|n: int| 0 <= n < specs.len() && (#[trigger] specs[n]).id == id && specs[n] == tasks_by_id(specs)[id];
    assert(specs.len() == 9);
    reveal_strlit("intake");
    reveal_strlit("research");
    reveal_strlit("schema");
    reveal_strlit("backend");
    reveal_strlit("frontend");
    reveal_strlit("tests");
    reveal_strlit("deploy_gate");
    reveal_strlit("deploy");
    reveal_strlit("verify");
    assert("intake"@[0] != "schema"@[0] && "intake"@[0] != "deploy"@[0] && "intake"@[0] != "verify"@[0]);
    assert("schema"@[0] != "deploy"@[0] && "schema"@[0] != "verify"@[0] && "deploy"@[0] != "verify"@[0]);
    assert("research"@[0] != "frontend"@[0]);
    assert("intake"@.len() == 6 && "research"@.len() == 8 && "schema"@.len() == 6 && "backend"@.len() == 7);
    assert("frontend"@.len() == 8 && "tests"@.len() == 5 && "deploy_gate"@.len() == 11 && "deploy"@.len() == 6);
    assert("verify"@.len() == 6);
    let scripts = example_script_views();
    if n == 0 {
        assert(scripts["intake"@].tokens == 3_500);
    } else if n == 1 {
        assert(scripts["research"@].tokens == 22_000);
    } else if n == 2 {
        assert(scripts["schema"@].tokens == 14_000);
    } else if n == 3 {
        assert(scripts["backend"@].tokens == 84_000);
    } else if n == 4 {
        assert(scripts["frontend"@].tokens == 61_000);
    } else if n == 5 {
        assert(scripts["tests"@].tokens == 38_000);
    } else if n == 6 {
        assert(scripts["deploy_gate"@].tokens == 1_000);
    } else if n == 7 {
        assert(scripts["deploy"@].tokens == 12_000);
    } else {
        assert(scripts["verify"@].tokens == 18_000);
    }
}

/// The task, its drawing and its agent are what the arguments say.
pub open spec fn is_cast(
    id: Id,
    payload: Seq<char>,
    token_budget: u64,
    label: Seq<char>,
    role: Seq<char>,
    duration_ms: u64,
    tokens: u64,
    output: Seq<char>,
) -> bool {
    let task = tasks_by_id(example_specs())[id];
    let meta = example_meta()[id];
    let script = example_script_views()[id];
    &&& tasks_by_id(example_specs()).contains_key(id)
    &&& example_meta().contains_key(id)
    &&& example_script_views().contains_key(id)
    &&& task.payload == payload && task.token_budget == token_budget && task.max_attempts == 3
    &&& meta.label == label && meta.role == role
    &&& script.duration_ms == duration_ms && script.tokens == tokens && script.output == output
}

/// The cast of the example: every task with what it is to do and may spend, how
/// it is drawn, and how long its agent works, what it spends and says.
pub proof fn example_is_cast_in_full(id: Id)
    ensures
        tasks_by_id(example_specs()).contains_key(id) <==> {
            ||| id == "intake"@
            ||| id == "research"@
            ||| id == "schema"@
            ||| id == "backend"@
            ||| id == "frontend"@
            ||| id == "tests"@
            ||| id == "deploy_gate"@
            ||| id == "deploy"@
            ||| id == "verify"@
        },
        is_cast(
            "intake"@,
            "Parse the feature request into an actionable spec"@,
            8_000,
            "Intake & Spec"@,
            "planner"@,
            1_300,
            3_500,
            "Spec: add CSV export to reports"@,
        ),
        is_cast(
            "research"@,
            "Gather prior art and reference implementations"@,
            40_000,
            "Research Sources"@,
            "researcher"@,
            2_600,
            22_000,
            "Found 3 reference exporters; chose streaming approach"@,
        ),
        is_cast(
            "schema"@,
            "Design the data schema and API contract"@,
            30_000,
            "Design Schema"@,
            "architect"@,
            2_100,
            14_000,
            "Schema + OpenAPI contract drafted"@,
        ),
        is_cast(
            "backend"@,
            "Implement the backend service"@,
            120_000,
            "Build Backend"@,
            "engineer"@,
            3_200,
            84_000,
            "Export endpoint + streaming writer implemented"@,
        ),
        is_cast(
            "frontend"@,
            "Implement the frontend UI"@,
            90_000,
            "Build Frontend"@,
            "engineer"@,
            2_800,
            61_000,
            "Export button + progress UI wired"@,
        ),
        is_cast(
            "tests"@,
            "Write and run the integration test suite"@,
            60_000,
            "Write & Run Tests"@,
            "qa"@,
            2_400,
            38_000,
            "14 tests written, all green"@,
        ),
        is_cast(
            "deploy_gate"@,
            "Get human approval for the deploy target"@,
            4_000,
            "Deploy Approval"@,
            "release-mgr"@,
            1_400,
            1_000,
            "Approved"@,
        ),
        is_cast(
            "deploy"@,
            "Deploy the build to the chosen environment"@,
            20_000,
            "Deploy to Prod"@,
            "release-mgr"@,
            1_900,
            12_000,
            "Build shipped, systemd restarted"@,
        ),
        is_cast(
            "verify"@,
            "Run end-to-end checks against the live deployment"@,
            30_000,
            "E2E Verify"@,
            "qa"@,
            2_000,
            18_000,
            "Health 200; E2E export smoke-test passed"@,
        ),
{
    let specs = example_specs();
    lemma_example_in_order();
    assert(specs.len() == 9);
    assert forall|n: int| 0 <= n < 9 implies tasks_by_id(specs).contains_key((#[trigger] specs[n]).id) && tasks_by_id(
        specs,
    )[specs[n].id] == specs[n] by {
        specs_are_filed_under_their_ids(specs, n, id);
    }
    specs_are_filed_under_their_ids(specs, 0, id);
    assert(specs[0].id == "intake"@);
    assert(specs[1].id == "research"@);
    assert(specs[2].id == "schema"@);
    assert(specs[3].id == "backend"@);
    assert(specs[4].id == "frontend"@);
    assert(specs[5].id == "tests"@);
    assert(specs[6].id == "deploy_gate"@);
    assert(specs[7].id == "deploy"@);
    assert(specs[8].id == "verify"@);
    reveal_strlit("intake");
    reveal_strlit("research");
    reveal_strlit("schema");
    reveal_strlit("backend");
    reveal_strlit("frontend");
    reveal_strlit("tests");
    reveal_strlit("deploy_gate");
    reveal_strlit("deploy");
    reveal_strlit("verify");
    assert("intake"@[0] != "schema"@[0] && "intake"@[0] != "deploy"@[0] && "intake"@[0] != "verify"@[0]);
    assert("schema"@[0] != "deploy"@[0] && "schema"@[0] != "verify"@[0] && "deploy"@[0] != "verify"@[0]);
    assert("research"@[0] != "frontend"@[0]);
    assert("intake"@.len() == 6 && "research"@.len() == 8 && "schema"@.len() == 6 && "backend"@.len() == 7);
    assert("frontend"@.len() == 8 && "tests"@.len() == 5 && "deploy_gate"@.len() == 11 && "deploy"@.len() == 6);
    assert("verify"@.len() == 6);
}

/// Every route has its own method and path, and all other requests find
/// nothing.
pub proof fn every_route_has_its_request(method: Seq<char>, path: Seq<char>)
    ensures
        ({
            let r = route_of(method, path);
            let get = method == "GET"@;
            let post = method == "POST"@;
            &&& r is Index <==> get && path == "/"@
            &&& r is Health <==> get && path == "/healthz"@
            &&& r is Dag <==> get && path == "/api/dag"@
            &&& r is Run <==> post && path == "/api/run"@
            &&& r is Events <==> get && path == "/api/events"@
            &&& r is Resolve <==> post && path == "/api/resolve"@
        }),
{
    reveal_strlit("GET");
    reveal_strlit("POST");
    reveal_strlit("/");
    reveal_strlit("/healthz");
    reveal_strlit("/api/dag");
    reveal_strlit("/api/run");
    reveal_strlit("/api/events");
    reveal_strlit("/api/resolve");
    assert("GET"@.len() != "POST"@.len());
    assert("/healthz"@[1] != "/api/dag"@[1]);
    assert("/"@.len() == 1 && "/healthz"@.len() == 8 && "/api/dag"@.len() == 8 && "/api/events"@.len() == 11);
    assert("/api/run"@.len() == 8 && "/api/resolve"@.len() == 12);
}

/// A visitor is shown of a task its id, its state, and what there is to say of
/// that state.
pub proof fn visitors_see_what_became_of_a_task(id: Id, state: TaskStateView)
    ensures
        ({
            let node = node_of(id, state);
            &&& node.id == id
            &&& state is Pending ==> node.status == "pending"@ && node.detail.len() == 0
            &&& state matches TaskStateView::Running { attempt } ==> node.status == "running"@ && node.detail
                == "attempt "@ + decimal(attempt as nat)
            &&& state matches TaskStateView::Blocked { question } ==> node.status == "blocked"@ && node.detail
                == question
            &&& state matches TaskStateView::Completed { output } ==> node.status == "completed"@ && node.detail
                == output
            &&& state matches TaskStateView::Failed { error } ==> node.status == "failed"@ && node.detail == error
            &&& state matches TaskStateView::Cancelled { reason } ==> node.status == "cancelled"@ && node.detail
                == reason
        }),
{
    reveal_strlit("");
}

/// A snapshot shows every task once, in id order, and nothing else.
pub proof fn snapshot_shows_every_task_once(states: Map<Id, TaskStateView>, id: Id, i: int, j: int)
    requires
        states.dom().finite(),
    ensures
        ({
            let nodes = snapshot_of(states);
            &&& nodes.len() == states.dom().len()
            &&& 0 <= i < nodes.len() ==> states.contains_key(nodes[i].id) && nodes[i] == node_of(
                nodes[i].id,
                states[nodes[i].id],
            )
            &&& 0 <= i < j < nodes.len() ==> id_lt(nodes[i].id, nodes[j].id)
            &&& states.contains_key(id) ==> exists|n: int| 0 <= n < nodes.len() && (#[trigger] nodes[n]).id == id
        }),
{
    let ids = sorted_ids(states.dom());
    let nodes = snapshot_of(states);
    sets_are_listed_whole_and_in_order(states.dom(), id, i, j);
    if 0 <= i < nodes.len() {
        sets_are_listed_whole_and_in_order(states.dom(), ids[i], i, j);
        assert(ids.contains(ids[i]));
    }
    if states.contains_key(id) {
        assert(states.dom().contains(id));
        let n = choose|n: int| 0 <= n < ids.len() && ids[n] == id;
        assert(nodes[n].id == id);
    }
}

/// The DAG is drawn with every task once, in id order, with its dependencies
/// and its budget; a task without a label goes by its id, as an agent.
pub proof fn drawing_shows_every_task_once(
    tasks: Map<Id, TaskSpecView>,
    meta: Map<Id, NodeMetaView>,
    id: Id,
    i: int,
    j: int,
)
    requires
        tasks.dom().finite(),
        forall|k: Id| #[trigger] tasks.contains_key(k) ==> tasks[k].id == k,
    ensures
        ({
            let nodes = dag_nodes_of(tasks, meta);
            let node = nodes[i];
            &&& nodes.len() == tasks.dom().len()
            &&& 0 <= i < nodes.len() ==> {
                &&& tasks.contains_key(node.id)
                &&& node.depends_on == tasks[node.id].depends_on
                &&& node.budget == tasks[node.id].token_budget
                &&& meta.contains_key(node.id) ==> node.label == meta[node.id].label && node.role
                    == meta[node.id].role
                &&& !meta.contains_key(node.id) ==> node.label == node.id && node.role == "agent"@
            }
            &&& 0 <= i < j < nodes.len() ==> id_lt(nodes[i].id, nodes[j].id)
            &&& tasks.contains_key(id) ==> exists|n: int| 0 <= n < nodes.len() && (#[trigger] nodes[n]).id == id
        }),
{
    let ids = sorted_ids(tasks.dom());
    let nodes = dag_nodes_of(tasks, meta);
    sets_are_listed_whole_and_in_order(tasks.dom(), id, i, j);
    if 0 <= i < nodes.len() {
        sets_are_listed_whole_and_in_order(tasks.dom(), ids[i], i, j);
        assert(ids.contains(ids[i]));
        assert(tasks.contains_key(ids[i]));
    }
    if 0 <= j < nodes.len() {
        sets_are_listed_whole_and_in_order(tasks.dom(), ids[j], i, j);
        assert(ids.contains(ids[j]));
        assert(tasks.contains_key(ids[j]));
    }
    if tasks.contains_key(id) {
        assert(tasks.dom().contains(id));
        let n = choose|n: int| 0 <= n < ids.len() && ids[n] == id;
        assert(nodes[n].id == id);
    }
}

/// An answer is taken as given, for the task that is named; without an answer
/// it is staging, and without a task it is for none.
pub proof fn answers_are_taken_as_given(task: Option<Seq<char>>, answer: Option<Seq<char>>)
    ensures
        task matches Some(t) ==> request_of(task, answer).task == t,
        task is None ==> request_of(task, answer).task.len() == 0,
        answer matches Some(a) ==> request_of(task, answer).answer == a,
        answer is None ==> request_of(task, answer).answer == "staging"@,
{
    reveal_strlit("");
}

/// The demo never flags an agent that beats within six seconds, and gives none
/// up in the three seconds after it came under suspicion.
pub proof fn demo_is_patient(age_ms: u64, suspected_at: Option<u64>, now_ns: u64)
    ensures
        ({
            let found = liveness(demo_settings(), age_ms, suspected_at, now_ns);
            &&& found is Alive <==> age_ms < 6_000
            &&& suspected_at is None ==> !(found is Stalled)
            &&& suspected_at matches Some(since) ==> now_ns < since + 3_000_000_000 ==> !(found is Stalled)
        }),
        demo_settings().max_concurrent == 4,
        demo_settings().retry_backoff_ms == 600,
        demo_settings().tick_ms == 200,
{
}

/// What visitors are shown is seen field by field.
pub proof fn shown_values_are_seen_whole(
    node: NodeState,
    drawn: DagNode,
    request: ResolveRequest,
    meta: DemoNodeMeta,
    msg: StreamMsg,
)
    ensures
        node.deep_view().id == node.id@ && node.deep_view().status == node.status@ && node.deep_view().detail
            == node.detail@,
        drawn.deep_view().id == drawn.id@ && drawn.deep_view().label == drawn.label@ && drawn.deep_view().role
            == drawn.role@,
        drawn.deep_view().depends_on == drawn.depends_on.deep_view() && drawn.deep_view().budget == drawn.budget,
        request@.task == request.task@ && request@.answer == request.answer@,
        meta.deep_view().label == meta.label@ && meta.deep_view().role == meta.role@,
        msg matches StreamMsg::Event { event } ==> msg.deep_view() == (StreamMsgView::Event {
            event: event.deep_view(),
        }),
        msg matches StreamMsg::Snapshot { tasks } ==> msg.deep_view() == (StreamMsgView::Snapshot {
            tasks: tasks.deep_view(),
        }),
        msg is RunStarted ==> msg.deep_view() is RunStarted,
{
}

/// Scripts and plans are seen field by field.
pub proof fn scripts_are_seen_whole(script: Script, plan: DemoPlan)
    ensures
        script.deep_view().duration_ms == script.duration_ms && script.deep_view().tokens == script.tokens,
        script.deep_view().output == script.output@,
        script.flaky_once matches Some(error) ==> script.deep_view().flaky_once == Some(error@),
        script.flaky_once is None ==> script.deep_view().flaky_once is None,
        script.blocks_with matches Some(question) ==> script.deep_view().blocks_with == Some(question@),
        script.blocks_with is None ==> script.deep_view().blocks_with is None,
        plan@.base_ms == plan.base_ms && plan@.divisor == plan.divisor && plan@.outcome == plan.outcome@,
{
}

} // verus!
