//! The built-in example workflow used by the live demo.
//!
//! It is **not** part of the core runtime contract — it exists so a visitor
//! can trigger a realistic multi-agent DAG and watch the supervisor drive it
//! to completion in the browser. The agents are *simulated*: instead of
//! calling a real LLM, an agent sleeps for a scripted duration while beating
//! its heartbeat, then returns a scripted outcome. Every supervisor mechanism
//! — parallel dispatch, retry-with-backoff, human-in-the-loop blockers, and
//! successful completion — is exercised by the example DAG below.

use crate::budget::{CostGovernor, GovernorView};
use crate::dag::{tasks_by_id, unique_ids, TaskDag};
use crate::ids::IdMap;
use crate::laws::{depends_on_earlier, lemma_filed_spec, named_before, specs_in_order_form_a_dag};
use crate::model::SupervisorView;
use crate::order::Id;
use crate::supervisor::{Supervisor, SupervisorConfig};
use crate::task::{TaskSpec, TaskSpecView};
use crate::text::join;
use crate::worker::{OutcomeView, WorkerOutcome};
use vstd::prelude::*;

verus! {

/// How a single demo task should behave when the simulated agent runs it.
#[derive(Debug, Clone, Copy)]
pub struct Script {
    /// Roughly how long the agent "works" (ms). Split into heartbeat steps.
    pub duration_ms: u64,
    /// Simulated tokens spent on a successful run.
    pub tokens: u64,
    /// Human-readable summary the agent "produces".
    pub output: &'static str,
    /// If set, the task fails transiently on its first attempt with this
    /// error, then succeeds — demonstrates evidence-based auto-recovery.
    pub flaky_once: Option<&'static str>,
    /// If set, the task blocks for a human decision on its first attempt,
    /// surfacing this question — demonstrates the blocker mechanism.
    pub blocks_with: Option<&'static str>,
}

/// What a [`Script`] says, as mathematical values.
pub struct ScriptView {
    pub duration_ms: u64,
    pub tokens: u64,
    pub output: Seq<char>,
    pub flaky_once: Option<Seq<char>>,
    pub blocks_with: Option<Seq<char>>,
}

/// The text, where there is one.
pub open spec fn text_of(text: Option<&'static str>) -> Option<Seq<char>> {
    match text {
        Some(text) => Some(text@),
        None => None,
    }
}

impl DeepView for Script {
    type V = ScriptView;

    open spec fn deep_view(&self) -> ScriptView {
        ScriptView {
            duration_ms: self.duration_ms,
            tokens: self.tokens,
            output: self.output@,
            flaky_once: text_of(self.flaky_once),
            blocks_with: text_of(self.blocks_with),
        }
    }
}

impl ScriptView {
    pub open spec fn work(duration_ms: u64, tokens: u64, output: Seq<char>) -> ScriptView {
        ScriptView { duration_ms, tokens, output, flaky_once: None, blocks_with: None }
    }

    pub open spec fn quick(output: Seq<char>) -> ScriptView {
        ScriptView::work(1_400, 1_000, output)
    }

    pub open spec fn flaky(self, error: Seq<char>) -> ScriptView {
        ScriptView { flaky_once: Some(error), ..self }
    }

    pub open spec fn blocks(self, question: Seq<char>) -> ScriptView {
        ScriptView { blocks_with: Some(question), ..self }
    }
}

impl Script {
    pub fn quick(output: &'static str) -> (r: Self)
        ensures
            r.deep_view() == ScriptView::quick(output@),
    {
        Script::work(1_400, 1_000, output)
    }

    pub fn work(duration_ms: u64, tokens: u64, output: &'static str) -> (r: Self)
        ensures
            r.deep_view() == ScriptView::work(duration_ms, tokens, output@),
    {
        Script { duration_ms, tokens, output, flaky_once: None, blocks_with: None }
    }

    pub fn flaky(self, error: &'static str) -> (r: Self)
        ensures
            r.deep_view() == self.deep_view().flaky(error@),
    {
        let mut r = self;
        r.flaky_once = Some(error);
        r
    }

    pub fn blocks(self, question: &'static str) -> (r: Self)
        ensures
            r.deep_view() == self.deep_view().blocks(question@),
    {
        let mut r = self;
        r.blocks_with = Some(question);
        r
    }
}

/// What a simulated agent does with an attempt: it works for `base_ms`
/// divided by `divisor` and by the speed of the demo, then reports `outcome`.
#[derive(Debug)]
pub struct DemoPlan {
    pub base_ms: u64,
    pub divisor: u64,
    pub outcome: WorkerOutcome,
}

/// What a [`DemoPlan`] says, as mathematical values.
pub struct PlanView {
    pub base_ms: u64,
    pub divisor: u64,
    pub outcome: OutcomeView,
}

impl View for DemoPlan {
    type V = PlanView;

    open spec fn view(&self) -> PlanView {
        PlanView { base_ms: self.base_ms, divisor: self.divisor, outcome: self.outcome@ }
    }
}

impl ScriptView {
    /// What the agent does: it raises its question as long as it has no
    /// answer, fails its first run if it is flaky, and succeeds otherwise.
    /// `run` counts the runs of the task from zero.
    pub open spec fn plan(self, run: u32, answer: Option<Seq<char>>) -> PlanView {
        match (self.blocks_with, answer) {
            (Some(question), None) => PlanView {
                base_ms: 500,
                divisor: 1,
                outcome: OutcomeView::Blocked { question, tokens_used: self.tokens / 4 },
            },
            _ => match self.flaky_once {
                Some(error) if run == 0 => PlanView {
                    base_ms: self.duration_ms,
                    divisor: 2,
                    outcome: OutcomeView::Retryable { error, tokens_used: self.tokens / 2 },
                },
                _ => PlanView {
                    base_ms: self.duration_ms,
                    divisor: 1,
                    outcome: OutcomeView::Success {
                        output: match answer {
                            Some(a) => self.output + " (decision: "@ + a + ")"@,
                            None => self.output,
                        },
                        tokens_used: self.tokens,
                    },
                },
            },
        }
    }
}

/// What the agent does with a run of the task.
pub fn plan_run(script: &Script, run: u32, answer: &Option<String>) -> (r: DemoPlan)
    ensures
        r@ == script.deep_view().plan(run, answer.deep_view()),
{
    // Human-in-the-loop: block until answered.
    if let Some(question) = script.blocks_with {
        if answer.is_none() {
            return DemoPlan {
                base_ms: 500,
                divisor: 1,
                outcome: WorkerOutcome::Blocked { question: question.to_string(), tokens_used: script.tokens / 4 },
            };
        }
    }
    // Transient failure on the first run, then recover.
    if let Some(error) = script.flaky_once {
        if run == 0 {
            return DemoPlan {
                base_ms: script.duration_ms,
                divisor: 2,
                outcome: WorkerOutcome::Retryable { error: error.to_string(), tokens_used: script.tokens / 2 },
            };
        }
    }
    let output = match answer {
        Some(a) => join(script.output, " (decision: ").concat(a.as_str()).concat(")"),
        None => script.output.to_string(),
    };
    DemoPlan {
        base_ms: script.duration_ms,
        divisor: 1,
        outcome: WorkerOutcome::Success { output, tokens_used: script.tokens },
    }
}

/// A simulated agent fleet. Each task id maps to a [`Script`]; per-task run
/// counters let "flaky" tasks behave differently on their first run versus
/// their retry.
#[derive(Debug)]
pub struct DemoWorker {
    scripts: IdMap<Script>,
    runs: IdMap<u32>,
}

/// A [`DemoWorker`] as mathematical values.
pub struct DemoWorkerView {
    pub scripts: Map<Id, ScriptView>,
    pub runs: Map<Id, u32>,
}

impl View for DemoWorker {
    type V = DemoWorkerView;

    closed spec fn view(&self) -> DemoWorkerView {
        DemoWorkerView { scripts: self.scripts@, runs: self.runs@ }
    }
}

impl DemoWorkerView {
    /// The script of a task; a task without one is quick.
    pub open spec fn script(self, task: Id) -> ScriptView {
        if self.scripts.contains_key(task) {
            self.scripts[task]
        } else {
            ScriptView::quick("done"@)
        }
    }

    /// How often the task has run, modulo the range of the counter.
    pub open spec fn runs_of(self, task: Id) -> u32 {
        if self.runs.contains_key(task) {
            self.runs[task]
        } else {
            0
        }
    }
}

impl DemoWorker {
    pub fn new(scripts: IdMap<Script>) -> (r: Self)
        ensures
            r@ == (DemoWorkerView { scripts: scripts@, runs: Map::empty() }),
    {
        DemoWorker { scripts, runs: IdMap::new() }
    }

    /// The next run of a task: what its agent does, and one more on its
    /// counter.
    pub fn begin(&mut self, task: &str, answer: &Option<String>) -> (r: DemoPlan)
        ensures
            r@ == old(self)@.script(task@).plan(old(self)@.runs_of(task@), answer.deep_view()),
            final(self)@ == (DemoWorkerView {
                runs: old(self)@.runs.insert(task@, old(self)@.runs_of(task@).wrapping_add(1)),
                ..old(self)@
            }),
    {
        let script: Script = match self.scripts.get(task) {
            Some(script) => *script,
            None => Script::quick("done"),
        };
        let run: u32 = match self.runs.get(task) {
            Some(n) => *n,
            None => 0,
        };
        self.runs.insert(task.to_string(), run.wrapping_add(1));
        plan_run(&script, run, answer)
    }
}

/// How long an agent that has `remaining_ms` of work left sleeps before its
/// next heartbeat, and what is left then.
pub fn next_sleep(remaining_ms: u64) -> (r: (u64, u64))
    ensures
        r.0 == if remaining_ms < 250 {
            remaining_ms
        } else {
            250
        },
        r.0 + r.1 == remaining_ms,
{
    let step: u64 = 250;
    let chunk = if remaining_ms < step {
        remaining_ms
    } else {
        step
    };
    (chunk, remaining_ms - chunk)
}

/// Node metadata for the UI: a label and a short role, keyed by task id.
#[derive(Debug, Clone, Copy)]
pub struct DemoNodeMeta {
    pub label: &'static str,
    pub role: &'static str,
}

/// What a [`DemoNodeMeta`] says, as mathematical values.
pub struct NodeMetaView {
    pub label: Seq<char>,
    pub role: Seq<char>,
}

impl DeepView for DemoNodeMeta {
    type V = NodeMetaView;

    open spec fn deep_view(&self) -> NodeMetaView {
        NodeMetaView { label: self.label@, role: self.role@ }
    }
}

/// The labels and roles of the example tasks.
pub open spec fn example_meta() -> Map<Id, NodeMetaView> {
    Map::empty()
        .insert("intake"@, NodeMetaView { label: "Intake & Spec"@, role: "planner"@ })
        .insert("research"@, NodeMetaView { label: "Research Sources"@, role: "researcher"@ })
        .insert("schema"@, NodeMetaView { label: "Design Schema"@, role: "architect"@ })
        .insert("backend"@, NodeMetaView { label: "Build Backend"@, role: "engineer"@ })
        .insert("frontend"@, NodeMetaView { label: "Build Frontend"@, role: "engineer"@ })
        .insert("tests"@, NodeMetaView { label: "Write & Run Tests"@, role: "qa"@ })
        .insert("deploy_gate"@, NodeMetaView { label: "Deploy Approval"@, role: "release-mgr"@ })
        .insert("deploy"@, NodeMetaView { label: "Deploy to Prod"@, role: "release-mgr"@ })
        .insert("verify"@, NodeMetaView { label: "E2E Verify"@, role: "qa"@ })
}

/// Human-friendly labels for the example DAG, surfaced to the UI.
pub fn node_meta() -> (r: IdMap<DemoNodeMeta>)
    ensures
        r@ == example_meta(),
{
    let mut m: IdMap<DemoNodeMeta> = IdMap::new();
    m.insert("intake".to_string(), DemoNodeMeta { label: "Intake & Spec", role: "planner" });
    m.insert("research".to_string(), DemoNodeMeta { label: "Research Sources", role: "researcher" });
    m.insert("schema".to_string(), DemoNodeMeta { label: "Design Schema", role: "architect" });
    m.insert("backend".to_string(), DemoNodeMeta { label: "Build Backend", role: "engineer" });
    m.insert("frontend".to_string(), DemoNodeMeta { label: "Build Frontend", role: "engineer" });
    m.insert("tests".to_string(), DemoNodeMeta { label: "Write & Run Tests", role: "qa" });
    m.insert("deploy_gate".to_string(), DemoNodeMeta { label: "Deploy Approval", role: "release-mgr" });
    m.insert("deploy".to_string(), DemoNodeMeta { label: "Deploy to Prod", role: "release-mgr" });
    m.insert("verify".to_string(), DemoNodeMeta { label: "E2E Verify", role: "qa" });
    m
}

/// A task of the example, with up to three attempts.
pub open spec fn example_task(id: Id, payload: Seq<char>, depends_on: Seq<Id>, token_budget: u64) -> TaskSpecView {
    TaskSpecView { id, payload, depends_on, token_budget, max_attempts: 3 }
}

/// The example workflow: a realistic "ship a feature" pipeline.
pub open spec fn example_specs() -> Seq<TaskSpecView> {
    seq![
        example_task("intake"@, "Parse the feature request into an actionable spec"@, Seq::empty(), 8_000),
        example_task("research"@, "Gather prior art and reference implementations"@, seq!["intake"@], 40_000),
        example_task("schema"@, "Design the data schema and API contract"@, seq!["intake"@], 30_000),
        example_task("backend"@, "Implement the backend service"@, seq!["schema"@, "research"@], 120_000),
        example_task("frontend"@, "Implement the frontend UI"@, seq!["schema"@], 90_000),
        example_task("tests"@, "Write and run the integration test suite"@, seq!["backend"@, "frontend"@], 60_000),
        example_task("deploy_gate"@, "Get human approval for the deploy target"@, seq!["tests"@], 4_000),
        example_task("deploy"@, "Deploy the build to the chosen environment"@, seq!["deploy_gate"@], 20_000),
        example_task("verify"@, "Run end-to-end checks against the live deployment"@, seq!["deploy"@], 30_000),
    ]
}

/// The specs of the example workflow.
fn example_task_specs() -> (r: Vec<TaskSpec>)
    ensures
        r.deep_view() == example_specs(),
{
    let mut v: Vec<TaskSpec> = Vec::new();
    v.push(TaskSpec::new("intake", "Parse the feature request into an actionable spec").budget(8_000));
    v.push(TaskSpec::new("research", "Gather prior art and reference implementations").after("intake").budget(40_000));
    v.push(TaskSpec::new("schema", "Design the data schema and API contract").after("intake").budget(30_000));
    v.push(TaskSpec::new("backend", "Implement the backend service").after("schema").after("research").budget(120_000));
    v.push(TaskSpec::new("frontend", "Implement the frontend UI").after("schema").budget(90_000).attempts(3));
    v.push(TaskSpec::new("tests", "Write and run the integration test suite").after("backend").after("frontend").budget(60_000));
    v.push(TaskSpec::new("deploy_gate", "Get human approval for the deploy target").after("tests").budget(4_000));
    v.push(TaskSpec::new("deploy", "Deploy the build to the chosen environment").after("deploy_gate").budget(20_000));
    v.push(TaskSpec::new("verify", "Run end-to-end checks against the live deployment").after("deploy").budget(30_000));
    proof {
        let specs = example_specs();
        assert(specs.len() == 9);
        assert forall|i: int| 0 <= i < 9 implies #[trigger] v@[i].deep_view() == specs[i] by {
            assert(v@[i].deep_view() =~= specs[i]);
        }
        assert(v.deep_view() =~= specs);
    }
    v
}

/// The example tasks have ids of their own, and each depends only on earlier
/// ones.
pub proof fn lemma_example_in_order()
    ensures
        unique_ids(example_specs()),
        depends_on_earlier(example_specs()),
{
    let specs = example_specs();
    reveal_strlit("intake");
    reveal_strlit("research");
    reveal_strlit("schema");
    reveal_strlit("backend");
    reveal_strlit("frontend");
    reveal_strlit("tests");
    reveal_strlit("deploy_gate");
    reveal_strlit("deploy");
    reveal_strlit("verify");
    assert forall|i: int, j: int| 0 <= j < i < specs.len() implies specs[i].id != specs[j].id by {
        let a = specs[i].id;
        let b = specs[j].id;
        assert(a.len() != b.len() || a[0] != b[0]);
    }
    assert(specs.len() == 9);
    assert forall|i: int, dep: Id| 0 <= i < specs.len() && #[trigger] specs[i].depends_on.contains(dep) implies
        named_before(specs, i, dep) by {
        let n = choose|n: int| 0 <= n < specs[i].depends_on.len() && specs[i].depends_on[n] == dep;
        assert(specs[0].id == "intake"@);
        assert(specs[1].id == "research"@);
        assert(specs[2].id == "schema"@);
        assert(specs[3].id == "backend"@);
        assert(specs[4].id == "frontend"@);
        assert(specs[5].id == "tests"@);
        assert(specs[6].id == "deploy_gate"@);
        assert(specs[7].id == "deploy"@);
    }
}

/// Build the example workflow: a realistic "ship a feature" pipeline.
///
/// ```text
///                 ┌─ research ─┐
///   intake ──────►│            ├─► backend ─┐
///          └──────►│  schema   │            ├─► tests ─► deploy_gate ─► deploy ─► verify
///                 └────────────┴─► frontend ┘            (blocker)
/// ```
///
/// - `research` and `schema` run in parallel after `intake`.
/// - `backend` and `frontend` run in parallel after `schema`.
/// - `frontend` is **flaky** (transient failure on attempt 1, recovers).
/// - `deploy_gate` is a **blocker** (asks prod/staging; awaits a human).
/// - a permanent failure anywhere would cancel its transitive dependents.
pub fn example_dag() -> (r: TaskDag)
    ensures
        r.tasks@ == tasks_by_id(example_specs()),
        r.valid(),
{
    proof {
        lemma_example_in_order();
        specs_in_order_form_a_dag(example_specs());
    }
    match TaskDag::build(example_task_specs()) {
        Ok(dag) => dag,
        Err(_) => {
            assert(false);
            unreached()
        },
    }
}

/// The scripts of the example tasks.
pub open spec fn example_script_views() -> Map<Id, ScriptView> {
    Map::empty()
        .insert("intake"@, ScriptView::work(1_300, 3_500, "Spec: add CSV export to reports"@))
        .insert("research"@, ScriptView::work(2_600, 22_000, "Found 3 reference exporters; chose streaming approach"@))
        .insert("schema"@, ScriptView::work(2_100, 14_000, "Schema + OpenAPI contract drafted"@))
        .insert("backend"@, ScriptView::work(3_200, 84_000, "Export endpoint + streaming writer implemented"@))
        .insert("frontend"@, ScriptView::work(2_800, 61_000, "Export button + progress UI wired"@).flaky("vite dev-server connection reset"@))
        .insert("tests"@, ScriptView::work(2_400, 38_000, "14 tests written, all green"@))
        .insert("deploy_gate"@, ScriptView::quick("Approved"@).blocks("Deploy to prod or staging?"@))
        .insert("deploy"@, ScriptView::work(1_900, 12_000, "Build shipped, systemd restarted"@))
        .insert("verify"@, ScriptView::work(2_000, 18_000, "Health 200; E2E export smoke-test passed"@))
}

/// The per-task scripts that drive [`DemoWorker`] for the example DAG.
pub fn example_scripts() -> (r: IdMap<Script>)
    ensures
        r@ == example_script_views(),
{
    let mut m: IdMap<Script> = IdMap::new();
    m.insert("intake".to_string(), Script::work(1_300, 3_500, "Spec: add CSV export to reports"));
    m.insert("research".to_string(), Script::work(2_600, 22_000, "Found 3 reference exporters; chose streaming approach"));
    m.insert("schema".to_string(), Script::work(2_100, 14_000, "Schema + OpenAPI contract drafted"));
    m.insert("backend".to_string(), Script::work(3_200, 84_000, "Export endpoint + streaming writer implemented"));
    m.insert("frontend".to_string(), Script::work(2_800, 61_000, "Export button + progress UI wired").flaky("vite dev-server connection reset"));
    m.insert("tests".to_string(), Script::work(2_400, 38_000, "14 tests written, all green"));
    m.insert("deploy_gate".to_string(), Script::quick("Approved").blocks("Deploy to prod or staging?"));
    m.insert("deploy".to_string(), Script::work(1_900, 12_000, "Build shipped, systemd restarted"));
    m.insert("verify".to_string(), Script::work(2_000, 18_000, "Health 200; E2E export smoke-test passed"));
    m
}

/// A supervisor of the example workflow with its books and its agents.
#[derive(Debug)]
pub struct Demo {
    pub supervisor: Supervisor,
    pub governor: CostGovernor,
    pub worker: DemoWorker,
}

/// How the demo is supervised. The liveness windows are generous: the demo
/// never falsely flags a stall.
pub open spec fn demo_settings() -> SupervisorConfig {
    SupervisorConfig {
        max_concurrent: 4,
        stall_suspect_ms: 6_000,
        stall_confirm_ms: 3_000,
        retry_backoff_ms: 600,
        tick_ms: 200,
    }
}

fn demo_config() -> (r: SupervisorConfig)
    ensures
        r == demo_settings(),
{
    SupervisorConfig {
        max_concurrent: 4,
        stall_suspect_ms: 6_000,
        stall_confirm_ms: 3_000,
        retry_backoff_ms: 600,
        tick_ms: 200,
    }
}

/// Construct a supervisor wired with the example DAG, a simulated agent
/// fleet, and a generous cost budget.
pub fn build_demo_supervisor() -> (r: Demo)
    ensures
        r.supervisor@ == SupervisorView::initial(
            tasks_by_id(example_specs()),
            r.supervisor@.links,
            demo_settings(),
        ),
        r.supervisor@.wf(),
        r.governor@ == (GovernorView { global_budget: 500_000, settled: 0, reservations: Seq::empty() }),
        r.worker@ == (DemoWorkerView { scripts: example_script_views(), runs: Map::empty() }),
{
    let dag = example_dag();
    let worker = DemoWorker::new(example_scripts());
    Demo { supervisor: Supervisor::new(dag, demo_config()), governor: CostGovernor::new(500_000), worker }
}

/// Every example task has a label and a script.
pub proof fn every_example_task_is_described(id: Id)
    requires
        tasks_by_id(example_specs()).contains_key(id),
    ensures
        example_meta().contains_key(id),
        example_script_views().contains_key(id),
{
    lemma_filed_spec(example_specs(), id);
    let specs = example_specs();
    let i = choose|i: int| 0 <= i < specs.len() && (#[trigger] specs[i]).id == id && specs[i] == tasks_by_id(specs)[id];
    assert(specs.len() == 9);
}

/// The tokens that the specs may spend together.
pub open spec fn total_budget(specs: Seq<TaskSpecView>) -> nat
    decreases specs.len(),
{
    if specs.len() == 0 {
        0
    } else {
        total_budget(specs.drop_last()) + specs.last().token_budget as nat
    }
}

/// The happy path always fits: the budgets of all example tasks together stay
/// within the budget of the demo.
pub proof fn demo_budget_covers_every_task()
    ensures
        total_budget(example_specs()) <= 500_000,
{
    let specs = example_specs();
    assert(specs.len() == 9);
    assert forall|i: int| 0 < i <= 9 implies #[trigger] total_budget(specs.take(i)) == total_budget(specs.take(i - 1))
        + specs[i - 1].token_budget by {
        assert(specs.take(i).drop_last() =~= specs.take(i - 1));
    }
    assert(specs.take(9) =~= specs);
    assert(specs.take(0).len() == 0);
    assert(total_budget(specs.take(1)) == 8_000);
    assert(total_budget(specs.take(2)) == 48_000);
    assert(total_budget(specs.take(3)) == 78_000);
    assert(total_budget(specs.take(4)) == 198_000);
    assert(total_budget(specs.take(5)) == 288_000);
    assert(total_budget(specs.take(6)) == 348_000);
    assert(total_budget(specs.take(7)) == 352_000);
    assert(total_budget(specs.take(8)) == 372_000);
}

/// A simulated agent blocks only for want of an answer and fails only on its
/// first run: with an answer, every later run succeeds.
pub proof fn answered_agent_succeeds_on_retry(script: ScriptView, run: u32, answer: Seq<char>)
    ensures
        !(script.plan(run, Some(answer)).outcome is Blocked),
        run > 0 ==> script.plan(run, Some(answer)).outcome is Success,
{
}

} // verus!
