//! Task model: specs and states.

use crate::ids::Duplicate;
use crate::order::Id;
use vstd::prelude::*;

pub use crate::dag::{DagError, TaskDag};
pub use crate::ids::TaskId;

verus! {

/// A unit of work with explicit dependencies and a token budget.
#[derive(Debug)]
pub struct TaskSpec {
    pub id: TaskId,
    /// Free-form payload handed to the worker (a prompt, a command, a job
    /// description — the runtime does not interpret it).
    pub payload: String,
    /// Ids of tasks that must complete before this one may start.
    pub depends_on: Vec<TaskId>,
    /// Maximum tokens (or cost units) the task may spend.
    pub token_budget: u64,
    /// Maximum execution attempts before the task is failed and escalated.
    pub max_attempts: u32,
}

/// What a [`TaskSpec`] says, as mathematical values.
#[verifier::ext_equal]
pub struct TaskSpecView {
    pub id: Id,
    pub payload: Seq<char>,
    pub depends_on: Seq<Id>,
    pub token_budget: u64,
    pub max_attempts: u32,
}

impl DeepView for TaskSpec {
    type V = TaskSpecView;

    open spec fn deep_view(&self) -> TaskSpecView {
        TaskSpecView {
            id: self.id@,
            payload: self.payload@,
            depends_on: self.depends_on.deep_view(),
            token_budget: self.token_budget,
            max_attempts: self.max_attempts,
        }
    }
}

/// A copy of a list of ids.
pub fn copy_ids(ids: &Vec<TaskId>) -> (r: Vec<TaskId>)
    ensures
        r.deep_view() == ids.deep_view(),
{
    let mut r: Vec<TaskId> = Vec::new();
    let mut i: usize = 0;
    while i < ids.len()
        invariant
            i <= ids@.len(),
            r@.len() == i,
            forall|j: int| 0 <= j < i ==> (#[trigger] r@[j])@ == ids@[j]@,
        decreases ids@.len() - i,
    {
        r.push(ids[i].clone());
        i += 1;
    }
    assert(r.deep_view() =~= ids.deep_view());
    r
}

impl Duplicate for Vec<TaskId> {
    fn duplicate(&self) -> (r: Self) {
        copy_ids(self)
    }
}

impl Clone for TaskSpec {
    fn clone(&self) -> (r: Self)
        ensures
            r.deep_view() == self.deep_view(),
    {
        TaskSpec {
            id: self.id.clone(),
            payload: self.payload.clone(),
            depends_on: copy_ids(&self.depends_on),
            token_budget: self.token_budget,
            max_attempts: self.max_attempts,
        }
    }
}

impl Duplicate for TaskSpec {
    fn duplicate(&self) -> (r: Self) {
        self.clone()
    }
}

impl TaskSpec {
    /// A task without dependencies, with a budget of 100 000 tokens and up to
    /// three attempts.
    pub fn new(id: &str, payload: &str) -> (r: Self)
        ensures
            r.deep_view() == (TaskSpecView {
                id: id@,
                payload: payload@,
                depends_on: Seq::empty(),
                token_budget: 100_000,
                max_attempts: 3,
            }),
    {
        let r = TaskSpec {
            id: id.to_string(),
            payload: payload.to_string(),
            depends_on: Vec::new(),
            token_budget: 100_000,
            max_attempts: 3,
        };
        assert(r.depends_on.deep_view() =~= Seq::<Id>::empty());
        r
    }

    /// The task may start only once `dep` has completed too.
    pub fn after(self, dep: &str) -> (r: Self)
        ensures
            r.deep_view() == (TaskSpecView {
                depends_on: self.deep_view().depends_on.push(dep@),
                ..self.deep_view()
            }),
    {
        let mut r = self;
        r.depends_on.push(dep.to_string());
        assert(r.depends_on.deep_view() =~= self.depends_on.deep_view().push(dep@));
        r
    }

    pub fn budget(self, tokens: u64) -> (r: Self)
        ensures
            r.deep_view() == (TaskSpecView { token_budget: tokens, ..self.deep_view() }),
    {
        let mut r = self;
        r.token_budget = tokens;
        r
    }

    /// Allows `n` attempts, and one where `n` is zero.
    pub fn attempts(self, n: u32) -> (r: Self)
        ensures
            r.deep_view() == (TaskSpecView {
                max_attempts: if n == 0 {
                    1
                } else {
                    n
                },
                ..self.deep_view()
            }),
    {
        let mut r = self;
        r.max_attempts = if n < 1 {
            1
        } else {
            n
        };
        r
    }
}

#[derive(Debug, PartialEq, Eq)]
pub enum TaskState {
    Pending,
    Running { attempt: u32 },
    /// Waiting on a human/orchestrator answer to a question the worker raised.
    Blocked { question: String },
    Completed { output: String },
    Failed { error: String },
    /// Dependencies can never be satisfied (an upstream task failed).
    Cancelled { reason: String },
}

/// What a [`TaskState`] says, as mathematical values.
pub enum TaskStateView {
    Pending,
    Running { attempt: u32 },
    Blocked { question: Seq<char> },
    Completed { output: Seq<char> },
    Failed { error: Seq<char> },
    Cancelled { reason: Seq<char> },
}

impl TaskStateView {
    /// Nothing happens to the task any more.
    pub open spec fn terminal(self) -> bool {
        self is Completed || self is Failed || self is Cancelled
    }
}

impl DeepView for TaskState {
    type V = TaskStateView;

    open spec fn deep_view(&self) -> TaskStateView {
        match self {
            TaskState::Pending => TaskStateView::Pending,
            TaskState::Running { attempt } => TaskStateView::Running { attempt: *attempt },
            TaskState::Blocked { question } => TaskStateView::Blocked { question: question@ },
            TaskState::Completed { output } => TaskStateView::Completed { output: output@ },
            TaskState::Failed { error } => TaskStateView::Failed { error: error@ },
            TaskState::Cancelled { reason } => TaskStateView::Cancelled { reason: reason@ },
        }
    }
}

impl Clone for TaskState {
    fn clone(&self) -> (r: Self)
        ensures
            r.deep_view() == self.deep_view(),
    {
        match self {
            TaskState::Pending => TaskState::Pending,
            TaskState::Running { attempt } => TaskState::Running { attempt: *attempt },
            TaskState::Blocked { question } => TaskState::Blocked { question: question.clone() },
            TaskState::Completed { output } => TaskState::Completed { output: output.clone() },
            TaskState::Failed { error } => TaskState::Failed { error: error.clone() },
            TaskState::Cancelled { reason } => TaskState::Cancelled { reason: reason.clone() },
        }
    }
}

impl Duplicate for TaskState {
    fn duplicate(&self) -> (r: Self) {
        self.clone()
    }
}

impl TaskState {
    pub fn is_terminal(&self) -> (r: bool)
        ensures
            r == self.deep_view().terminal(),
    {
        matches!(
            self,
            TaskState::Completed { .. } | TaskState::Failed { .. } | TaskState::Cancelled { .. }
        )
    }
}

} // verus!
