//! The names that most users of the library need.

pub use crate::budget::{BudgetError, BudgetSnapshot, CostGovernor};
pub use crate::dag::{DagError, TaskDag};
pub use crate::ids::{IdMap, IdSet, TaskId};
pub use crate::supervisor::{
    Launch, RunEvent, RunReport, RunStep, RuntimeEvent, Supervisor, SupervisorConfig,
};
pub use crate::task::{TaskSpec, TaskState};
pub use crate::worker::{Heartbeat, WorkerOutcome};
