//! # Nexus
//!
//! The verified core of a multi-agent orchestration runtime: what the
//! supervisor decides, with contracts that say what it decides and proofs that
//! it does.
//!
//! ## The pattern
//!
//! - **[`dag::TaskDag`]** — work is a validated dependency DAG (duplicate,
//!   unknown-dep, and cycle checks at build time). Ready tasks dispatch in
//!   parallel; a permanent failure cancels its transitive blast radius.
//! - **[`supervisor::Supervisor`]** — evidence-based liveness. Workers beat a
//!   [`worker::Heartbeat`] while making progress; the supervisor never kills on
//!   a wall-clock guess. Detect (heartbeat stale) → confirm (second observation
//!   window) → recover (abort + retry with backoff) → escalate (fail loudly,
//!   cancel dependents).
//! - **Blockers** — a worker that needs a human/orchestrator decision returns
//!   [`worker::WorkerOutcome::Blocked`]; the run stays alive and
//!   [`supervisor::Supervisor::resolve_blocker`] resumes it with the answer.
//! - **[`budget::CostGovernor`]** — token-cost governance by
//!   reserve-then-settle: a task cannot start unless its budget fits, so a
//!   runaway fleet stops *before* the bill.
//! - **[`supervisor::RuntimeEvent`]** — every decision the runtime makes is
//!   announced; dashboards, logs, and tests consume the same stream.
//!
//! ## Running it
//!
//! The supervisor itself neither waits nor spawns. Whoever drives it hands it
//! what has happened ([`supervisor::Supervisor::handle_event`]), aborts what it
//! names, asks it what to start ([`supervisor::Supervisor::advance`]), and goes
//! on until there is a report. Times are nanoseconds on a clock of the driver's
//! choice.
//!
//! ## What is proved
//!
//! [`model`] holds the supervisor as a mathematical state machine; the
//! contracts of [`supervisor`] say that the code follows it step by step. What
//! the single steps do to the state and the books, field by field, stands in
//! [`effects`], [`dispatching`], [`checking`] and [`ledger`]; what holds of the
//! machine as a whole stands in [`laws`], [`orderly`], [`scheduling`],
//! [`bookkeeping`], [`history`], [`progress`], [`executions`], [`reasons`] and
//! [`announcements`]. [`meanings`] says what the notions behind the contracts
//! mean, [`promises`] what follows from the contracts for single calls, and
//! [`scenes`] what the demo does.

pub mod announcements;
pub mod bookkeeping;
pub mod budget;
pub mod checking;
pub mod dag;
pub mod demo;
pub mod dispatching;
pub mod effects;
pub mod executions;
pub mod graph;
pub mod history;
pub mod ids;
pub mod laws;
pub mod ledger;
pub mod meanings;
pub mod model;
pub mod order;
pub mod orderly;
pub mod prelude;
pub mod progress;
pub mod promises;
pub mod reasons;
pub mod scenes;
pub mod scheduling;
pub mod server;
pub mod supervisor;
pub mod task;
pub mod text;
pub mod worker;
