# Nexus

The core of a multi-agent orchestration runtime, written and verified in Verus.

Work is scheduled off a dependency DAG, so a task runs the moment it can and not
a step before. A worker counts as alive because it proves progress, not because a
timeout has not fired yet; when something stalls or hits a transient failure, the
supervisor detects it and retries. Decisions that need a person escalate and
wait, while everything independent keeps moving. Every run carries a token budget
that it cannot exceed.

## Layout

- `src/` — the verified library.
  - `order`, `ids`, `text`, `graph` — id order, ordered collections, decimal
    text, walks in graphs.
  - `task`, `dag` — task specs and states; building, checking and walking the
    DAG.
  - `budget` — the cost governor.
  - `worker` — outcomes and heartbeats.
  - `model`, `supervisor` — the supervisor as a mathematical state machine, and
    the code that follows it.
  - `laws`, `orderly`, `scheduling`, `bookkeeping`, `history`, `progress`,
    `executions`, `announcements` — what holds of the whole.
  - `demo`, `server` — the built-in example workflow and what its server decides.
- `tests/` — the library at work on concrete values; `runtime.rs` drives whole
  runs on a simulated clock.
- `app/` — the live demo: the event loop on tokio, the simulated agents, and the
  HTTP server.

## What is taken on trust

Two functions of the library are believed rather than proved. One reads the
system clock. `Heartbeat::new` and `beat` record what it shows and `age_ms` counts
up to what it shows; that it shows the right time is not claimed. The other looks
up a text field in a JSON body with `serde_json`; its result is named and not
described.

## The demo

`PORT` sets the port (8099 by default), `NEXUS_DEMO_SPEED` the speed of the
simulated agents. Open the server in a browser and press *Run workflow*.
