# gaia

Gaia defines, validates, schedules and monitors pipelines of tasks. The
library in `src/` is written in Verus: each public function carries a
contract over a mathematical model of its data, and Verus proves that the
code meets it.

## Layout

- `src/ids.rs` — sets and maps keyed by textual ids, kept in insertion order.
- `src/task.rs` — tasks, their statuses and what they produce.
- `src/pipeline.rs` — pipelines: adding and looking up tasks, extending one
  pipeline with another, and validation (every dependency names a task, and
  the dependency graph has no cycle).
- `src/state.rs` — the execution state of a pipeline and of its tasks.
- `src/executor.rs` — the executor, the context a running task sees, and how
  the outcome of a task's run settles it.
- `src/schedule.rs` — a pipeline's run, step by step: tasks start once their
  dependencies have finished, at most a configured number at once, and as
  many as can; each reported outcome completes the task with its value, fails
  it, or retries it, and a failure stops the run unless the executor goes on
  after failures.
- `src/monitoring.rs` — the metrics that describe a task's state, and those of
  every task of a pipeline.
- `src/graph.rs` — where the dashboard draws each task and each dependency.
- `src/charts.rs` — what the dashboard's metric charts show.
- `src/dashboard.rs` — the sample data the dashboard lists.
- `src/navigation.rs` — the dashboard's routes and the link marked current.
- `src/error.rs` — the errors and their texts.

`app/` is the program around the library: it awaits task handlers under
timeouts on an async runtime, reports their outcomes to the run, reads the
clock, prints results and
writes pipelines and dashboard data as JSON.

Run `gaia-app [data-processing | web-crawler | scheduled-pipeline | dashboard
| describe <example> | graph <example> | charts <example> | run-task <example> <task>]`.
