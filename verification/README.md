# sag

A runtime that spreads coding and research work over a LAN of GPU boxes, each
serving OpenAI-compatible models: a controller that nodes discover, elect and
register with, a DAG engine that drives a task through its stages, and a CLI.

The library in `src/` holds the decisions and is verified with Verus; `app/`
is the thin asynchronous shell around it (HTTP with `axum` and `reqwest`,
SQLite with `sqlx`, `clap`, `tokio`, JSON with `serde`).

## Layout

- `src/engine.rs` — stage graphs and their validation, the retry backoff, and
  the coordinator that decides which stages run, which are retried, and when
  a run has completed or failed. Laws: a run at rest has completed every
  stage; stages complete once each and after their dependencies; no stage
  exceeds its attempt budget; backoff is capped and grows with each retry.
- `src/graph.rs` — dependency graphs over stage indices: the depth-first
  search that ranks a graph or finds a stage on a cycle.
- `src/locate.rs` — leader election over reachable controllers, stepping
  down, and a node's decision on each heartbeat.
- `src/registry.rs` — the node registry (upsert by node id, listed in id
  order).
- `src/controller.rs` — task submission, the controller's answers, and the
  ordered aggregate of `/hello` replies.
- `src/node.rs` — a node's descriptor, its classification and serving engine,
  and its `/hello` replies.
- `src/scheduler.rs`, `src/inference.rs`, `src/store.rs`,
  `src/retrieval.rs`, `src/tools.rs`, `src/cli.rs` — node selection, model
  server URLs and replies, the content-addressed store, the scout, tools, and
  terminal rendering.
- `src/proto.rs`, `src/text.rs` — the wire vocabulary and the string
  functions everything above is specified with.
- `tests/` — executable tests of the library.
- `app/` — `main`, the HTTP surfaces and clients, the SQLite registry, the
  asynchronous seams and the driver that runs the engine's coordinator.
