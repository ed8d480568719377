use std::cell::RefCell;
use std::collections::{HashMap, VecDeque};

use sag::engine::{
    BackoffPolicy, Coordinator, Dag, Dispatch, EngineError, FakeEngine, GraphEngine, RunOutcome, RunStatus,
    StageError, StageSpec,
};
use sag::proto::Task;

fn task() -> Task {
    Task {
        id: "t1".into(),
        request: "Fix intermittent cache expiry test".into(),
    }
}

/// A runner scripted to fail specific stages a fixed number of times before
/// succeeding. Counts attempts per stage and records the order of calls.
struct ScriptedRunner {
    fail_times: HashMap<String, u32>,
    attempts: RefCell<HashMap<String, u32>>,
    seen: RefCell<Vec<String>>,
}

impl ScriptedRunner {
    fn new(fail_times: &[(&str, u32)]) -> Self {
        Self {
            fail_times: fail_times.iter().map(|(k, v)| (k.to_string(), *v)).collect(),
            attempts: RefCell::new(HashMap::new()),
            seen: RefCell::new(Vec::new()),
        }
    }

    fn run_stage(&self, stage: &str) -> Result<(), StageError> {
        self.seen.borrow_mut().push(stage.to_string());
        let n = {
            let mut a = self.attempts.borrow_mut();
            let e = a.entry(stage.to_string()).or_insert(0);
            *e += 1;
            *e
        };
        let budget = self.fail_times.get(stage).copied().unwrap_or(0);
        if n <= budget {
            Err(StageError(format!("scripted failure #{n}")))
        } else {
            Ok(())
        }
    }

    fn attempts_for(&self, stage: &str) -> u32 {
        self.attempts.borrow().get(stage).copied().unwrap_or(0)
    }
}

/// Drives an engine the way a single worker would: every dispatched stage is
/// queued, run in turn, and its result recorded, until the run is decided.
fn run(engine: &GraphEngine<ScriptedRunner>, task: &Task) -> Result<RunOutcome, EngineError> {
    let mut coordinator: Coordinator = engine.start(task)?;
    let mut queue: VecDeque<Dispatch> = VecDeque::new();
    loop {
        queue.extend(coordinator.dispatch(engine.backoff()));
        if coordinator.idle() {
            return Ok(coordinator.finish());
        }
        let next = queue.pop_front().expect("a running stage is queued");
        let result = engine.runner().run_stage(&next.name);
        if let Some(outcome) = coordinator.record(next.stage, result) {
            return Ok(outcome);
        }
    }
}

#[test]
fn fake_engine_completes_the_happy_path_dag() {
    let outcome = FakeEngine.run(task()).expect("run");
    assert_eq!(outcome.task_id, "t1");
    assert_eq!(outcome.status, RunStatus::Completed);
    assert_eq!(outcome.stages.first().map(String::as_str), Some("retrieve"));
    assert_eq!(outcome.stages.last().map(String::as_str), Some("review"));
}

#[test]
fn graph_engine_runs_linear_pipeline_in_dependency_order() {
    let engine = GraphEngine::new(Dag::fix_pipeline(), ScriptedRunner::new(&[]));
    let outcome = run(&engine, &task()).expect("run");

    assert_eq!(outcome.status, RunStatus::Completed);
    assert_eq!(outcome.failed_stage, None);
    assert_eq!(outcome.stages, ["retrieve", "plan", "implement", "test", "review"]);
}

#[test]
fn graph_engine_retries_only_the_failing_stage() {
    let engine = GraphEngine::new(Dag::fix_pipeline(), ScriptedRunner::new(&[("test", 2)]))
        .with_backoff(BackoffPolicy::none());
    let outcome = run(&engine, &task()).expect("run");

    assert_eq!(outcome.status, RunStatus::Completed);
    assert_eq!(outcome.stages, ["retrieve", "plan", "implement", "test", "review"]);
    assert_eq!(engine.runner().attempts_for("test"), 3);
    assert_eq!(engine.runner().attempts_for("plan"), 1);
    assert_eq!(engine.runner().attempts_for("review"), 1);
}

#[test]
fn graph_engine_fails_run_when_a_stage_exhausts_retries() {
    let engine = GraphEngine::new(Dag::fix_pipeline(), ScriptedRunner::new(&[("implement", u32::MAX)]))
        .with_backoff(BackoffPolicy::none());
    let outcome = run(&engine, &task()).expect("run");

    assert_eq!(outcome.status, RunStatus::Failed);
    assert_eq!(outcome.stages, ["retrieve", "plan"]);
    assert!(outcome.failed_stage.as_deref().unwrap().starts_with("implement:"));
    assert_eq!(engine.runner().attempts_for("implement"), 3);
    assert_eq!(engine.runner().attempts_for("test"), 0);
}

#[test]
fn graph_engine_respects_diamond_dependencies() {
    let dag = Dag::new(vec![
        StageSpec::new("a", &[]),
        StageSpec::new("b", &["a"]),
        StageSpec::new("c", &["a"]),
        StageSpec::new("d", &["b", "c"]),
    ]);
    let engine = GraphEngine::new(dag, ScriptedRunner::new(&[]));
    let outcome = run(&engine, &task()).expect("run");

    assert_eq!(outcome.status, RunStatus::Completed);
    assert_eq!(outcome.stages.first().map(String::as_str), Some("a"));
    assert_eq!(outcome.stages.last().map(String::as_str), Some("d"));
    assert_eq!(outcome.stages.len(), 4);
}

#[test]
fn invalid_dag_is_rejected_before_running() {
    let cyclic = Dag::new(vec![StageSpec::new("x", &["y"]), StageSpec::new("y", &["x"])]);
    let err = run(&GraphEngine::new(cyclic, ScriptedRunner::new(&[])), &task()).expect_err("cycle must be rejected");
    assert!(matches!(err, EngineError::InvalidDag { .. }));

    let dangling = Dag::new(vec![StageSpec::new("only", &["missing"])]);
    let runner = ScriptedRunner::new(&[]);
    let engine = GraphEngine::new(dangling, runner);
    let err = run(&engine, &task()).expect_err("dangling dep must be rejected");
    assert!(matches!(err, EngineError::InvalidDag { .. }));
    assert!(engine.runner().seen.borrow().is_empty());
}

#[test]
fn validation_reasons_name_the_problem() {
    let dup = Dag::new(vec![StageSpec::new("a", &[]), StageSpec::new("b", &[]), StageSpec::new("a", &[])]);
    assert_eq!(
        dup.validate(),
        Err(EngineError::InvalidDag { reason: "duplicate stage `a`".into() })
    );
    let dangling = Dag::new(vec![StageSpec::new("a", &[]), StageSpec::new("b", &["a", "ghost"])]);
    assert_eq!(
        dangling.validate(),
        Err(EngineError::InvalidDag { reason: "stage `b` depends on unknown `ghost`".into() })
    );
    let selfloop = Dag::new(vec![StageSpec::new("s", &["s"])]);
    let err = selfloop.validate().unwrap_err();
    assert_eq!(err.message(), "invalid DAG: cycle through `s`");
    assert_eq!(Dag::fix_pipeline().validate(), Ok(()));
    assert_eq!(Dag::new(vec![]).validate(), Ok(()));
}

#[test]
fn cycle_reason_names_a_stage_on_the_cycle() {
    // `a` only leads into the cycle b → c → b; the search meets `b` again.
    let tail = Dag::new(vec![
        StageSpec::new("a", &["b"]),
        StageSpec::new("b", &["c"]),
        StageSpec::new("c", &["b"]),
    ]);
    assert_eq!(
        tail.validate(),
        Err(EngineError::InvalidDag { reason: "cycle through `b`".into() })
    );
    let pair = Dag::new(vec![StageSpec::new("x", &["y"]), StageSpec::new("y", &["x"])]);
    assert_eq!(
        pair.validate(),
        Err(EngineError::InvalidDag { reason: "cycle through `x`".into() })
    );
    // Shared dependencies are explored once and are no cycle.
    let shared = Dag::new(vec![
        StageSpec::new("top", &["left", "right"]),
        StageSpec::new("left", &["base"]),
        StageSpec::new("right", &["base", "left"]),
        StageSpec::new("base", &[]),
    ]);
    assert_eq!(shared.validate(), Ok(()));
}

#[test]
fn diamond_dispatches_siblings_together() {
    let dag = Dag::new(vec![
        StageSpec::new("a", &[]),
        StageSpec::new("b", &["a"]),
        StageSpec::new("c", &["a"]),
        StageSpec::new("d", &["b", "c"]),
    ]);
    let mut c = Coordinator::new(&dag, "t").unwrap();
    let none = BackoffPolicy::none();
    let first = c.dispatch(&none);
    assert_eq!(first.iter().map(|d| d.name.as_str()).collect::<Vec<_>>(), ["a"]);
    assert!(c.dispatch(&none).is_empty());
    assert!(!c.idle());
    assert!(c.record(first[0].stage, Ok(())).is_none());
    let second = c.dispatch(&none);
    assert_eq!(second.iter().map(|d| d.name.as_str()).collect::<Vec<_>>(), ["b", "c"]);
    // c finishes before b: completion order follows results, not the graph.
    assert!(c.record(second[1].stage, Ok(())).is_none());
    assert!(c.dispatch(&none).is_empty());
    assert!(c.record(second[0].stage, Ok(())).is_none());
    let third = c.dispatch(&none);
    assert_eq!(third.iter().map(|d| d.name.as_str()).collect::<Vec<_>>(), ["d"]);
    assert!(c.is_running(third[0].stage));
    assert!(c.record(third[0].stage, Ok(())).is_none());
    assert!(c.dispatch(&none).is_empty());
    assert!(c.idle());
    assert_eq!(c.finish().stages, ["a", "c", "b", "d"]);
}

#[test]
fn retries_wait_out_the_backoff() {
    let dag = Dag::new(vec![StageSpec::new("s", &[]).with_max_attempts(4)]);
    let mut c = Coordinator::new(&dag, "t").unwrap();
    let backoff = BackoffPolicy::exponential(200_000_000, 500_000_000);
    let mut delays = Vec::new();
    for _ in 0..3 {
        let d = c.dispatch(&backoff);
        delays.push(d[0].delay_nanos);
        assert!(c.record(d[0].stage, Err(StageError("boom".into()))).is_none());
    }
    let d = c.dispatch(&backoff);
    delays.push(d[0].delay_nanos);
    let outcome = c.record(d[0].stage, Err(StageError("boom".into()))).expect("budget exhausted");
    assert_eq!(delays, [0, 200_000_000, 400_000_000, 500_000_000]);
    assert_eq!(outcome.failed_stage.as_deref(), Some("s: boom"));
    assert!(outcome.stages.is_empty());
}

#[test]
fn zero_attempt_budget_still_runs_once() {
    let spec = StageSpec::new("s", &[]).with_max_attempts(0);
    assert_eq!(spec.max_attempts, 1);
    let dag = Dag::new(vec![StageSpec { name: "s".into(), deps: vec![], max_attempts: 0 }]);
    let mut c = Coordinator::new(&dag, "t").unwrap();
    let d = c.dispatch(&BackoffPolicy::none());
    assert_eq!(d.len(), 1);
    let outcome = c.record(d[0].stage, Err(StageError("x".into()))).expect("first failure is final");
    assert_eq!(outcome.status, RunStatus::Failed);
}

#[test]
fn backoff_delays_are_exponential_and_capped() {
    let b = BackoffPolicy::default();
    assert_eq!(b.delay(0), 0);
    assert_eq!(b.delay(1), 200_000_000);
    assert_eq!(b.delay(2), 400_000_000);
    assert_eq!(b.delay(6), 6_400_000_000);
    assert_eq!(b.delay(7), 10_000_000_000);
    assert_eq!(b.delay(40), 10_000_000_000);
    assert_eq!(BackoffPolicy::none().delay(5), 0);
    let huge = BackoffPolicy::exponential(sag::engine::MAX_DURATION_NANOS, sag::engine::MAX_DURATION_NANOS);
    assert_eq!(huge.delay(33), sag::engine::MAX_DURATION_NANOS);
    let mut last = 0;
    for r in 1..50 {
        let d = b.delay(r);
        assert!(d >= last && d <= 10_000_000_000);
        last = d;
    }
}

#[test]
fn cloned_graphs_validate_alike() {
    let dag = Dag::fix_pipeline();
    let copy = dag.clone();
    assert_eq!(copy.validate(), Ok(()));
    let stage = StageSpec::new("x", &["y"]).with_max_attempts(4);
    assert_eq!(stage.clone(), stage);
}

#[test]
fn backoff_changes_only_the_delays() {
    let dag = Dag::fix_pipeline();
    let mut slow = Coordinator::new(&dag, "t1").unwrap();
    let mut fast = Coordinator::new(&dag, "t1").unwrap();
    let a = slow.dispatch(&BackoffPolicy::default());
    let b = fast.dispatch(&BackoffPolicy::none());
    let stages = |v: &Vec<Dispatch>| v.iter().map(|d| (d.stage, d.name.clone())).collect::<Vec<_>>();
    assert_eq!(stages(&a), stages(&b));
    assert_eq!(slow.record(0, Err(StageError("boom".into()))), None);
    assert_eq!(fast.record(0, Err(StageError("boom".into()))), None);
    let a = slow.dispatch(&BackoffPolicy::default());
    let b = fast.dispatch(&BackoffPolicy::none());
    assert_eq!(stages(&a), stages(&b));
    assert_eq!(a[0].delay_nanos, 200_000_000);
    assert_eq!(b[0].delay_nanos, 0);
}
