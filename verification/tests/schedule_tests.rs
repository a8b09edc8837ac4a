use gaia::error::GaiaError;
use gaia::executor::{Executor, ExecutorConfig, ExecutorContext, TaskOutcome};
use gaia::pipeline::Pipeline;
use gaia::schedule::{order_by_count, RunEvent, RunReport, Step};
use gaia::task::{Task, TaskOutput, TaskStatus};
use std::time::Duration;

fn executor_with(max: usize, continue_on_failure: bool) -> Executor {
    Executor::with_config(ExecutorConfig {
        default_timeout: Duration::from_secs(60),
        max_concurrent_tasks: max,
        continue_on_failure,
    })
}

/// Runs `pipeline` step by step, running each started task at once with
/// `handler` and reporting what it gave; returns the result of the run and
/// its steps.
fn drive(
    executor: &Executor,
    pipeline: Pipeline,
    mut handler: impl FnMut(&str, &ExecutorContext) -> TaskOutcome,
) -> (Result<RunReport, GaiaError>, Vec<String>) {
    let mut run = executor.start_run(pipeline, 1).unwrap();
    let mut running: Vec<String> = Vec::new();
    let mut steps: Vec<String> = Vec::new();
    loop {
        for id in run.start_ready(2) {
            running.push(id);
        }
        if run.is_stopped() || run.running_count() == 0 {
            break;
        }
        let id = running.remove(0);
        let ctx = run.context();
        let outcome = handler(&id, &ctx);
        match run.report(&id, outcome, 3) {
            Step::Retry => running.insert(0, id),
            _ => {}
        }
        if run.is_stopped() {
            break;
        }
    }
    for e in run.events() {
        steps.push(match e {
            RunEvent::Started(x) => format!("start {}", x),
            RunEvent::Finished(x) => format!("finish {}", x),
            RunEvent::Failed(x) => format!("fail {}", x),
        });
    }
    (run.finish(4), steps)
}

fn index_of(steps: &[String], step: &str) -> usize {
    steps.iter().position(|s| s == step).unwrap()
}

#[test]
fn test_run_respects_concurrency_limit() {
    let mut p = Pipeline::new("p", "Wide");
    for i in 0..5 {
        p.add_task(Task::new(&format!("t{}", i), "T")).unwrap();
    }
    let (result, steps) = drive(&executor_with(2, true), p, |_, _| TaskOutcome::NoHandler);
    assert!(result.is_ok());
    assert_eq!(steps.len(), 10);
    let mut running: i32 = 0;
    for s in &steps {
        if s.starts_with("start") {
            running += 1;
        } else {
            running -= 1;
        }
        assert!(running <= 2 && running >= 0);
    }
    for i in 0..5 {
        assert!(index_of(&steps, &format!("start t{}", i)) < index_of(&steps, &format!("finish t{}", i)));
    }
}

#[test]
fn test_run_with_one_slot_runs_tasks_one_at_a_time() {
    let mut p = Pipeline::new("p", "Serial");
    p.add_task(Task::new("a", "A")).unwrap();
    p.add_task(Task::new("b", "B")).unwrap();
    let (_, steps) = drive(&executor_with(1, true), p, |_, _| TaskOutcome::NoHandler);
    assert_eq!(steps, vec!["start a", "finish a", "start b", "finish b"]);
}

#[test]
fn test_run_orders_dependencies() {
    let mut p = Pipeline::new("p", "Chain");
    p.add_task(Task::new("c", "C").add_dependency("b")).unwrap();
    p.add_task(Task::new("b", "B").add_dependency("a")).unwrap();
    p.add_task(Task::new("a", "A")).unwrap();
    let (_, steps) = drive(&Executor::new(), p, |_, _| TaskOutcome::NoHandler);
    assert!(index_of(&steps, "finish a") < index_of(&steps, "start b"));
    assert!(index_of(&steps, "finish b") < index_of(&steps, "start c"));
}

#[test]
fn test_run_invalid_pipelines_report_errors() {
    let mut missing = Pipeline::new("p", "Missing");
    missing.add_task(Task::new("a", "A").add_dependency("x")).unwrap();
    match Executor::new().start_run(missing, 0) {
        Err(GaiaError::TaskNotFound(id)) => assert_eq!(id, "x"),
        _ => panic!("expected a missing task"),
    }
    let mut cycle = Pipeline::new("p", "Cycle");
    cycle.add_task(Task::new("a", "A").add_dependency("b")).unwrap();
    cycle.add_task(Task::new("b", "B").add_dependency("a")).unwrap();
    assert!(matches!(Executor::new().start_run(cycle, 0), Err(GaiaError::CircularDependency)));
}

#[test]
fn test_start_checked_run_passes_the_check_error_through() {
    let mut p = Pipeline::new("p", "Missing");
    p.add_task(Task::new("a", "A").add_dependency("x").add_dependency("y")).unwrap();
    let checked = p.validate();
    let expected = format!("{:?}", checked);
    let r = Executor::new().start_checked_run(p, checked, 0);
    assert_eq!(format!("{:?}", r.err().map(Err::<(), GaiaError>).unwrap()), expected);
}

#[test]
fn test_run_records_values_and_times() {
    let mut p = Pipeline::new("p", "Two");
    p.add_task(Task::new("a", "A")).unwrap();
    p.add_task(Task::new("b", "B").add_dependency("a")).unwrap();
    let (result, _) = drive(&Executor::new(), p, |id, _| {
        if id == "a" {
            TaskOutcome::Returned(Ok(TaskOutput::I32(2)))
        } else {
            TaskOutcome::NoHandler
        }
    });
    let report = result.unwrap();
    let state = &report.pipeline.state;
    assert!(state.is_complete);
    assert!(state.is_successful);
    assert_eq!(state.start_time, Some(1));
    assert_eq!(state.end_time, Some(4));
    assert_eq!(state.task_states.len(), 2);
    let a = state.task_states.get("a").unwrap();
    assert!(matches!(a.status, TaskStatus::Completed(TaskOutput::I32(2))));
    assert_eq!(a.start_time, Some(2));
    assert_eq!(a.end_time, Some(3));
    let b = state.task_states.get("b").unwrap();
    assert!(matches!(b.status, TaskStatus::Completed(TaskOutput::Unit)));
    assert_eq!(report.pipeline.id, "p");
    assert_eq!(report.pipeline.tasks.len(), 2);
}

#[test]
fn test_run_stops_on_failure() {
    let mut p = Pipeline::new("p", "Stop");
    p.add_task(Task::new("a", "A")).unwrap();
    p.add_task(Task::new("b", "B").add_dependency("a")).unwrap();
    p.add_task(Task::new("c", "C")).unwrap();
    let (result, steps) = drive(&executor_with(1, false), p, |id, _| {
        if id == "a" {
            TaskOutcome::Returned(Err(GaiaError::TaskExecutionFailed("boom".to_string())))
        } else {
            TaskOutcome::NoHandler
        }
    });
    match result {
        Err(GaiaError::TaskExecutionFailed(msg)) => {
            assert_eq!(msg, "Task a failed: Task execution failed: boom")
        }
        _ => panic!("expected the failure of a"),
    }
    assert_eq!(steps, vec!["start a", "fail a"]);
}

#[test]
fn test_run_stops_on_timeout() {
    let mut p = Pipeline::new("p", "Slow");
    p.add_task(Task::new("a", "A")).unwrap();
    let (result, steps) = drive(&executor_with(4, false), p, |_, _| TaskOutcome::TimedOut);
    assert!(matches!(result, Err(GaiaError::TaskTimeout)));
    assert_eq!(steps, vec!["start a", "fail a"]);
}

#[test]
fn test_run_goes_on_after_failure() {
    let mut p = Pipeline::new("p", "Go on");
    p.add_task(Task::new("a", "A")).unwrap();
    p.add_task(Task::new("b", "B").add_dependency("a")).unwrap();
    p.add_task(Task::new("c", "C")).unwrap();
    let (result, steps) = drive(&executor_with(1, true), p, |id, _| {
        if id == "a" {
            TaskOutcome::TimedOut
        } else {
            TaskOutcome::NoHandler
        }
    });
    let report = result.unwrap();
    assert!(report.pipeline.state.is_complete);
    assert!(!report.pipeline.state.is_successful);
    assert_eq!(steps, vec!["start a", "fail a", "start c", "finish c"]);
    let a = report.pipeline.state.task_states.get("a").unwrap();
    assert_eq!(a.status, TaskStatus::TimedOut);
    let b = report.pipeline.state.task_states.get("b").unwrap();
    assert_eq!(b.status, TaskStatus::Skipped);
    assert!(b.start_time.is_none());
}

#[test]
fn test_run_retries_failed_tasks() {
    let mut p = Pipeline::new("p", "Retry");
    p.add_task(Task::new("a", "A").with_retry_count(2)).unwrap();
    let mut failures_left = 2;
    let (result, steps) = drive(&executor_with(1, false), p, |_, _| {
        if failures_left > 0 {
            failures_left -= 1;
            TaskOutcome::Returned(Err(GaiaError::Other("flaky".to_string())))
        } else {
            TaskOutcome::Returned(Ok(TaskOutput::Bool(true)))
        }
    });
    let report = result.unwrap();
    assert_eq!(steps, vec!["start a", "finish a"]);
    let a = report.pipeline.state.task_states.get("a").unwrap();
    assert_eq!(a.retry_count, 2);
    assert!(matches!(a.status, TaskStatus::Completed(TaskOutput::Bool(true))));

    let mut q = Pipeline::new("q", "Out of retries");
    q.add_task(Task::new("a", "A").with_retry_count(1)).unwrap();
    let mut calls = 0;
    let (result, steps) = drive(&executor_with(1, false), q, |_, _| {
        calls += 1;
        TaskOutcome::Returned(Err(GaiaError::Other("down".to_string())))
    });
    assert_eq!(calls, 2);
    assert!(matches!(result, Err(GaiaError::TaskExecutionFailed(_))));
    assert_eq!(steps, vec!["start a", "fail a"]);
}

#[test]
fn test_order_by_count() {
    assert_eq!(order_by_count(&vec![2, 0, 1, 0]), vec![1, 3, 2, 0]);
    assert_eq!(order_by_count(&vec![]), Vec::<usize>::new());
    assert_eq!(order_by_count(&vec![5, 5, 5]), vec![0, 1, 2]);
}

#[test]
fn test_run_keeps_slots_busy() {
    let mut p = Pipeline::new("p", "Busy");
    for i in 0..5 {
        p.add_task(Task::new(&format!("t{}", i), "T")).unwrap();
    }
    p.add_task(Task::new("last", "L").add_dependency("t0").add_dependency("t4")).unwrap();
    let deps: Vec<(String, Vec<String>)> = (0..p.tasks.len())
        .map(|i| (p.tasks.key_at(i).clone(), p.tasks.value_at(i).dependencies.to_vec()))
        .collect();
    let (result, steps) = drive(&executor_with(2, true), p, |_, _| TaskOutcome::NoHandler);
    assert!(result.is_ok());
    let mut running: usize = 0;
    let mut started: Vec<String> = Vec::new();
    let mut finished: Vec<String> = Vec::new();
    for s in &steps {
        if let Some(id) = s.strip_prefix("start ") {
            running += 1;
            started.push(id.to_string());
        } else if let Some(id) = s.strip_prefix("finish ") {
            let could_start = deps
                .iter()
                .any(|(k, ds)| !started.contains(k) && ds.iter().all(|d| finished.contains(d)));
            assert!(running == 2 || !could_start);
            running -= 1;
            finished.push(id.to_string());
        }
    }
    assert_eq!(finished.len(), 6);
}

#[test]
fn test_context_shows_every_task() {
    let mut p = Pipeline::new("p", "Seen");
    p.add_task(Task::new("a", "A")).unwrap();
    p.add_task(Task::new("b", "B")).unwrap();
    p.add_task(Task::new("c", "C").add_dependency("a")).unwrap();
    let mut run = executor_with(1, true).start_run(p, 0).unwrap();
    let ctx = run.context();
    assert_eq!(ctx.task_status("a"), Some(TaskStatus::Pending));
    assert_eq!(ctx.task_status("c"), Some(TaskStatus::Pending));
    assert!(ctx.task_status("zzz").is_none());
    assert_eq!(run.start_ready(1), vec!["a".to_string()]);
    let ctx = run.context();
    assert_eq!(ctx.task_status("a"), Some(TaskStatus::Running));
    assert_eq!(ctx.task_status("b"), Some(TaskStatus::Pending));
    assert!(matches!(run.report("a", TaskOutcome::Returned(Ok(TaskOutput::I32(5))), 2), Step::Completed(TaskOutput::I32(5))));
    let ctx = run.context();
    assert!(matches!(ctx.task_status("a"), Some(TaskStatus::Completed(TaskOutput::I32(5)))));
    assert_eq!(ctx.task_status("b"), Some(TaskStatus::Pending));
}

#[test]
fn test_finished_run_gives_every_task_a_state() {
    let mut p = Pipeline::new("p", "All");
    p.add_task(Task::new("a", "A")).unwrap();
    p.add_task(Task::new("b", "B")).unwrap();
    let (result, _) = drive(&executor_with(2, true), p, |_, _| TaskOutcome::NoHandler);
    let report = result.unwrap();
    assert!(report.pipeline.state.start_time.is_some());
    assert!(report.pipeline.state.is_successful);
    for id in ["a", "b"] {
        let st = report.pipeline.state.task_states.get(id).unwrap();
        assert!(matches!(st.status, TaskStatus::Completed(TaskOutput::Unit)));
        assert!(st.start_time.is_some() && st.end_time.is_some());
    }
}
