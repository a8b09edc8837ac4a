use gaia::error::GaiaError;
use gaia::executor::{Executor, ExecutorConfig, ExecutorContext, TaskOutcome, TaskStep};
use gaia::ids::IdMap;
use gaia::pipeline::Pipeline;
use gaia::task::{Task, TaskOutput, TaskStatus};
use std::time::Duration;

#[test]
fn test_executor_new() {
    let executor = Executor::new();
    assert_eq!(executor.config().default_timeout, Duration::from_secs(3600));
    assert_eq!(executor.config().max_concurrent_tasks, 4);
    assert_eq!(executor.config().continue_on_failure, true);
}

#[test]
fn test_executor_with_config() {
    let config = ExecutorConfig {
        default_timeout: Duration::from_secs(1800),
        max_concurrent_tasks: 8,
        continue_on_failure: true,
    };
    let executor = Executor::with_config(config);
    assert_eq!(executor.config().default_timeout, Duration::from_secs(1800));
    assert_eq!(executor.config().max_concurrent_tasks, 8);
    assert_eq!(executor.config().continue_on_failure, true);
}

#[test]
fn test_execute_pipeline_empty() {
    let executor = Executor::new();
    let pipeline = Pipeline::new("pipeline-1", "Test Pipeline");

    let mut run = executor.start_run(pipeline, 0).unwrap();
    assert!(run.start_ready(0).is_empty());
    assert_eq!(run.running_count(), 0);
    let result = run.finish(0);
    assert!(result.is_ok());
}

#[test]
fn test_execute_task() {
    let executor = Executor::new();
    let mut task = Task::new("task-1", "Test Task");
    let result = executor.settle_task(&mut task, TaskOutcome::Returned(Ok(TaskOutput::I32(7))));
    assert!(matches!(result, Ok(TaskOutput::I32(7))));
    assert_eq!(matches!(task.status, TaskStatus::Completed(TaskOutput::I32(7))), true);
}

#[test]
fn test_settle_task_without_handler() {
    let executor = Executor::new();
    let mut task = Task::new("task-1", "Test Task");
    let result = executor.settle_task(&mut task, TaskOutcome::NoHandler);
    assert!(matches!(result, Ok(TaskOutput::Unit)));
    assert!(matches!(task.status, TaskStatus::Completed(_)));
}

#[test]
fn test_task_timeout() {
    let executor = Executor::new();
    let mut task = Task::new("task-timeout", "Timeout Task").with_timeout(Duration::from_millis(100));
    let result = executor.settle_task(&mut task, TaskOutcome::TimedOut);
    assert!(matches!(result, Err(GaiaError::TaskTimeout)));
    assert_eq!(task.status, TaskStatus::TimedOut);
}

#[test]
fn test_task_error_handling() {
    let executor = Executor::new();
    let mut task = Task::new("task-error", "Error Task");
    let failure = GaiaError::TaskExecutionFailed("Test error".to_string());
    let result = executor.settle_task(&mut task, TaskOutcome::Returned(Err(failure)));
    match result {
        Err(GaiaError::TaskExecutionFailed(msg)) => {
            assert_eq!(msg, "Task task-error failed: Task execution failed: Test error");
        }
        _ => panic!("expected a failed execution"),
    }
    assert_eq!(task.status, TaskStatus::Failed);
}

#[test]
fn test_context_task_status() {
    let mut statuses: IdMap<TaskStatus> = IdMap::new();
    statuses.insert("a".to_string(), TaskStatus::Completed(TaskOutput::I32(2)));
    statuses.insert("b".to_string(), TaskStatus::Running);
    let ctx = ExecutorContext::new(&statuses);
    assert!(matches!(ctx.task_status("a"), Some(TaskStatus::Completed(TaskOutput::I32(2)))));
    assert_eq!(ctx.task_status("b"), Some(TaskStatus::Running));
    assert!(ctx.task_status("c").is_none());
}

#[test]
fn test_effective_timeout() {
    let executor = Executor::new();
    let own = Task::new("a", "A").with_timeout(Duration::from_millis(100));
    assert_eq!(executor.effective_timeout(&own), Duration::from_millis(100));
    let none = Task::new("b", "B");
    assert_eq!(executor.effective_timeout(&none), Duration::from_secs(3600));
}

#[test]
fn test_needs_retry() {
    let executor = Executor::new();
    let task = Task::new("a", "A").with_retry_count(2);
    let failed = TaskOutcome::Returned(Err(GaiaError::Other("x".to_string())));
    assert!(executor.needs_retry(&task, &failed, 0));
    assert!(executor.needs_retry(&task, &TaskOutcome::TimedOut, 1));
    assert!(!executor.needs_retry(&task, &failed, 2));
    assert!(!executor.needs_retry(&task, &TaskOutcome::Returned(Ok(TaskOutput::Unit)), 0));
    assert!(!executor.needs_retry(&task, &TaskOutcome::NoHandler, 0));
    assert!(!executor.needs_retry(&Task::new("b", "B"), &TaskOutcome::TimedOut, 0));
}

#[test]
fn test_next_task_step() {
    let executor = Executor::new();
    let mut task = Task::new("a", "A").with_retry_count(1);
    let failed = || TaskOutcome::Returned(Err(GaiaError::Other("x".to_string())));
    match executor.next_task_step(&mut task, failed(), 0) {
        TaskStep::Retry(n) => assert_eq!(n, 1),
        TaskStep::Done(_) => panic!("a task with a retry left runs again"),
    }
    assert_eq!(task.status, TaskStatus::Pending);
    match executor.next_task_step(&mut task, failed(), 1) {
        TaskStep::Done(Err(GaiaError::TaskExecutionFailed(msg))) => assert_eq!(msg, "Task a failed: x"),
        step => panic!("unexpected step {:?}", step),
    }
    assert_eq!(task.status, TaskStatus::Failed);
    let mut second = Task::new("b", "B");
    match executor.next_task_step(&mut second, TaskOutcome::Returned(Ok(TaskOutput::I32(3))), 0) {
        TaskStep::Done(Ok(TaskOutput::I32(3))) => {},
        step => panic!("unexpected step {:?}", step),
    }
    assert!(matches!(second.status, TaskStatus::Completed(TaskOutput::I32(3))));
}
