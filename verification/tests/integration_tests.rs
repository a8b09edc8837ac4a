use gaia::error::GaiaError;
use gaia::executor::{Executor, ExecutorContext, TaskOutcome};
use gaia::pipeline::Pipeline;
use gaia::schedule::{RunEvent, RunReport, Step};
use gaia::task::{CastTask, Task, TaskOutput, TaskStatus};


/// Runs `pipeline` step by step, running each started task at once with
/// `handler` and reporting what it gave; returns the result of the run and
/// its steps.
fn drive(
    executor: &Executor,
    pipeline: Pipeline,
    mut handler: impl FnMut(&str, &ExecutorContext) -> TaskOutcome,
) -> (Result<RunReport, GaiaError>, Vec<String>) {
    let mut run = executor.start_run(pipeline, 1).unwrap();
    let mut running: Vec<String> = Vec::new();
    let mut steps: Vec<String> = Vec::new();
    loop {
        for id in run.start_ready(2) {
            running.push(id);
        }
        if run.is_stopped() || run.running_count() == 0 {
            break;
        }
        let id = running.remove(0);
        let ctx = run.context();
        let outcome = handler(&id, &ctx);
        match run.report(&id, outcome, 3) {
            Step::Retry => running.insert(0, id),
            _ => {}
        }
        if run.is_stopped() {
            break;
        }
    }
    for e in run.events() {
        steps.push(match e {
            RunEvent::Started(x) => format!("start {}", x),
            RunEvent::Finished(x) => format!("finish {}", x),
            RunEvent::Failed(x) => format!("fail {}", x),
        });
    }
    (run.finish(4), steps)
}

#[test]
fn test_pipeline_execution_with_dependencies() {
    let executor = Executor::new();
    let mut pipeline = Pipeline::new("pipeline-deps", "Pipeline with Dependencies");

    let task1 = Task::new("task-1", "First Task");
    pipeline.add_task(task1).unwrap();

    let task2 = Task::new("task-2", "Second Task").add_dependency("task-1");
    pipeline.add_task(task2).unwrap();

    let mut calls: Vec<String> = Vec::new();
    let (result, _) = drive(&executor, pipeline, |id, ctx| {
        calls.push(id.to_string());
        if id == "task-1" {
            TaskOutcome::Returned(Ok(TaskOutput::I32(2)))
        } else {
            match ctx.task_status("task-1") {
                Some(result) => match result {
                    TaskStatus::Completed(value) => {
                        let value = value.cast::<i32>();
                        assert_eq!(value, Some(&2));
                    }
                    _ => panic!("Dependency task result not as expected"),
                },
                _ => panic!("Dependency task result not as expected"),
            }
            TaskOutcome::Returned(Ok(TaskOutput::I32(3)))
        }
    });

    assert!(result.is_ok());
    assert_eq!(calls, vec!["task-1".to_string(), "task-2".to_string()]);
}

#[test]
fn test_executor_configuration_affects_execution() {
    let executor = Executor::new();
    let mut pipeline = Pipeline::new("pipeline-config", "Pipeline for Config Testing");

    for i in 1..=4 {
        let task = Task::new(&format!("task-{}", i), "Test Task");
        pipeline.add_task(task).unwrap();
    }

    let (result, _) = drive(&executor, pipeline, |_, _| TaskOutcome::NoHandler);

    assert!(result.is_ok());
}

#[test]
fn test_pipeline_with_error_handling() {
    let executor = Executor::new();
    let mut pipeline = Pipeline::new("pipeline-errors", "Pipeline with Error Handling");

    for i in 1..=4 {
        let task = Task::new(&format!("task-{}", i), "Test Task");
        pipeline.add_task(task).unwrap();
    }

    let (result, _) = drive(&executor, pipeline, |_, _| TaskOutcome::NoHandler);

    assert!(result.is_ok());
}
