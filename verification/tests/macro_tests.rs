//! Pipelines built as the declarative pipeline definition builds them: the
//! pipeline's id (and, without a name, its name) is the identifier, each task's
//! id is its identifier, and dependencies name tasks by identifier.
use gaia::pipeline::Pipeline;
use gaia::task::{Task, TaskStatus};
use std::time::Duration;

#[test]
fn test_define_pipeline_macro_basic() {
    let mut pipeline = Pipeline::new("test_pipeline", "Test Pipeline");
    pipeline.add_task(Task::new("task1", "Task 1")).unwrap();
    pipeline
        .add_task(Task::new("task2", "Task 2").add_dependency("task1"))
        .unwrap();
    assert_eq!(pipeline.id, "test_pipeline");
    assert_eq!(pipeline.name, "Test Pipeline");
    assert_eq!(pipeline.tasks.len(), 2);
    assert!(pipeline.tasks.contains_key("task1"));
    assert!(pipeline.tasks.contains_key("task2"));
    let task1 = pipeline.tasks.get("task1").unwrap();
    let task2 = pipeline.tasks.get("task2").unwrap();
    assert_eq!(task1.name, "Task 1");
    assert_eq!(task2.name, "Task 2");
    assert!(task2.dependencies.contains("task1"));
    assert_eq!(task1.status, TaskStatus::Pending);
}

#[test]
fn test_define_pipeline_macro_without_name() {
    let mut pipeline = Pipeline::new("test_pipeline", "test_pipeline");
    pipeline.add_task(Task::new("task1", "Task 1")).unwrap();
    assert_eq!(pipeline.id, "test_pipeline");
    assert_eq!(pipeline.name, "test_pipeline");
    assert_eq!(pipeline.tasks.len(), 1);
    assert!(pipeline.tasks.contains_key("task1"));
    let task1 = pipeline.tasks.get("task1").unwrap();
    assert_eq!(task1.name, "Task 1");
    assert_eq!(task1.status, TaskStatus::Pending);
}

#[test]
fn test_define_pipeline_macro_with_schedule() {
    let mut pipeline = Pipeline::new("test_pipeline", "Test Pipeline").with_schedule("0 0 * * *");
    pipeline.add_task(Task::new("task1", "Task 1")).unwrap();
    assert_eq!(pipeline.id, "test_pipeline");
    assert_eq!(pipeline.name, "Test Pipeline");
    assert_eq!(pipeline.schedule, Some("0 0 * * *".to_string()));
    assert_eq!(pipeline.tasks.len(), 1);
    assert!(pipeline.tasks.contains_key("task1"));
}

#[test]
fn test_define_pipeline_macro_with_schedule_without_name() {
    let mut pipeline = Pipeline::new("test_pipeline", "test_pipeline").with_schedule("0 0 * * *");
    pipeline.add_task(Task::new("task1", "Task 1")).unwrap();
    assert_eq!(pipeline.id, "test_pipeline");
    assert_eq!(pipeline.name, "test_pipeline");
    assert_eq!(pipeline.schedule, Some("0 0 * * *".to_string()));
    assert_eq!(pipeline.tasks.len(), 1);
    assert!(pipeline.tasks.contains_key("task1"));
}

#[test]
fn test_define_pipeline_macro_with_timeout_options() {
    // Integer seconds become a duration of that many seconds
    let mut pipeline_int = Pipeline::new("test_pipeline_int", "test_pipeline_int");
    pipeline_int
        .add_task(Task::new("task1", "Task with Integer Timeout").with_timeout(Duration::from_secs(15)))
        .unwrap();

    // A duration is used directly
    let mut pipeline_duration = Pipeline::new("test_pipeline_duration", "test_pipeline_duration");
    pipeline_duration
        .add_task(Task::new("task1", "Task with Duration Timeout").with_timeout(Duration::from_secs(30)))
        .unwrap();

    let task_int = pipeline_int.tasks.get("task1").unwrap();
    assert_eq!(task_int.timeout, Some(Duration::from_secs(15)));

    let task_duration = pipeline_duration.tasks.get("task1").unwrap();
    assert_eq!(task_duration.timeout, Some(Duration::from_secs(30)));
}
