use gaia::ids::IdSet;
use gaia::task::{Task, TaskOutput, TaskStatus};
use std::time::Duration;

#[test]
fn test_task_new() {
    let task = Task::new("task-1", "Test Task");
    assert_eq!(task.id, "task-1");
    assert_eq!(task.name, "Test Task");
    assert_eq!(task.description, None);
    assert!(task.dependencies.is_empty());
    assert_eq!(task.timeout, None);
    assert_eq!(task.retry_count, 0);
    assert_eq!(task.status, TaskStatus::Pending);
}

#[test]
fn test_task_with_description() {
    let task = Task::new("task-1", "Test Task").with_description("A test task");
    assert_eq!(task.description, Some("A test task".to_string()));
}

#[test]
fn test_task_with_timeout() {
    let timeout = Duration::from_secs(60);
    let task = Task::new("task-1", "Test Task").with_timeout(timeout);
    assert_eq!(task.timeout, Some(timeout));
}

#[test]
fn test_task_with_retry_count() {
    let task = Task::new("task-1", "Test Task").with_retry_count(3);
    assert_eq!(task.retry_count, 3);
}

#[test]
fn test_task_add_dependency() {
    let task = Task::new("task-1", "Test Task");
    let task = task.add_dependency("dependency-1");
    assert!(task.dependencies.contains("dependency-1"));
    assert_eq!(task.dependencies.len(), 1);

    // Add another dependency
    let task = task.add_dependency("dependency-2");
    assert!(task.dependencies.contains("dependency-2"));
    assert_eq!(task.dependencies.len(), 2);

    // Add duplicate dependency
    let task = task.add_dependency("dependency-1");
    assert_eq!(task.dependencies.len(), 2); // Should still be 2
}

#[test]
fn test_task_status_transitions() {
    let mut task = Task::new("task-1", "Test Task");
    assert_eq!(task.status, TaskStatus::Pending);

    // Transition to Running
    task.status = TaskStatus::Running;
    assert_eq!(task.status, TaskStatus::Running);

    // Transition to Completed
    task.status = TaskStatus::Completed(TaskOutput::Unit);
    assert_eq!(matches!(task.status, TaskStatus::Completed(_)), true);

    // Transition to Failed
    task.status = TaskStatus::Failed;
    assert_eq!(task.status, TaskStatus::Failed);

    // Transition to Cancelled
    task.status = TaskStatus::Cancelled;
    assert_eq!(task.status, TaskStatus::Cancelled);
}

#[test]
fn test_task_builder_pattern() {
    let task = Task::new("task-1", "Test Task")
        .with_description("A test task")
        .with_timeout(Duration::from_secs(60))
        .with_retry_count(3);

    assert_eq!(task.id, "task-1");
    assert_eq!(task.name, "Test Task");
    assert_eq!(task.description, Some("A test task".to_string()));
    assert_eq!(task.timeout, Some(Duration::from_secs(60)));
    assert_eq!(task.retry_count, 3);
    assert_eq!(task.status, TaskStatus::Pending);
}

#[test]
fn test_task_with_dependencies_replaces_set() {
    let mut deps = IdSet::new();
    deps.insert("a".to_string());
    deps.insert("b".to_string());
    deps.insert("a".to_string());
    let task = Task::new("t", "T").add_dependency("z").with_dependencies(deps);
    assert_eq!(task.dependencies.len(), 2);
    assert!(task.dependencies.contains("a"));
    assert!(task.dependencies.contains("b"));
    assert!(!task.dependencies.contains("z"));
}
