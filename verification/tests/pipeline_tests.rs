use gaia::ids::IdSet;
use gaia::pipeline::Pipeline;
use gaia::task::Task;

#[test]
fn test_pipeline_new() {
    let pipeline = Pipeline::new("pipeline-1", "Test Pipeline");
    assert_eq!(pipeline.id, "pipeline-1");
    assert_eq!(pipeline.name, "Test Pipeline");
    assert_eq!(pipeline.description, None);
    assert!(pipeline.tasks.is_empty());
}

#[test]
fn test_pipeline_with_description() {
    let pipeline =
        Pipeline::new("pipeline-1", "Test Pipeline").with_description("A test pipeline");
    assert_eq!(pipeline.description, Some("A test pipeline".to_string()));
}

#[test]
fn test_add_task() {
    let mut pipeline = Pipeline::new("pipeline-1", "Test Pipeline");
    let task = Task::new("task-1", "Test Task").with_description("A test task");

    let result = pipeline.add_task(task);
    assert!(result.is_ok());
    assert_eq!(pipeline.tasks.len(), 1);
    assert!(pipeline.tasks.contains_key("task-1"));
}

#[test]
fn test_get_task() {
    let mut pipeline = Pipeline::new("pipeline-1", "Test Pipeline");
    let task = Task::new("task-1", "Test Task").with_description("A test task");

    pipeline.add_task(task).unwrap();

    let retrieved_task = pipeline.get_task("task-1");
    assert!(retrieved_task.is_some());
    let retrieved_task = retrieved_task.unwrap();
    assert_eq!(retrieved_task.id, "task-1");
    assert_eq!(retrieved_task.name, "Test Task");

    // Test getting a non-existent task
    let non_existent = pipeline.get_task("non-existent");
    assert!(non_existent.is_none());
}

#[test]
fn test_multiple_tasks() {
    let mut pipeline = Pipeline::new("pipeline-1", "Test Pipeline");

    // Add multiple tasks
    for i in 1..=3 {
        let task = Task::new(&format!("task-{}", i), &format!("Test Task {}", i))
            .with_description(&format!("A test task {}", i));
        pipeline.add_task(task).unwrap();
    }

    assert_eq!(pipeline.tasks.len(), 3);
    assert!(pipeline.tasks.contains_key("task-1"));
    assert!(pipeline.tasks.contains_key("task-2"));
    assert!(pipeline.tasks.contains_key("task-3"));
}

#[test]
fn test_task_with_dependencies() {
    let mut pipeline = Pipeline::new("pipeline-1", "Test Pipeline");

    // Add first task
    let task1 = Task::new("task-1", "Test Task 1").with_description("A test task 1");
    pipeline.add_task(task1).unwrap();

    // Add second task with dependency on first
    let mut deps = IdSet::new();
    deps.insert("task-1".to_string());
    let task2 = Task::new("task-2", "Test Task 2")
        .with_description("A test task 2")
        .with_dependencies(deps);
    pipeline.add_task(task2).unwrap();

    // Verify dependency relationship
    let task2 = pipeline.get_task("task-2").unwrap();
    assert_eq!(task2.dependencies.len(), 1);
    assert!(task2.dependencies.contains("task-1"));
}
