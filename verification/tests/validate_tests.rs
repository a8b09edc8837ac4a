use gaia::error::GaiaError;
use gaia::pipeline::Pipeline;
use gaia::task::{Task, TaskStatus};

#[test]
fn test_validate_accepts_empty_and_acyclic_pipelines() {
    assert!(Pipeline::new("p", "Empty").validate().is_ok());
    let mut p = Pipeline::new("p", "Chain");
    p.add_task(Task::new("a", "A")).unwrap();
    p.add_task(Task::new("b", "B").add_dependency("a")).unwrap();
    p.add_task(Task::new("c", "C").add_dependency("a").add_dependency("b")).unwrap();
    assert!(p.validate().is_ok());
}

#[test]
fn test_validate_reports_missing_dependency() {
    let mut p = Pipeline::new("p", "Missing");
    p.add_task(Task::new("a", "A").add_dependency("missing")).unwrap();
    match p.validate() {
        Err(GaiaError::TaskNotFound(id)) => assert_eq!(id, "missing"),
        _ => panic!("expected a missing task"),
    }
}

#[test]
fn test_validate_reports_self_dependency() {
    let mut p = Pipeline::new("p", "Self");
    p.add_task(Task::new("a", "A").add_dependency("a")).unwrap();
    assert!(matches!(p.validate(), Err(GaiaError::CircularDependency)));
}

#[test]
fn test_validate_reports_longer_cycle() {
    let mut p = Pipeline::new("p", "Cycle");
    p.add_task(Task::new("a", "A").add_dependency("c")).unwrap();
    p.add_task(Task::new("b", "B").add_dependency("a")).unwrap();
    p.add_task(Task::new("c", "C").add_dependency("b")).unwrap();
    p.add_task(Task::new("d", "D")).unwrap();
    assert!(matches!(p.validate(), Err(GaiaError::CircularDependency)));
}

#[test]
fn test_add_task_replaces_task_with_same_id() {
    let mut p = Pipeline::new("p", "Replace");
    p.add_task(Task::new("a", "First")).unwrap();
    p.add_task(Task::new("b", "Other")).unwrap();
    p.add_task(Task::new("a", "Second")).unwrap();
    assert_eq!(p.tasks.len(), 2);
    assert_eq!(p.get_task("a").unwrap().name, "Second");
    assert_eq!(p.get_task("b").unwrap().name, "Other");
}

#[test]
fn test_extend_adds_tasks_as_they_are() {
    let mut base = Pipeline::new("base", "Base");
    let mut running = Task::new("a", "From base");
    running.status = TaskStatus::Running;
    base.add_task(running).unwrap();
    base.add_task(Task::new("b", "Also from base").add_dependency("a")).unwrap();

    let mut p = Pipeline::new("p", "Extended");
    p.add_task(Task::new("a", "Own")).unwrap();
    p.add_task(Task::new("c", "Own too")).unwrap();
    assert!(p.extend(base).is_ok());

    assert_eq!(p.id, "p");
    assert_eq!(p.tasks.len(), 3);
    let a = p.get_task("a").unwrap();
    assert_eq!(a.name, "From base");
    assert_eq!(a.status, TaskStatus::Running);
    assert!(p.get_task("b").unwrap().dependencies.contains("a"));
    assert_eq!(p.get_task("c").unwrap().name, "Own too");
}

#[test]
fn test_pipeline_equality_is_by_id() {
    let mut p = Pipeline::new("same", "One");
    p.add_task(Task::new("a", "A")).unwrap();
    let q = Pipeline::new("same", "Two");
    assert!(p == q);
    assert!(Pipeline::new("x", "One") != Pipeline::new("y", "One"));
}
