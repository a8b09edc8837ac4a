use gaia::task::{CastTask, TaskOutput, TaskResult, TaskStatus};

#[test]
fn test_cast_gives_the_value_of_its_type_only() {
    let out = TaskOutput::I32(2);
    assert_eq!(out.cast::<i32>(), Some(&2));
    assert_eq!(out.cast::<i64>(), None);
    assert_eq!(TaskOutput::Str("done").cast::<&'static str>(), Some(&"done"));
    assert_eq!(TaskOutput::Text("x".to_string()).cast::<String>(), Some(&"x".to_string()));
    assert_eq!(TaskOutput::Unit.cast::<()>(), Some(&()));
    assert_eq!(TaskOutput::Unit.cast::<bool>(), None);
}

#[test]
fn test_is_empty() {
    assert!(().is_empty());
    assert!("".is_empty());
    assert!(!"a".is_empty());
    assert!(TaskResult::is_empty(&String::new()));
    assert!(TaskResult::is_empty(&Vec::<u8>::new()));
    assert!(!TaskResult::is_empty(&vec![1u8]));
    assert!(TaskResult::is_empty(&0i32));
    assert!(!TaskResult::is_empty(&7u64));
    assert!(!TaskResult::is_empty(&true));
    assert!(!TaskResult::is_empty(&false));
    assert!(TaskOutput::Unit.is_empty());
    assert!(!TaskOutput::Usize(1).is_empty());
}

#[test]
fn test_completed_statuses_are_never_equal() {
    assert_eq!(TaskStatus::Pending, TaskStatus::Pending);
    assert_ne!(TaskStatus::Pending, TaskStatus::Running);
    assert_ne!(TaskStatus::Completed(TaskOutput::Unit), TaskStatus::Completed(TaskOutput::Unit));
    assert_eq!(TaskStatus::default(), TaskStatus::Pending);
}
