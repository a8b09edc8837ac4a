use gaia::state::{PipelineState, TaskState};
use gaia::task::{TaskOutput, TaskStatus};
use std::time::Duration;

#[test]
fn test_state_new() {
    let s = PipelineState::new();
    assert!(s.start_time.is_none());
    assert!(s.end_time.is_none());
    assert!(s.task_states.is_empty());
    assert!(!s.is_complete);
    assert!(!s.is_successful);
    assert!(s.duration().is_none());
}

#[test]
fn test_update_task_sets_times_once() {
    let mut s = PipelineState::new();
    s.update_task_at("t", TaskStatus::Running, 5);
    s.update_task_at("t", TaskStatus::Running, 9);
    let st = s.task_states.get("t").unwrap();
    assert_eq!(st.start_time, Some(5));
    assert_eq!(st.end_time, None);
    assert_eq!(st.status, TaskStatus::Running);

    s.update_task_at("t", TaskStatus::Completed(TaskOutput::Unit), 12);
    s.update_task_at("t", TaskStatus::Failed, 20);
    let st = s.task_states.get("t").unwrap();
    assert_eq!(st.start_time, Some(5));
    assert_eq!(st.end_time, Some(12));
    assert_eq!(st.status, TaskStatus::Failed);
    assert_eq!(st.retry_count, 0);
    assert!(st.error.is_none());
}

#[test]
fn test_update_task_with_a_value_takes_the_status() {
    let mut s = PipelineState::new();
    s.update_task_at("t", TaskStatus::Running, 1);
    s.update_task_at("t", TaskStatus::Completed(TaskOutput::I32(3)), 4);
    let st = s.task_states.get("t").unwrap();
    assert!(matches!(st.status, TaskStatus::Completed(TaskOutput::I32(3))));
    assert_eq!(st.end_time, Some(4));
    assert_eq!(st.start_time, Some(1));

    let mut fresh = PipelineState::new();
    fresh.update_task("t", TaskStatus::Completed(TaskOutput::I32(2)));
    assert_eq!(fresh.task_states.len(), 1);
    let st = fresh.task_states.get("t").unwrap();
    assert!(matches!(st.status, TaskStatus::Completed(TaskOutput::I32(2))));
    assert!(st.end_time.is_some());
    assert_eq!(st.retry_count, 0);
    assert!(st.error.is_none());

    s.update_task_at("u", TaskStatus::Completed(TaskOutput::Text(String::new())), 7);
    let st = s.task_states.get("u").unwrap();
    assert!(matches!(st.status, TaskStatus::Completed(TaskOutput::Text(_))));
    assert_eq!(st.start_time, None);
    assert_eq!(st.end_time, Some(7));
}

#[test]
fn test_timed_out_sets_no_end_time() {
    let mut s = PipelineState::new();
    s.update_task_at("t", TaskStatus::TimedOut, 3);
    let st = s.task_states.get("t").unwrap();
    assert_eq!(st.status, TaskStatus::TimedOut);
    assert_eq!(st.end_time, None);
}

#[test]
fn test_duration_at() {
    let mut s = PipelineState::new();
    assert_eq!(s.duration_at(10), None);
    s.start_at(100);
    assert_eq!(s.duration_at(150), Some(Duration::from_millis(50)));
    assert_eq!(s.duration_at(40), Some(Duration::from_millis(0)));
    s.complete_at(true, 400);
    assert!(s.is_complete);
    assert!(s.is_successful);
    assert_eq!(s.duration_at(1000), Some(Duration::from_millis(300)));
    assert_eq!(s.duration(), Some(Duration::from_millis(300)));
}

#[test]
fn test_start_and_complete_with_the_clock() {
    let mut s = PipelineState::new();
    s.start();
    assert!(s.start_time.is_some());
    assert!(s.duration().is_some());
    s.complete(false);
    assert!(s.end_time.is_some());
    assert!(s.is_complete);
    assert!(!s.is_successful);
}

#[test]
fn test_update_keeps_retries_and_error() {
    let mut s = PipelineState::new();
    s.task_states.insert(
        "t".to_string(),
        TaskState {
            status: TaskStatus::Failed,
            start_time: Some(1),
            end_time: Some(2),
            retry_count: 2,
            error: Some("first attempt failed".to_string()),
        },
    );
    s.update_task_at("t", TaskStatus::Running, 10);
    let st = s.task_states.get("t").unwrap();
    assert_eq!(st.status, TaskStatus::Running);
    assert_eq!(st.start_time, Some(1));
    assert_eq!(st.end_time, Some(2));
    assert_eq!(st.retry_count, 2);
    assert_eq!(st.error.as_deref(), Some("first attempt failed"));
}

#[test]
fn test_record_retry() {
    let mut s = PipelineState::new();
    s.update_task_at("t", TaskStatus::Running, 5);
    s.record_retry("t");
    s.record_retry("t");
    let st = s.task_states.get("t").unwrap();
    assert_eq!(st.retry_count, 2);
    assert_eq!(st.status, TaskStatus::Running);
    assert_eq!(st.start_time, Some(5));
    s.record_retry("u");
    assert_eq!(s.task_states.get("u").unwrap().retry_count, 1);
}
