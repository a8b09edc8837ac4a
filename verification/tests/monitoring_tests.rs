use gaia::monitoring::{pipeline_metric_samples, task_metric_samples, task_status_code};
use gaia::pipeline::Pipeline;
use gaia::task::Task;
use gaia::state::TaskState;
use gaia::task::{TaskOutput, TaskStatus};

fn labels(id: &str, name: &str) -> Vec<(String, String)> {
    vec![
        ("task_id".to_string(), id.to_string()),
        ("task_name".to_string(), name.to_string()),
    ]
}

#[test]
fn test_task_status_codes() {
    assert_eq!(task_status_code(&TaskStatus::Pending), 0);
    assert_eq!(task_status_code(&TaskStatus::Running), 1);
    assert_eq!(task_status_code(&TaskStatus::Completed(TaskOutput::Unit)), 2);
    assert_eq!(task_status_code(&TaskStatus::Failed), 3);
    assert_eq!(task_status_code(&TaskStatus::TimedOut), 4);
    assert_eq!(task_status_code(&TaskStatus::Skipped), 5);
    assert_eq!(task_status_code(&TaskStatus::Cancelled), 6);
}

#[test]
fn test_task_metric_samples_full() {
    let st = TaskState {
        status: TaskStatus::Failed,
        start_time: Some(10),
        end_time: Some(25),
        retry_count: 2,
        error: Some("boom".to_string()),
    };
    let samples = task_metric_samples("t1", "Task One", &st);
    assert_eq!(samples.len(), 3);
    assert_eq!(samples[0].name, "task.status");
    assert_eq!(samples[0].value, 3);
    assert_eq!(samples[1].name, "task.duration");
    assert_eq!(samples[1].value, 15);
    assert_eq!(samples[2].name, "task.retries");
    assert_eq!(samples[2].value, 2);
    for s in &samples {
        assert_eq!(s.labels, labels("t1", "Task One"));
    }
}

#[test]
fn test_task_metric_samples_status_only() {
    let st = TaskState {
        status: TaskStatus::Running,
        start_time: Some(10),
        end_time: None,
        retry_count: 0,
        error: None,
    };
    let samples = task_metric_samples("t2", "Two", &st);
    assert_eq!(samples.len(), 1);
    assert_eq!(samples[0].name, "task.status");
    assert_eq!(samples[0].value, 1);
    assert_eq!(samples[0].labels, labels("t2", "Two"));
}

#[test]
fn test_pipeline_metric_samples_in_state_order() {
    let mut p = Pipeline::new("p", "P");
    p.add_task(Task::new("a", "Alpha")).unwrap();
    p.add_task(Task::new("b", "Beta")).unwrap();
    p.state.update_task_at("b", TaskStatus::Running, 5);
    p.state.update_task_at("gone", TaskStatus::Running, 6);
    p.state.update_task_at("b", TaskStatus::Completed(TaskOutput::Unit), 9);
    p.state.update_task_at("a", TaskStatus::Running, 10);
    let samples = pipeline_metric_samples(&p);
    let seen: Vec<(String, u64, Vec<(String, String)>)> =
        samples.into_iter().map(|m| (m.name, m.value, m.labels)).collect();
    assert_eq!(
        seen,
        vec![
            ("task.status".to_string(), 2, labels("b", "Beta")),
            ("task.duration".to_string(), 4, labels("b", "Beta")),
            ("task.status".to_string(), 1, labels("a", "Alpha")),
        ]
    );
}
