use gaia::charts::{format_labels, label_value, metric_group, status_counts, status_label, MetricGroup};

fn pairs(items: &[(&str, &str)]) -> Vec<(String, String)> {
    items.iter().map(|(k, v)| (k.to_string(), v.to_string())).collect()
}

#[test]
fn test_metric_group() {
    assert_eq!(metric_group("task.duration"), MetricGroup::TaskDuration);
    assert_eq!(metric_group("task.status"), MetricGroup::TaskStatus);
    assert_eq!(metric_group("pipeline.duration"), MetricGroup::Pipeline);
    assert_eq!(metric_group("pipeline."), MetricGroup::Pipeline);
    assert_eq!(metric_group("pipeline"), MetricGroup::Other);
    assert_eq!(metric_group("task.retries"), MetricGroup::Other);
    assert_eq!(metric_group("task.duration.max"), MetricGroup::Other);
    assert_eq!(metric_group(""), MetricGroup::Other);
}

#[test]
fn test_label_value() {
    let labels = pairs(&[("task_id", "t1"), ("task_name", "Fetch"), ("task_name", "Second")]);
    assert_eq!(label_value(&labels, "task_name"), "Fetch");
    assert_eq!(label_value(&labels, "task_id"), "t1");
    assert_eq!(label_value(&labels, "pipeline_name"), "Unknown");
    assert_eq!(label_value(&Vec::new(), "task_name"), "Unknown");
}

#[test]
fn test_status_label() {
    let names: Vec<&str> = (-1..7).map(status_label).collect();
    assert_eq!(
        names,
        vec!["Unknown", "Pending", "Running", "Completed", "Failed", "Cancelled", "Unknown", "Unknown"]
    );
}

#[test]
fn test_status_counts() {
    let counts = status_counts(&vec![2, 2, 0, 7, 2, 9]);
    assert_eq!(counts.len(), 3);
    assert_eq!(counts.get("Completed"), Some(&3));
    assert_eq!(counts.get("Pending"), Some(&1));
    assert_eq!(counts.get("Unknown"), Some(&2));
    assert_eq!(counts.get("Running"), None);
    assert!(status_counts(&Vec::new()).is_empty());
}

#[test]
fn test_format_labels() {
    assert_eq!(format_labels(&Vec::new()), "");
    assert_eq!(format_labels(&pairs(&[("a", "1")])), "a: 1");
    assert_eq!(
        format_labels(&pairs(&[("task_id", "t1"), ("task_name", "Fetch")])),
        "task_id: t1, task_name: Fetch"
    );
}
