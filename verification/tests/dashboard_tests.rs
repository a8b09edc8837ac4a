use gaia::dashboard::{get_metrics, get_pipeline_details, list_pipelines};

#[test]
fn test_list_pipelines() {
    let list = list_pipelines();
    let rows: Vec<(&str, &str, &str, &str)> = list
        .iter()
        .map(|p| (p.id.as_str(), p.name.as_str(), p.status.as_str(), p.progress.as_str()))
        .collect();
    assert_eq!(
        rows,
        vec![
            ("data-processing", "Data Processing Pipeline", "Running", "90%"),
            ("web-crawler", "Web Crawler Pipeline", "Completed", "100%"),
            ("etl-pipeline", "ETL Pipeline", "Failed", "65%"),
        ]
    );
}

#[test]
fn test_get_pipeline_details() {
    let (summary, tasks) = get_pipeline_details("abc");
    assert_eq!(summary.id, "abc");
    assert_eq!(summary.name, "Pipeline abc");
    assert_eq!(summary.status, "Running");
    assert_eq!(summary.progress, "90%");
    let ids: Vec<&str> = tasks.iter().map(|t| t.id.as_str()).collect();
    assert_eq!(ids, vec!["extract", "transform", "load", "validate"]);
    assert!(tasks[0].dependencies.is_empty());
    assert_eq!(tasks[1].dependencies, vec!["extract".to_string()]);
    assert_eq!(tasks[1].status, "Running");
    assert_eq!(tasks[3].name, "Validate Data");
}

#[test]
fn test_get_metrics_is_empty() {
    assert_eq!(get_metrics(), "");
}
