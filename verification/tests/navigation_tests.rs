use gaia::navigation::{is_active, link_label, route_path, NavLink, Route};

#[test]
fn test_active_links() {
    let details = Route::PipelineDetails("p1".to_string());
    assert!(is_active(&details, NavLink::Pipelines));
    assert!(!is_active(&details, NavLink::Dashboard));
    assert!(is_active(&Route::Home, NavLink::Dashboard));
    assert!(is_active(&Route::TaskDetails("t".to_string()), NavLink::Tasks));
    assert!(!is_active(&Route::Tasks, NavLink::Pipelines));
    assert!(is_active(&Route::Metrics, NavLink::Metrics));
    assert!(!is_active(&Route::Metrics, NavLink::Tasks));
}

#[test]
fn test_labels_and_paths() {
    assert_eq!(link_label(NavLink::Dashboard), "Dashboard");
    assert_eq!(link_label(NavLink::Metrics), "Metrics");
    assert_eq!(route_path(&Route::Home), "/");
    assert_eq!(route_path(&Route::PipelineDetails("abc".to_string())), "/pipelines/abc");
    assert_eq!(route_path(&Route::TaskDetails("x".to_string())), "/tasks/x");
    assert_eq!(route_path(&Route::Metrics), "/metrics");
}
