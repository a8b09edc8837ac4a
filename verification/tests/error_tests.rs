use gaia::error::GaiaError;

#[test]
fn test_error_messages() {
    assert_eq!(GaiaError::TaskNotFound("a".to_string()).message(), "Task not found: a");
    assert_eq!(GaiaError::PipelineNotFound("p".to_string()).message(), "Pipeline not found: p");
    assert_eq!(GaiaError::TaskNotValid("bad".to_string()).message(), "Task is not valid: bad");
    assert_eq!(
        GaiaError::TaskExecutionFailed("oops".to_string()).message(),
        "Task execution failed: oops"
    );
    assert_eq!(GaiaError::TaskTimeout.message(), "Task timed out");
    assert_eq!(GaiaError::CircularDependency.message(), "Circular dependency detected in pipeline");
    assert_eq!(
        GaiaError::DependencyNotSatisfied("d".to_string()).message(),
        "Dependency not satisfied: d"
    );
    assert_eq!(GaiaError::Other("anything".to_string()).message(), "anything");
}

#[test]
fn test_errors_of_other_libraries_convert() {
    let io = std::io::Error::new(std::io::ErrorKind::Other, "disk full");
    let e = GaiaError::from(io);
    assert!(matches!(e, GaiaError::Io(_)));
    assert_eq!(e.message(), "IO error: disk full");

    let json = serde_json::from_str::<u32>("not json").unwrap_err();
    let text = format!("{}", json);
    let e = GaiaError::from(json);
    assert!(matches!(e, GaiaError::Serialization(_)));
    assert_eq!(e.message(), format!("Serialization error: {}", text));
}
