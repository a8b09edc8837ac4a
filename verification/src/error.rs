//! Errors that Gaia operations report.
use vstd::prelude::*;

verus! {

#[verifier::external_type_specification]
#[verifier::external_body]
pub struct ExIoError(std::io::Error);

#[verifier::external_type_specification]
#[verifier::external_body]
pub struct ExJsonError(serde_json::Error);

/// Errors that can occur in Gaia operations.
#[derive(Debug)]
pub enum GaiaError {
    /// A task that was looked up or depended upon does not exist; holds its id.
    TaskNotFound(String),
    /// A pipeline that was looked up does not exist; holds its id.
    PipelineNotFound(String),
    /// A task's configuration is not valid; holds the reason.
    TaskNotValid(String),
    /// A task's execution function reported an error; holds the details.
    TaskExecutionFailed(String),
    /// A task ran longer than its timeout.
    TaskTimeout,
    /// The dependency graph of a pipeline has a cycle.
    CircularDependency,
    /// A dependency of a task had not completed; holds the dependency's id.
    DependencyNotSatisfied(String),
    /// An input/output operation failed.
    Io(std::io::Error),
    /// Serializing or deserializing JSON failed.
    Serialization(serde_json::Error),
    /// Any other error; holds its description.
    Other(String),
}

/// Whether `t` is the human-readable text of `e`: a fixed phrase for each
/// variant followed by the variant's detail. For the two variants that wrap an
/// error of another library, the detail is that error's own text.
pub open spec fn is_display_text(e: GaiaError, t: Seq<char>) -> bool {
    match e {
        GaiaError::TaskNotFound(s) => t == "Task not found: "@ + s@,
        GaiaError::PipelineNotFound(s) => t == "Pipeline not found: "@ + s@,
        GaiaError::TaskNotValid(s) => t == "Task is not valid: "@ + s@,
        GaiaError::TaskExecutionFailed(s) => t == "Task execution failed: "@ + s@,
        GaiaError::TaskTimeout => t == "Task timed out"@,
        GaiaError::CircularDependency => t == "Circular dependency detected in pipeline"@,
        GaiaError::DependencyNotSatisfied(s) => t == "Dependency not satisfied: "@ + s@,
        GaiaError::Io(_) => exists|x: Seq<char>| t == "IO error: "@ + x,
        GaiaError::Serialization(_) => exists|x: Seq<char>| t == "Serialization error: "@ + x,
        GaiaError::Other(s) => t == s@,
    }
}

/// The text of an I/O error, as `std::io::Error`'s `Display` writes it.
/// Nothing is claimed of it: it may carry a message of the operating system.
#[verifier::external_body]
fn io_error_text(e: &std::io::Error) -> String {
    format!("{}", e)
}

/// The text of a JSON error, as `serde_json::Error`'s `Display` writes it.
/// Nothing is claimed of it.
#[verifier::external_body]
fn json_error_text(e: &serde_json::Error) -> String {
    format!("{}", e)
}

fn prefixed(prefix: &str, detail: &str) -> (r: String)
    ensures
        r@ == prefix@ + detail@,
{
    let mut r = prefix.to_owned();
    r.append(detail);
    r
}

impl GaiaError {
    /// The human-readable text of this error.
    pub fn message(&self) -> (r: String)
        ensures
            is_display_text(*self, r@),
    {
        match self {
            GaiaError::TaskNotFound(s) => prefixed("Task not found: ", s.as_str()),
            GaiaError::PipelineNotFound(s) => prefixed("Pipeline not found: ", s.as_str()),
            GaiaError::TaskNotValid(s) => prefixed("Task is not valid: ", s.as_str()),
            GaiaError::TaskExecutionFailed(s) => prefixed("Task execution failed: ", s.as_str()),
            GaiaError::TaskTimeout => "Task timed out".to_owned(),
            GaiaError::CircularDependency => "Circular dependency detected in pipeline".to_owned(),
            GaiaError::DependencyNotSatisfied(s) => prefixed(
                "Dependency not satisfied: ",
                s.as_str(),
            ),
            GaiaError::Io(e) => {
                let text = io_error_text(e);
                let r = prefixed("IO error: ", text.as_str());
                assert(r@ == "IO error: "@ + text@);
                r
            },
            GaiaError::Serialization(e) => {
                let text = json_error_text(e);
                let r = prefixed("Serialization error: ", text.as_str());
                assert(r@ == "Serialization error: "@ + text@);
                r
            },
            GaiaError::Other(s) => s.clone(),
        }
    }
}

impl From<std::io::Error> for GaiaError {
    fn from(e: std::io::Error) -> (r: Self) {
        GaiaError::Io(e)
    }
}

impl vstd::std_specs::convert::FromSpecImpl<std::io::Error> for GaiaError {
    open spec fn obeys_from_spec() -> bool {
        true
    }

    open spec fn from_spec(v: std::io::Error) -> Self {
        GaiaError::Io(v)
    }
}

impl From<serde_json::Error> for GaiaError {
    fn from(e: serde_json::Error) -> (r: Self) {
        GaiaError::Serialization(e)
    }
}

impl vstd::std_specs::convert::FromSpecImpl<serde_json::Error> for GaiaError {
    open spec fn obeys_from_spec() -> bool {
        true
    }

    open spec fn from_spec(v: serde_json::Error) -> Self {
        GaiaError::Serialization(v)
    }
}

} // verus!
