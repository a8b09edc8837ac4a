//! Gaia: definition, validation, scheduling and monitoring of task pipelines.
//!
//! Tasks carry dependencies on other tasks; a pipeline groups tasks by id and
//! checks that every dependency names a task of the pipeline and that the
//! dependency graph has no cycle. The executor starts tasks as their
//! dependencies finish, a bounded number at once, and records what their runs
//! produced.
use vstd::prelude::*;

pub mod error;
pub mod ids;
pub mod task;
pub mod pipeline;
pub mod state;
pub mod executor;
pub mod schedule;
pub mod monitoring;
pub mod dashboard;
pub mod graph;
pub mod charts;
pub mod navigation;

pub use error::GaiaError;
pub use executor::Executor;
pub use pipeline::Pipeline;
pub use state::PipelineState;
pub use task::Task;

verus! {

} // verus!
