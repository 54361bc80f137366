use crate::id::TaskId;
use vstd::prelude::*;

verus! {

/// Why a [`crate::Blueprint`] could not be built from a task set.
#[derive(Debug, PartialEq)]
pub enum BlueprintError {
    /// Leveling could not place these tasks: each of them waits, directly or
    /// transitively, on a task inside the same unplaceable set. The payload
    /// is the full unplaced set, not a minimal cycle.
    CircularDependency(Vec<TaskId>),
    /// The first task names the second as a dependency, but no task with
    /// that identity is registered.
    MissingDependency(TaskId, TaskId),
    /// A defect in the scheduler itself; never produced.
    InternalError(String),
}

/// Why an execution run failed as a whole.
///
/// A task's own `Err` outcome is not an `ExecutionError`: it travels as data
/// inside an [`crate::ExecutionResult`] and only counts as a failed task.
#[derive(Debug, PartialEq)]
pub enum ExecutionError {
    /// Reserved: the main execution path carries task failures as data and
    /// never produces this variant.
    TaskError(TaskId, String),
    /// A scheduling unit terminated abnormally; the run is abandoned and no
    /// partial results are exposed.
    JoinError(String),
    /// The task set failed validation before anything ran.
    BlueprintError(BlueprintError),
}

/// Why an executor could not be assembled from registered tasks.
#[derive(Debug, PartialEq)]
pub enum BuildError {
    /// The task set failed validation.
    BlueprintError(BlueprintError),
}

impl From<BlueprintError> for ExecutionError {
    /// Wraps a planning failure, surfaced before any task has run.
    fn from(e: BlueprintError) -> (r: ExecutionError)
        ensures
            r == ExecutionError::BlueprintError(e),
    {
        ExecutionError::BlueprintError(e)
    }
}

impl vstd::std_specs::convert::FromSpecImpl<BlueprintError> for ExecutionError {
    open spec fn obeys_from_spec() -> bool {
        true
    }

    open spec fn from_spec(e: BlueprintError) -> ExecutionError {
        ExecutionError::BlueprintError(e)
    }
}

impl From<BlueprintError> for BuildError {
    /// Wraps a planning failure found while assembling an executor.
    fn from(e: BlueprintError) -> (r: BuildError)
        ensures
            r == BuildError::BlueprintError(e),
    {
        BuildError::BlueprintError(e)
    }
}

impl vstd::std_specs::convert::FromSpecImpl<BlueprintError> for BuildError {
    open spec fn obeys_from_spec() -> bool {
        true
    }

    open spec fn from_spec(e: BlueprintError) -> BuildError {
        BuildError::BlueprintError(e)
    }
}

} // verus!
