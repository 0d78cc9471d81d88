use vstd::prelude::*;

verus! {

/// Errors that can occur while building or running a task graph.
#[derive(Debug)]
pub enum GraphError {
    /// Adding an edge closed a cycle.
    CycleDetected,
    /// A task failed, or a context update found no value to update.
    TaskExecutionFailed(String),
    /// An edge named a task that is not in the graph.
    TaskNotFound(String),
    /// A condition could not be evaluated.
    InvalidCondition,
}

} // verus!
