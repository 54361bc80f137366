use vstd::prelude::*;

verus! {

/// An opaque 128-bit task identifier.
///
/// A `TaskId` is the sole key that correlates tasks, dependency expressions
/// and results. It is created once, never mutated, and compared by value.
#[derive(Debug, Clone, Copy, PartialEq, Eq, Structural, Hash, PartialOrd, Ord)]
pub struct TaskId {
    value: u128,
}

impl TaskId {
    /// Generates a fresh identifier with negligible collision probability.
    ///
    /// Relies on `uuid::Uuid::new_v4`, which draws a random 122-bit value;
    /// nothing is assumed of the result, since it depends on entropy.
    #[verifier::external_body]
    pub fn generate() -> TaskId {
        TaskId { value: uuid::Uuid::new_v4().as_u128() }
    }
}

} // verus!
