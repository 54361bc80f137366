use crate::dependency::Dependency;
use crate::id::TaskId;
use vstd::prelude::*;

verus! {

/// A unit of work: an identity, a suspended computation, and a dependency
/// expression over other tasks' identities.
///
/// The computation is an opaque payload `C`; the scheduler moves it around
/// but never looks inside. A driver typically instantiates `C` with a boxed
/// future yielding a `Result`.
pub struct Task<C> {
    id: TaskId,
    task: C,
    dependencies: Dependency,
}

impl<C> Task<C> {
    /// The task's identity.
    pub closed spec fn spec_id(self) -> TaskId {
        self.id
    }

    /// The task's dependency expression.
    pub closed spec fn spec_dependencies(self) -> Dependency {
        self.dependencies
    }

    /// The task's suspended computation.
    pub closed spec fn spec_work(self) -> C {
        self.task
    }

    /// Builds a task with a fresh identity around `task`, to run once
    /// `dependencies` is satisfied.
    pub fn new(task: C, dependencies: Dependency) -> (t: Task<C>)
        ensures
            t.spec_work() == task,
            t.spec_dependencies() == dependencies,
    {
        let id = TaskId::generate();
        Task { id, task, dependencies }
    }

    /// Builds a task under a caller-chosen identity, to run once
    /// `dependencies` is satisfied. Nothing stops the dependencies from
    /// naming `id` itself; such a task can never be scheduled and is
    /// reported as part of a circular dependency.
    pub fn with_id(id: TaskId, task: C, dependencies: Dependency) -> (t: Task<C>)
        ensures
            t.spec_id() == id,
            t.spec_work() == task,
            t.spec_dependencies() == dependencies,
    {
        Task { id, task, dependencies }
    }

    /// Builds a task with a fresh identity and no dependencies.
    pub fn new_independent(task: C) -> (t: Task<C>)
        ensures
            t.spec_work() == task,
            t.spec_dependencies() == Dependency::Empty,
    {
        Task::new(task, Dependency::Empty)
    }

    /// The task's identity.
    pub fn id(&self) -> (r: &TaskId)
        ensures
            *r == self.spec_id(),
    {
        &self.id
    }

    /// A read-only view of the task's dependency expression.
    pub fn dependencies(&self) -> (r: &Dependency)
        ensures
            *r == self.spec_dependencies(),
    {
        &self.dependencies
    }

    /// Get a reference to the task future (this consumes self to move the future)
    pub fn into_future(self) -> (r: C)
        ensures
            r == self.spec_work(),
    {
        self.task
    }
}

} // verus!
