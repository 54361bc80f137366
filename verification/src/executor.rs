use crate::blueprint::{
    acyclic, all_deps_present, cycle_report_ok, deps_of, levels_ok, missing_pair, Blueprint, Step,
};
use crate::errors::BlueprintError;
use crate::id::TaskId;
use crate::task::Task;
use crate::task_map::TaskMap;
use vstd::prelude::*;

verus! {

/// Owns a set of tasks, keyed by their identities, and hands them out step
/// by step once a [`Blueprint`] has ordered them.
///
/// The executor itself never runs a computation: a driver asks for the
/// blueprint, takes ownership of each step's tasks with
/// [`TaskExecutor::take_step_tasks`], runs them under whatever concurrency
/// strategy it likes, and records the outcomes in an
/// [`crate::ExecutionResult`].
pub struct TaskExecutor<C> {
    tasks: TaskMap<C>,
}

/// The identifiers of `ids` that are in `dom`, in order.
pub open spec fn present_ids(ids: Seq<TaskId>, dom: Set<TaskId>) -> Seq<TaskId>
    decreases ids.len(),
{
    if ids.len() == 0 {
        Seq::empty()
    } else if dom.contains(ids.last()) {
        present_ids(ids.drop_last(), dom).push(ids.last())
    } else {
        present_ids(ids.drop_last(), dom)
    }
}

impl<C> TaskExecutor<C> {
    /// The owned task mapping.
    pub closed spec fn spec_tasks(self) -> TaskMap<C> {
        self.tasks
    }
}

impl<C> View for TaskExecutor<C> {
    type V = Map<TaskId, Task<C>>;

    open spec fn view(&self) -> Map<TaskId, Task<C>> {
        self.spec_tasks()@
    }
}

impl<C> TaskExecutor<C> {
    /// An executor with no tasks.
    pub fn new() -> (r: TaskExecutor<C>)
        ensures
            r@ == Map::<TaskId, Task<C>>::empty(),
    {
        TaskExecutor { tasks: TaskMap::new() }
    }

    /// Registers a task, builder-style; a task under the same identity is
    /// replaced.
    pub fn insert(self, task: Task<C>) -> (r: TaskExecutor<C>)
        ensures
            r@ == self@.insert(task.spec_id(), task),
    {
        let mut this = self;
        this.tasks.insert(task);
        this
    }

    /// Add a task to the executor
    pub fn add_task(&mut self, task: Task<C>)
        ensures
            final(self)@ == old(self)@.insert(task.spec_id(), task),
    {
        self.tasks.insert(task);
    }

    /// Get a reference to the tasks map
    pub fn tasks(&self) -> (r: &TaskMap<C>)
        ensures
            *r == self.spec_tasks(),
    {
        &self.tasks
    }

    /// Get the number of tasks
    pub fn task_count(&self) -> (n: usize)
        ensures
            n == self@.dom().len(),
    {
        self.tasks.len()
    }

    /// Check if a task exists
    pub fn has_task(&self, task_id: &TaskId) -> (r: bool)
        ensures
            r == self@.dom().contains(*task_id),
    {
        self.tasks.contains(task_id)
    }

    /// The identities of the registered tasks.
    pub fn task_ids(&self) -> (r: Vec<TaskId>)
        ensures
            r@.to_set() == self@.dom(),
            r@.no_duplicates(),
    {
        self.tasks.ids()
    }

    /// Create execution blueprint without consuming the executor
    pub fn create_blueprint(&self) -> (r: Result<Blueprint, BlueprintError>)
        ensures
            match r {
                Result::Ok(b) => all_deps_present(deps_of(self@)) && acyclic(deps_of(self@))
                    && levels_ok(deps_of(self@), b.steps@),
                Result::Err(e) => match e {
                    BlueprintError::MissingDependency(t, d) => missing_pair(deps_of(self@), t, d),
                    BlueprintError::CircularDependency(ids) => all_deps_present(deps_of(self@))
                        && cycle_report_ok(deps_of(self@), ids@),
                    BlueprintError::InternalError(_) => false,
                },
            },
    {
        Blueprint::from_tasks(&self.tasks)
    }

    /// Takes ownership of every registered task named by `step`, in step
    /// order, removing each from the executor. Identities that are not
    /// registered are skipped.
    pub fn take_step_tasks(&mut self, step: &Step) -> (out: Vec<Task<C>>)
        requires
            step.tasks@.no_duplicates(),
        ensures
            final(self)@ == old(self)@.remove_keys(step.tasks@.to_set()),
            out@.map_values(|t: Task<C>| t.spec_id()) == present_ids(
                step.tasks@,
                old(self)@.dom(),
            ),
            forall|k: int|
                0 <= k < out@.len() ==> out@[k] == old(self)@[(#[trigger] out@[k]).spec_id()],
    {
        let n = step.tasks.len();
        let mut out: Vec<Task<C>> = Vec::new();
        proof {
            assert(step.tasks@.take(0) =~= Seq::<TaskId>::empty());
            assert(self@ =~= old(self)@.remove_keys(step.tasks@.take(0).to_set()));
            assert(out@.map_values(|t: Task<C>| t.spec_id()) =~= present_ids(
                step.tasks@.take(0),
                old(self)@.dom(),
            ));
        }
        for i in 0..n
            invariant
                n == step.tasks@.len(),
                step.tasks@.no_duplicates(),
                self@ == old(self)@.remove_keys(step.tasks@.take(i as int).to_set()),
                out@.map_values(|t: Task<C>| t.spec_id()) == present_ids(
                    step.tasks@.take(i as int),
                    old(self)@.dom(),
                ),
                forall|k: int|
                    0 <= k < out@.len() ==> out@[k] == old(self)@[(#[trigger] out@[k]).spec_id()],
        {
            let id = step.tasks[i];
            proof {
                assert(!step.tasks@.take(i as int).contains(id));
                assert(!step.tasks@.take(i as int).to_set().contains(id));
                assert(step.tasks@.take(i + 1).drop_last() =~= step.tasks@.take(i as int));
                assert(step.tasks@.take(i + 1).last() == id);
            }
            let ghost out0 = out@;
            let taken = self.tasks.remove(&id);
            match taken {
                Option::Some(t) => {
                    out.push(t);
                    proof {
                        assert(out@.drop_last() == out0);
                        assert(old(self)@.dom().contains(id));
                        assert(t == old(self)@[id]);
                        assert(out@.map_values(|x: Task<C>| x.spec_id()) =~= out0.map_values(
                            |x: Task<C>| x.spec_id(),
                        ).push(id));
                        assert(out@.map_values(|x: Task<C>| x.spec_id()) =~= present_ids(
                            step.tasks@.take(i + 1),
                            old(self)@.dom(),
                        ));
                    }
                },
                Option::None => {
                    proof {
                        assert(!old(self)@.dom().contains(id));
                        assert(out@.map_values(|x: Task<C>| x.spec_id()) =~= present_ids(
                            step.tasks@.take(i + 1),
                            old(self)@.dom(),
                        ));
                    }
                },
            }
            proof {
                step.tasks@.take(i as int).lemma_push_to_set_commute(id);
                assert(step.tasks@.take(i + 1) =~= step.tasks@.take(i as int).push(id));
                assert(step.tasks@.take(i as int).push(id).to_set() =~= step.tasks@.take(
                    i as int,
                ).to_set().insert(id));
                assert(self@ =~= old(self)@.remove_keys(step.tasks@.take(i + 1).to_set()));
            }
        }
        proof {
            assert(step.tasks@.take(n as int) =~= step.tasks@);
        }
        out
    }
}

impl<C> Default for TaskExecutor<C> {
    /// An executor with no tasks.
    fn default() -> (r: TaskExecutor<C>)
        ensures
            r@ == Map::<TaskId, Task<C>>::empty(),
    {
        TaskExecutor::new()
    }
}

} // verus!
