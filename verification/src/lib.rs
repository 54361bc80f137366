//! An in-process scheduler that runs a set of tasks while respecting the
//! dependencies declared between them.
//!
//! Callers build [`Task`]s, each carrying a [`Dependency`] expression over
//! other tasks' [`TaskId`]s, and register them with a [`TaskExecutor`]. The
//! executor derives a [`Blueprint`]: an ordered sequence of steps such that
//! every task runs strictly after all the tasks it depends on. A driver then
//! runs the steps in order and aggregates the per-task outcomes into an
//! [`ExecutionResult`].

mod blueprint;
mod blueprint_proofs;
mod dependency;
mod errors;
mod executor;
mod id;
mod id_set;
mod result;
mod task;
mod task_map;

pub use blueprint::{
    acyclic, all_deps_present, cycle_report_ok, deps_of, lemma_deps_scheduled_earlier,
    lemma_empty_plan, lemma_first_step_exact, lemma_placed_once, lemma_self_supporting_member,
    lemma_self_supporting_subset, levels_ok, missing_pair, self_supporting, steps_prefix_ids,
    Blueprint, Step,
};
pub use dependency::{Dependency, DependencyIter};
pub use errors::{BlueprintError, BuildError, ExecutionError};
pub use executor::{present_ids, TaskExecutor};
pub use id::TaskId;
pub use id_set::IdSet;
pub use result::{
    err_results, flat_of, lemma_conservation, ok_results, step_sizes, ExecutionResult, TaskResult,
};
pub use task::Task;
pub use task_map::{
    distinct_ids, id_seq_of, lemma_map_of_entries_at, lemma_map_of_entries_dom,
    lemma_map_of_entries_len, map_of_entries, TaskMap,
};
