use crate::errors::BlueprintError;
use crate::id::TaskId;
use crate::id_set::IdSet;
use crate::task::Task;
use crate::task_map::{
    distinct_ids, id_seq_of, lemma_map_of_entries_at, lemma_map_of_entries_dom,
    lemma_map_of_entries_len, map_of_entries, TaskMap,
};
use crate::blueprint_proofs::{
    lemma_cycle_report, lemma_deps_facts, lemma_place_one, lemma_push_step,
};
use vstd::prelude::*;
use vstd::set_lib::{lemma_len_subset, lemma_subset_equality};

verus! {

/// Represents a step in the execution plan where all tasks can be executed in parallel
#[derive(Debug)]
pub struct Step {
    pub tasks: Vec<TaskId>,
}

/// A blueprint that contains the execution plan with ordered steps
#[derive(Debug)]
pub struct Blueprint {
    pub steps: Vec<Step>,
}

/// The identifiers placed in the steps strictly before index `i`.
pub open spec fn steps_prefix_ids(steps: Seq<Step>, i: int) -> Set<TaskId>
    decreases i,
{
    if i <= 0 {
        Set::<TaskId>::empty()
    } else {
        steps_prefix_ids(steps, i - 1).union(steps[i - 1].tasks@.to_set())
    }
}

/// The dependency sets of a task mapping: each registered identity goes to
/// the set of identities its task's dependency expression mentions.
pub open spec fn deps_of<C>(m: Map<TaskId, Task<C>>) -> Map<TaskId, Set<TaskId>> {
    m.map_values(|t: Task<C>| t.spec_dependencies().id_set())
}

/// Every dependency that any task mentions is itself registered.
pub open spec fn all_deps_present(dm: Map<TaskId, Set<TaskId>>) -> bool {
    forall|t: TaskId, d: TaskId|
        dm.dom().contains(t) && #[trigger] dm[t].contains(d) ==> dm.dom().contains(d)
}

/// Task `t` names dependency `d`, and `d` is not registered.
pub open spec fn missing_pair(dm: Map<TaskId, Set<TaskId>>, t: TaskId, d: TaskId) -> bool {
    dm.dom().contains(t) && dm[t].contains(d) && !dm.dom().contains(d)
}

/// Every member of `s` has at least one of its dependencies inside `s`
/// itself, so no member of `s` can ever become ready. A nonempty such set is
/// what makes leveling fail: it contains a cycle, or waits on one.
#[verifier::opaque]
pub open spec fn self_supporting(dm: Map<TaskId, Set<TaskId>>, s: Set<TaskId>) -> bool {
    s.subset_of(dm.dom()) && (forall|t: TaskId|
        #![trigger dm[t]]
        s.contains(t) ==> exists|d: TaskId| #[trigger] dm[t].contains(d) && s.contains(d))
}

/// A set that waits on itself lies within the registered identities.
pub proof fn lemma_self_supporting_subset(dm: Map<TaskId, Set<TaskId>>, s: Set<TaskId>)
    requires
        self_supporting(dm, s),
    ensures
        s.subset_of(dm.dom()),
{
    reveal(self_supporting);
}

/// Each member of a set that waits on itself has a dependency inside it.
pub proof fn lemma_self_supporting_member(dm: Map<TaskId, Set<TaskId>>, s: Set<TaskId>, t: TaskId)
    requires
        self_supporting(dm, s),
        s.contains(t),
    ensures
        exists|d: TaskId| #[trigger] dm[t].contains(d) && s.contains(d),
{
    reveal(self_supporting);
    let deps = dm[t];
    assert(deps == dm[t]);
}

/// No nonempty set of tasks waits on itself.
pub open spec fn acyclic(dm: Map<TaskId, Set<TaskId>>) -> bool {
    forall|s: Set<TaskId>| #[trigger] self_supporting(dm, s) ==> s.is_empty()
}

/// The leveling contract: each step is a nonempty, duplicate-free batch of
/// registered tasks; a task's dependencies all lie in strictly earlier
/// steps; each step takes every task that is ready and not yet placed; and
/// every registered task is placed.
pub open spec fn levels_ok(dm: Map<TaskId, Set<TaskId>>, steps: Seq<Step>) -> bool {
    &&& forall|i: int| 0 <= i < steps.len() ==> (#[trigger] steps[i].tasks@).len() > 0
    &&& forall|i: int| 0 <= i < steps.len() ==> (#[trigger] steps[i].tasks@).no_duplicates()
    &&& forall|i: int, t: TaskId|
        0 <= i < steps.len() && #[trigger] steps[i].tasks@.contains(t) ==> dm.dom().contains(t)
            && !steps_prefix_ids(steps, i).contains(t) && dm[t].subset_of(
            steps_prefix_ids(steps, i),
        )
    &&& forall|i: int, t: TaskId|
        #![trigger steps_prefix_ids(steps, i), dm[t]]
        0 <= i < steps.len() && dm.dom().contains(t) && !steps_prefix_ids(steps, i).contains(t)
            && dm[t].subset_of(steps_prefix_ids(steps, i)) ==> steps[i].tasks@.contains(t)
    &&& steps_prefix_ids(steps, steps.len() as int) == dm.dom()
}

/// The contract of a reported circular dependency: `ids` is exactly the set
/// of tasks that can never be placed - it waits on itself, and every set of
/// tasks that waits on itself lies inside it.
pub open spec fn cycle_report_ok(dm: Map<TaskId, Set<TaskId>>, ids: Seq<TaskId>) -> bool {
    &&& ids.no_duplicates()
    &&& ids.len() > 0
    &&& self_supporting(dm, ids.to_set())
    &&& forall|s: Set<TaskId>| #[trigger] self_supporting(dm, s) ==> s.subset_of(ids.to_set())
}

impl Step {
    /// Whether the step names each identity at most once.
    pub fn has_distinct_ids(&self) -> (r: bool)
        ensures
            r == self.tasks@.no_duplicates(),
    {
        let n = self.tasks.len();
        for i in 0..n
            invariant
                n == self.tasks@.len(),
                forall|a: int, b: int| 0 <= a < b < n && a < i ==> self.tasks@[a] != self.tasks@[b],
        {
            for j in (i + 1)..n
                invariant
                    n == self.tasks@.len(),
                    i < n,
                    forall|a: int, b: int|
                        0 <= a < b < n && a < i ==> self.tasks@[a] != self.tasks@[b],
                    forall|b: int| i < b < j ==> self.tasks@[i as int] != self.tasks@[b],
            {
                if self.tasks[i] == self.tasks[j] {
                    return false;
                }
            }
        }
        true
    }
}

impl Blueprint {
    /// The identifiers scheduled strictly before step `i`.
    pub open spec fn placed_before(self, i: int) -> Set<TaskId> {
        steps_prefix_ids(self.steps@, i)
    }

    /// Returns the total number of execution steps
    pub fn step_count(&self) -> (n: usize)
        ensures
            n == self.steps@.len(),
    {
        self.steps.len()
    }

    /// Returns all tasks that can be executed in parallel at the given step
    pub fn tasks_at_step(&self, step: usize) -> (r: Option<&[TaskId]>)
        ensures
            match r {
                Option::Some(ts) => step < self.steps@.len() && ts@ == self.steps@[
                    step as int
                ].tasks@,
                Option::None => step >= self.steps@.len(),
            },
    {
        if step < self.steps.len() {
            Option::Some(self.steps[step].tasks.as_slice())
        } else {
            Option::None
        }
    }

    /// Returns the step index for a given task
    pub fn step_for_task(&self, task_id: &TaskId) -> (r: Option<usize>)
        ensures
            match r {
                Option::Some(i) => i < self.steps@.len() && self.steps@[i as int].tasks@.contains(
                    *task_id,
                ) && forall|j: int| 0 <= j < i ==> !self.steps@[j].tasks@.contains(*task_id),
                Option::None => forall|j: int|
                    0 <= j < self.steps@.len() ==> !self.steps@[j].tasks@.contains(*task_id),
            },
    {
        let n = self.steps.len();
        for i in 0..n
            invariant
                n == self.steps@.len(),
                forall|j: int| 0 <= j < i ==> !self.steps@[j].tasks@.contains(*task_id),
        {
            if contains_id(&self.steps[i].tasks, task_id) {
                return Option::Some(i);
            }
        }
        Option::None
    }

    /// Creates an execution blueprint from a collection of tasks
    /// Uses topological leveling to determine execution order
    pub fn from_tasks<C>(tasks: &TaskMap<C>) -> (r: Result<Blueprint, BlueprintError>)
        ensures
            match r {
                Result::Ok(b) => all_deps_present(deps_of(tasks@)) && acyclic(deps_of(tasks@))
                    && levels_ok(deps_of(tasks@), b.steps@),
                Result::Err(e) => match e {
                    BlueprintError::MissingDependency(t, d) => missing_pair(
                        deps_of(tasks@),
                        t,
                        d,
                    ),
                    BlueprintError::CircularDependency(ids) => all_deps_present(deps_of(tasks@))
                        && cycle_report_ok(deps_of(tasks@), ids@),
                    BlueprintError::InternalError(_) => false,
                },
            },
    {
        match validate(tasks) {
            Option::Some(pair) => Result::Err(
                BlueprintError::MissingDependency(pair.0, pair.1),
            ),
            Option::None => match level(tasks) {
                Result::Ok(steps) => Result::Ok(Blueprint { steps }),
                Result::Err(rem) => Result::Err(BlueprintError::CircularDependency(rem)),
            },
        }
    }
}

/// The validation pass: finds a task whose dependency expression names an
/// unregistered identity, if there is one.
#[verifier::loop_isolation(false)]
fn validate<C>(tasks: &TaskMap<C>) -> (r: Option<(TaskId, TaskId)>)
    ensures
        match r {
            Option::Some(p) => missing_pair(deps_of(tasks@), p.0, p.1),
            Option::None => all_deps_present(deps_of(tasks@)),
        },
{
    let ghost dm = deps_of(tasks@);
    let n = tasks.len();
    let ghost e = tasks.entry_seq();
    let ghost ids = id_seq_of(e);
    proof {
        lemma_deps_facts(e);
    }
    for k in 0..n
        invariant
            forall|k2: int, d: TaskId|
                0 <= k2 < k && #[trigger] e[k2].spec_dependencies().id_set().contains(d)
                    ==> dm.dom().contains(d),
    {
        let t = tasks.entry_at(k);
        let dep_ids = t.dependencies().to_ids();
        let dn = dep_ids.len();
        for j in 0..dn
            invariant
                dn == dep_ids@.len(),
                dep_ids@ == e[k as int].spec_dependencies().id_seq(),
                forall|j2: int| 0 <= j2 < j ==> dm.dom().contains(dep_ids@[j2]),
        {
            if !tasks.contains(&dep_ids[j]) {
                proof {
                    let tid = e[k as int].spec_id();
                    let d = dep_ids@[j as int];
                    assert(e[k as int].spec_dependencies().id_seq().contains(d));
                    assert(dm[tid] == e[k as int].spec_dependencies().id_set());
                    assert(missing_pair(dm, tid, d));
                }
                return Option::Some((*t.id(), dep_ids[j]));
            }
        }
        proof {
            assert forall|d: TaskId|
                e[k as int].spec_dependencies().id_set().contains(d) implies dm.dom().contains(
                d,
            ) by {
                assert(e[k as int].spec_dependencies().id_seq().contains(d));
                let j2 = choose|j2: int|
                    0 <= j2 < dep_ids@.len() && e[k as int].spec_dependencies().id_seq()[j2] == d;
                assert(dm.dom().contains(dep_ids@[j2]));
            }
        }
    }
    proof {
        assert forall|t: TaskId, d: TaskId|
            dm.dom().contains(t) && #[trigger] dm[t].contains(d) implies dm.dom().contains(d) by {
            assert(ids.to_set().contains(t));
            assert(ids.contains(t));
            let k = choose|k: int| 0 <= k < ids.len() && ids[k] == t;
            assert(dm[ids[k]] == e[k].spec_dependencies().id_set());
            assert(e[k].spec_dependencies().id_set().contains(d));
        }
        assert(all_deps_present(dm));
    }
    Option::None
}

/// The leveling pass: repeatedly places every not-yet-placed task whose
/// dependency is satisfied by the tasks already placed, until no task is
/// ready. Returns the steps, or the identities that could not be placed.
#[verifier::loop_isolation(false)]
#[verifier::rlimit(40)]
fn level<C>(tasks: &TaskMap<C>) -> (r: Result<Vec<Step>, Vec<TaskId>>)
    requires
        all_deps_present(deps_of(tasks@)),
    ensures
        match r {
            Result::Ok(steps) => acyclic(deps_of(tasks@)) && levels_ok(deps_of(tasks@), steps@),
            Result::Err(rem) => cycle_report_ok(deps_of(tasks@), rem@),
        },
{
    let ghost dm = deps_of(tasks@);
    let n = tasks.len();
    let ghost e = tasks.entry_seq();
    let ghost ids = id_seq_of(e);
    proof {
        lemma_deps_facts(e);
    }
    let mut placed: Vec<bool> = Vec::new();
    for k in 0..n
        invariant
            placed@.len() == k,
            forall|k2: int| 0 <= k2 < k ==> placed@[k2] == false,
    {
        placed.push(false);
    }
    let mut completed = IdSet::new();
    let mut steps_vec: Vec<Step> = Vec::new();
    let mut placed_count: usize = 0;
    let mut ready: Vec<usize> = collect_ready(tasks, &placed, &completed);
    while ready.len() > 0
        invariant
            placed@.len() == n,
            forall|k2: int| 0 <= k2 < n ==> placed@[k2] == completed@.contains(ids[k2]),
            completed@.subset_of(dm.dom()),
            placed_count == completed@.len(),
            placed_count <= n,
            completed@ == steps_prefix_ids(steps_vec@, steps_vec@.len() as int),
            forall|i: int| 0 <= i < steps_vec@.len() ==> (#[trigger] steps_vec@[i].tasks@).len()
                > 0,
            forall|i: int|
                0 <= i < steps_vec@.len() ==> (#[trigger] steps_vec@[i].tasks@).no_duplicates(),
            forall|i: int, t: TaskId|
                0 <= i < steps_vec@.len() && #[trigger] steps_vec@[i].tasks@.contains(t)
                    ==> dm.dom().contains(t) && !steps_prefix_ids(steps_vec@, i).contains(t)
                    && dm[t].subset_of(steps_prefix_ids(steps_vec@, i)),
            forall|i: int, t: TaskId|
                #![trigger steps_prefix_ids(steps_vec@, i), dm[t]]
                0 <= i < steps_vec@.len() && dm.dom().contains(t) && !steps_prefix_ids(
                    steps_vec@,
                    i,
                ).contains(t) && dm[t].subset_of(steps_prefix_ids(steps_vec@, i))
                    ==> steps_vec@[i].tasks@.contains(t),
            forall|ss: Set<TaskId>| #[trigger] self_supporting(dm, ss) ==> ss.disjoint(completed@),
            forall|x: int, y: int| 0 <= x < y < ready@.len() ==> ready@[x] < ready@[y],
            forall|x: int|
                0 <= x < ready@.len() ==> (#[trigger] ready@[x]) < n && !placed@[ready@[x] as int]
                    && e[ready@[x] as int].spec_dependencies().satisfied_by(completed@),
            forall|k2: int|
                0 <= k2 < n && !placed@[k2] && e[k2].spec_dependencies().satisfied_by(completed@)
                    ==> exists|x: int| 0 <= x < ready@.len() && ready@[x] == k2,
        decreases n - placed_count,
    {
        let ghost comp0 = completed@;
        proof {
            // Restate what was collected without mentioning the placement
            // flags, which the loop below updates.
            assert forall|x: int| 0 <= x < ready@.len() implies (#[trigger] ready@[x]) < n
                && !comp0.contains(ids[ready@[x] as int]) && e[ready@[
            x] as int].spec_dependencies().satisfied_by(comp0) by {
                assert(!placed@[ready@[x] as int]);
            }
            assert forall|k2: int|
                0 <= k2 < n && !comp0.contains(ids[k2]) && e[k2].spec_dependencies().satisfied_by(
                    comp0,
                ) implies exists|x: int| 0 <= x < ready@.len() && ready@[x] == k2 by {
                assert(!placed@[k2]);
            }
        }
        // Build the next step from the ready tasks.
        let rl = ready.len();
        let ghost count0 = placed_count;
        let mut step_ids: Vec<TaskId> = Vec::new();
        for x in 0..rl
            invariant
                rl == ready@.len(),
                step_ids@.len() == x,
                placed_count == count0 + x,
                forall|y: int| 0 <= y < x ==> step_ids@[y] == ids[ready@[y] as int],
                completed@ == comp0.union(step_ids@.to_set()),
                step_ids@.no_duplicates(),
                placed@.len() == n,
                forall|k2: int| 0 <= k2 < n ==> placed@[k2] == completed@.contains(ids[k2]),
                completed@.subset_of(dm.dom()),
                placed_count == completed@.len(),
                placed_count <= n,
                forall|ss: Set<TaskId>|
                    #[trigger] self_supporting(dm, ss) ==> ss.disjoint(completed@),
        {
            let k = ready[x];
            proof {
                lemma_place_one(dm, e, comp0, completed@, step_ids@, ready@, x as int);
            }
            let t = tasks.entry_at(k);
            let tid = *t.id();
            let ghost completed_prev = completed@;
            placed.set(k, true);
            completed.insert(tid);
            step_ids.push(tid);
            placed_count = placed_count + 1;
            proof {
                assert(tid == ids[k as int]);
                assert(completed@ == completed_prev.insert(tid));
                assert forall|k2: int| 0 <= k2 < n implies placed@[k2] == completed@.contains(
                    ids[k2],
                ) by {
                    if k2 != k as int {
                        assert(ids[k2] != tid);
                    }
                }
                assert forall|ss: Set<TaskId>|
                    #[trigger] self_supporting(dm, ss) implies ss.disjoint(completed@) by {
                    assert(ss.disjoint(completed_prev));
                }
            }
        }
        let ghost old_steps = steps_vec@;
        let ghost big = steps_vec@.len() as int;
        steps_vec.push(Step { tasks: step_ids });
        proof {
            let news = steps_vec@;
            assert(news == old_steps.push(news[big]));
            assert(news[big].tasks@ == step_ids@);
            lemma_push_step(dm, e, old_steps, news[big], news, comp0, completed@, ready@);
        }
        ready = collect_ready(tasks, &placed, &completed);
    }
    proof {
        assert forall|k2: int|
            0 <= k2 < n && !completed@.contains(ids[k2])
                implies !e[k2].spec_dependencies().satisfied_by(completed@) by {
            assert(!placed@[k2]);
            if e[k2].spec_dependencies().satisfied_by(completed@) {
                let x = choose|x: int| 0 <= x < ready@.len() && ready@[x] == k2;
                assert(false);
            }
        }
    }
    if placed_count < n {
        // Some tasks could never be placed: each of them waits on another
        // unplaced task, and every set of tasks that waits on itself is
        // disjoint from the placed tasks.
        let mut remaining: Vec<TaskId> = Vec::new();
        let ghost mut srcs: Seq<int> = Seq::empty();
        for k in 0..n
            invariant
                srcs.len() == remaining@.len(),
                forall|x: int|
                    0 <= x < srcs.len() ==> 0 <= #[trigger] srcs[x] < k && ids[srcs[x]]
                        == remaining@[x] && !completed@.contains(remaining@[x]),
                forall|x: int, y: int| 0 <= x < y < srcs.len() ==> srcs[x] < srcs[y],
                forall|k2: int|
                    0 <= k2 < k && !completed@.contains(ids[k2]) ==> remaining@.contains(ids[k2]),
        {
            if !placed[k] {
                let tid = *tasks.entry_at(k).id();
                let ghost rem0 = remaining@;
                remaining.push(tid);
                proof {
                    srcs = srcs.push(k as int);
                    assert(tid == ids[k as int]);
                    assert(!completed@.contains(tid));
                    assert forall|k2: int|
                        0 <= k2 < k + 1 && !completed@.contains(ids[k2])
                            implies remaining@.contains(ids[k2]) by {
                        if k2 < k {
                            let x = choose|x: int| 0 <= x < rem0.len() && rem0[x] == ids[k2];
                            assert(remaining@[x] == ids[k2]);
                        } else {
                            assert(remaining@[remaining@.len() - 1] == tid);
                        }
                    }
                }
            }
        }
        proof {
            assert forall|x: int, y: int|
                0 <= x < y < remaining@.len() implies remaining@[x] != remaining@[y] by {
                assert(srcs[x] < srcs[y]);
                assert(e[srcs[x]].spec_id() != e[srcs[y]].spec_id());
            }
            assert forall|x: int|
                0 <= x < remaining@.len() implies dm.dom().contains(#[trigger] remaining@[x])
                && !completed@.contains(remaining@[x]) by {
                assert(ids[srcs[x]] == remaining@[x]);
            }
            lemma_cycle_report(dm, e, remaining@, completed@);
        }
        return Result::Err(remaining);
    }
    proof {
        // every task was placed
        lemma_len_subset(completed@, dm.dom());
        lemma_subset_equality(completed@, dm.dom());
        assert(steps_prefix_ids(steps_vec@, steps_vec@.len() as int) == dm.dom());
        assert(levels_ok(dm, steps_vec@));
        // and the task set is acyclic
        assert forall|ss: Set<TaskId>| #[trigger] self_supporting(dm, ss) implies ss.is_empty() by {
            assert(ss.disjoint(completed@));
            lemma_self_supporting_subset(dm, ss);
            assert forall|t: TaskId| !ss.contains(t) by {
                if ss.contains(t) {
                    assert(dm.dom().contains(t));
                    assert(completed@.contains(t));
                }
            }
            assert(ss =~= Set::<TaskId>::empty());
        }
    }
    Result::Ok(steps_vec)
}

/// Prefixes of a plan grow with the step index.
proof fn lemma_prefix_mono(steps: Seq<Step>, i: int, j: int)
    requires
        0 <= i <= j <= steps.len(),
    ensures
        steps_prefix_ids(steps, i).subset_of(steps_prefix_ids(steps, j)),
    decreases j - i,
{
    if i < j {
        lemma_prefix_mono(steps, i, j - 1);
    }
}

/// A member of a prefix lies in one of its steps.
proof fn lemma_prefix_member(steps: Seq<Step>, i: int, d: TaskId)
    requires
        0 <= i <= steps.len(),
        steps_prefix_ids(steps, i).contains(d),
    ensures
        exists|j: int| 0 <= j < i && #[trigger] steps[j].tasks@.contains(d),
    decreases i,
{
    if i > 0 {
        if steps_prefix_ids(steps, i - 1).contains(d) {
            lemma_prefix_member(steps, i - 1, d);
        } else {
            assert(steps[i - 1].tasks@.to_set().contains(d));
            assert(steps[i - 1].tasks@.contains(d));
        }
    }
}

/// Leveling correctness: a task placed in step `i` has each of its
/// dependencies placed in some step strictly before `i`.
pub proof fn lemma_deps_scheduled_earlier(
    dm: Map<TaskId, Set<TaskId>>,
    steps: Seq<Step>,
    t: TaskId,
    d: TaskId,
    i: int,
)
    requires
        levels_ok(dm, steps),
        0 <= i < steps.len(),
        steps[i].tasks@.contains(t),
        dm[t].contains(d),
    ensures
        exists|j: int| 0 <= j < i && #[trigger] steps[j].tasks@.contains(d),
{
    assert(dm[t].subset_of(steps_prefix_ids(steps, i)));
    lemma_prefix_member(steps, i, d);
}

/// Leveling correctness: no task appears in two different steps.
pub proof fn lemma_placed_once(
    dm: Map<TaskId, Set<TaskId>>,
    steps: Seq<Step>,
    t: TaskId,
    i: int,
    j: int,
)
    requires
        levels_ok(dm, steps),
        0 <= i < steps.len(),
        0 <= j < steps.len(),
        steps[i].tasks@.contains(t),
        steps[j].tasks@.contains(t),
    ensures
        i == j,
{
    if i < j {
        assert(steps[i].tasks@.to_set().contains(t));
        assert(steps_prefix_ids(steps, i + 1).contains(t));
        lemma_prefix_mono(steps, i + 1, j);
        assert(steps_prefix_ids(steps, j).contains(t));
    } else if j < i {
        assert(steps[j].tasks@.to_set().contains(t));
        assert(steps_prefix_ids(steps, j + 1).contains(t));
        lemma_prefix_mono(steps, j + 1, i);
        assert(steps_prefix_ids(steps, i).contains(t));
    }
}

/// Leveling correctness: the first step holds exactly the registered tasks
/// whose dependency expression names no task at all.
pub proof fn lemma_first_step_exact(dm: Map<TaskId, Set<TaskId>>, steps: Seq<Step>)
    requires
        levels_ok(dm, steps),
        steps.len() > 0,
    ensures
        forall|t: TaskId|
            #[trigger] steps[0].tasks@.contains(t) ==> dm.dom().contains(t) && dm[t] == Set::<
                TaskId,
            >::empty(),
        forall|t: TaskId|
            #![trigger dm[t]]
            dm.dom().contains(t) && dm[t] == Set::<TaskId>::empty() ==> steps[0].tasks@.contains(
                t,
            ),
{
    assert forall|t: TaskId| #[trigger] steps[0].tasks@.contains(t) implies dm.dom().contains(t)
        && dm[t] == Set::<TaskId>::empty() by {
        assert(dm[t].subset_of(steps_prefix_ids(steps, 0)));
        assert(dm[t] =~= Set::<TaskId>::empty());
    }
    assert forall|t: TaskId|
        dm.dom().contains(t) && #[trigger] dm[t] == Set::<TaskId>::empty() implies steps[
    0].tasks@.contains(t) by {
        assert(!steps_prefix_ids(steps, 0).contains(t));
        assert(dm[t].subset_of(steps_prefix_ids(steps, 0)));
    }
}

/// Vacuous leveling: a plan has no steps exactly when the task set holds no
/// task.
pub proof fn lemma_empty_plan(dm: Map<TaskId, Set<TaskId>>, steps: Seq<Step>)
    requires
        levels_ok(dm, steps),
    ensures
        (steps.len() == 0) <==> (dm.dom() == Set::<TaskId>::empty()),
{
    if steps.len() == 0 {
        assert(steps_prefix_ids(steps, 0) == dm.dom());
        assert(dm.dom() =~= Set::<TaskId>::empty());
    } else {
        assert(steps[0].tasks@.len() > 0);
        let t = steps[0].tasks@[0];
        assert(steps[0].tasks@.contains(t));
        assert(dm.dom().contains(t));
        assert(dm.dom() != Set::<TaskId>::empty());
    }
}

/// The positions of the entries that are not yet placed and whose
/// dependencies are all satisfied by `completed`, in ascending order.
fn collect_ready<C>(tasks: &TaskMap<C>, placed: &Vec<bool>, completed: &IdSet) -> (ready: Vec<
    usize,
>)
    requires
        placed@.len() == tasks.entry_seq().len(),
    ensures
        forall|x: int, y: int| 0 <= x < y < ready@.len() ==> ready@[x] < ready@[y],
        forall|x: int|
            0 <= x < ready@.len() ==> (#[trigger] ready@[x]) < placed@.len() && !placed@[ready@[x]
                as int] && tasks.entry_seq()[ready@[x] as int].spec_dependencies().satisfied_by(
                completed@,
            ),
        forall|k: int|
            0 <= k < placed@.len() && !placed@[k]
                && tasks.entry_seq()[k].spec_dependencies().satisfied_by(completed@) ==> exists|
                x: int,
            | 0 <= x < ready@.len() && ready@[x] == k,
{
    let n = placed.len();
    let mut ready: Vec<usize> = Vec::new();
    for k in 0..n
        invariant
            n == placed@.len(),
            placed@.len() == tasks.entry_seq().len(),
            forall|x: int, y: int| 0 <= x < y < ready@.len() ==> ready@[x] < ready@[y],
            forall|x: int|
                0 <= x < ready@.len() ==> (#[trigger] ready@[x]) < k && !placed@[ready@[x] as int]
                    && tasks.entry_seq()[ready@[x] as int].spec_dependencies().satisfied_by(
                    completed@,
                ),
            forall|k2: int|
                0 <= k2 < k && !placed@[k2]
                    && tasks.entry_seq()[k2].spec_dependencies().satisfied_by(completed@)
                    ==> exists|x: int| 0 <= x < ready@.len() && ready@[x] == k2,
    {
        if !placed[k] && tasks.entry_at(k).dependencies().is_satisfied(completed) {
            let ghost r0 = ready@;
            ready.push(k);
            proof {
                assert forall|k2: int|
                    0 <= k2 < k + 1 && !placed@[k2]
                        && tasks.entry_seq()[k2].spec_dependencies().satisfied_by(completed@)
                        implies exists|x: int| 0 <= x < ready@.len() && ready@[x] == k2 by {
                    if k2 == k {
                        assert(ready@[ready@.len() - 1] == k as usize);
                    } else {
                        let x = choose|x: int| 0 <= x < r0.len() && r0[x] == k2;
                        assert(ready@[x] == k2);
                    }
                }
            }
        }
    }
    ready
}

/// Whether `v` holds `id`.
fn contains_id(v: &Vec<TaskId>, id: &TaskId) -> (r: bool)
    ensures
        r == v@.contains(*id),
{
    let n = v.len();
    for i in 0..n
        invariant
            n == v@.len(),
            forall|j: int| 0 <= j < i ==> v@[j] != *id,
    {
        if v[i] == *id {
            return true;
        }
    }
    false
}

} // verus!
