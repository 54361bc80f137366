use crate::id::TaskId;
use vstd::prelude::*;

verus! {

/// Result of task execution containing the task ID and its result
#[derive(Debug)]
pub struct TaskResult<T, E> {
    pub task_id: TaskId,
    pub result: Result<T, E>,
}

/// The results of a sequence of steps, flattened in step order.
pub open spec fn flat_of<T, E>(steps: Seq<Seq<TaskResult<T, E>>>) -> Seq<TaskResult<T, E>>
    decreases steps.len(),
{
    if steps.len() == 0 {
        Seq::empty()
    } else {
        flat_of(steps.drop_last()) + steps.last()
    }
}

/// The subsequence of results whose computation succeeded, in order.
pub open spec fn ok_results<T, E>(s: Seq<TaskResult<T, E>>) -> Seq<TaskResult<T, E>>
    decreases s.len(),
{
    if s.len() == 0 {
        Seq::empty()
    } else if s.last().result is Ok {
        ok_results(s.drop_last()).push(s.last())
    } else {
        ok_results(s.drop_last())
    }
}

/// The subsequence of results whose computation failed, in order.
pub open spec fn err_results<T, E>(s: Seq<TaskResult<T, E>>) -> Seq<TaskResult<T, E>>
    decreases s.len(),
{
    if s.len() == 0 {
        Seq::empty()
    } else if s.last().result is Err {
        err_results(s.drop_last()).push(s.last())
    } else {
        err_results(s.drop_last())
    }
}

/// The total size of a sequence of steps.
pub open spec fn step_sizes<T, E>(steps: Seq<Seq<TaskResult<T, E>>>) -> int
    decreases steps.len(),
{
    if steps.len() == 0 {
        0
    } else {
        step_sizes(steps.drop_last()) + steps.last().len()
    }
}

/// Every result either succeeded or failed: the two subsequences partition
/// the whole.
pub proof fn lemma_ok_err_partition<T, E>(s: Seq<TaskResult<T, E>>)
    ensures
        ok_results(s).len() + err_results(s).len() == s.len(),
    decreases s.len(),
{
    if s.len() > 0 {
        lemma_ok_err_partition(s.drop_last());
    }
}

/// Flattening a sequence of steps yields as many results as the steps hold
/// together.
pub proof fn lemma_flat_len<T, E>(steps: Seq<Seq<TaskResult<T, E>>>)
    ensures
        flat_of(steps).len() == step_sizes(steps),
    decreases steps.len(),
{
    if steps.len() > 0 {
        lemma_flat_len(steps.drop_last());
    }
}

/// The successful and failed subsequences distribute over concatenation.
pub proof fn lemma_ok_err_concat<T, E>(a: Seq<TaskResult<T, E>>, b: Seq<TaskResult<T, E>>)
    ensures
        ok_results(a + b) == ok_results(a) + ok_results(b),
        err_results(a + b) == err_results(a) + err_results(b),
    decreases b.len(),
{
    if b.len() == 0 {
        assert(a + b =~= a);
        assert(ok_results(a) + ok_results(b) =~= ok_results(a));
        assert(err_results(a) + err_results(b) =~= err_results(a));
    } else {
        lemma_ok_err_concat(a, b.drop_last());
        assert((a + b).drop_last() =~= a + b.drop_last());
        assert((a + b).last() == b.last());
        if b.last().result is Ok {
            assert(ok_results(a) + ok_results(b) =~= (ok_results(a) + ok_results(
                b.drop_last(),
            )).push(b.last()));
            assert(err_results(a) + err_results(b) =~= err_results(a) + err_results(
                b.drop_last(),
            ));
        } else {
            assert(err_results(a) + err_results(b) =~= (err_results(a) + err_results(
                b.drop_last(),
            )).push(b.last()));
            assert(ok_results(a) + ok_results(b) =~= ok_results(a) + ok_results(b.drop_last()));
        }
    }
}

/// Complete execution result with all task results organized by execution steps
#[derive(Debug)]
pub struct ExecutionResult<T, E> {
    pub steps: Vec<Vec<TaskResult<T, E>>>,
    pub total_tasks: usize,
    pub successful_tasks: usize,
    pub failed_tasks: usize,
}

impl<T, E> ExecutionResult<T, E> {
    /// All recorded results, flattened in step order.
    pub open spec fn flat_results(self) -> Seq<TaskResult<T, E>> {
        flat_of(self.steps@.map_values(|v: Vec<TaskResult<T, E>>| v@))
    }

    /// The counters agree with the recorded steps: every task was counted,
    /// once, as either successful or failed.
    pub open spec fn counts_consistent(self) -> bool {
        &&& self.total_tasks == self.successful_tasks + self.failed_tasks
        &&& self.total_tasks == self.flat_results().len()
        &&& self.successful_tasks == ok_results(self.flat_results()).len()
        &&& self.failed_tasks == err_results(self.flat_results()).len()
    }

    /// An empty result: no steps, nothing counted.
    pub fn new() -> (r: ExecutionResult<T, E>)
        ensures
            r.steps@ == Seq::<Vec<TaskResult<T, E>>>::empty(),
            r.total_tasks == 0,
            r.successful_tasks == 0,
            r.failed_tasks == 0,
            r.counts_consistent(),
    {
        let r = ExecutionResult {
            steps: Vec::new(),
            total_tasks: 0,
            successful_tasks: 0,
            failed_tasks: 0,
        };
        proof {
            assert(r.steps@.map_values(|v: Vec<TaskResult<T, E>>| v@) =~= Seq::<
                Seq<TaskResult<T, E>>,
            >::empty());
        }
        r
    }

    /// Records the results of one completed step, updating every counter.
    pub fn record_step(&mut self, step: Vec<TaskResult<T, E>>)
        requires
            old(self).counts_consistent(),
            old(self).total_tasks + step@.len() <= usize::MAX,
        ensures
            final(self).steps@ == old(self).steps@.push(step),
            final(self).total_tasks == old(self).total_tasks + step@.len(),
            final(self).successful_tasks == old(self).successful_tasks + ok_results(step@).len(),
            final(self).failed_tasks == old(self).failed_tasks + err_results(step@).len(),
            final(self).counts_consistent(),
    {
        let n = step.len();
        let mut ok_count: usize = 0;
        let mut err_count: usize = 0;
        for i in 0..n
            invariant
                n == step@.len(),
                ok_count == ok_results(step@.take(i as int)).len(),
                err_count == err_results(step@.take(i as int)).len(),
                ok_count + err_count == i,
                i <= n <= usize::MAX,
        {
            proof {
                assert(step@.take(i + 1).drop_last() =~= step@.take(i as int));
                assert(step@.take(i + 1).last() == step@[i as int]);
            }
            if step[i].result.is_ok() {
                ok_count = ok_count + 1;
            } else {
                err_count = err_count + 1;
            }
        }
        proof {
            assert(step@.take(n as int) =~= step@);
            lemma_ok_err_partition(step@);
            lemma_ok_err_concat(old(self).flat_results(), step@);
        }
        let ghost flat0 = self.flat_results();
        self.total_tasks = self.total_tasks + ok_count + err_count;
        self.successful_tasks = self.successful_tasks + ok_count;
        self.failed_tasks = self.failed_tasks + err_count;
        self.steps.push(step);
        proof {
            let stepviews = self.steps@.map_values(|v: Vec<TaskResult<T, E>>| v@);
            assert(stepviews.drop_last() =~= old(self).steps@.map_values(
                |v: Vec<TaskResult<T, E>>| v@,
            ));
            assert(stepviews.last() == step@);
            assert(self.flat_results() == flat0 + step@);
        }
    }

    /// Returns all successful task results
    pub fn successful_results(&self) -> (r: Vec<&TaskResult<T, E>>)
        ensures
            r@.map_values(|x: &TaskResult<T, E>| *x) == ok_results(self.flat_results()),
    {
        let m = self.steps.len();
        let mut out: Vec<&TaskResult<T, E>> = Vec::new();
        let ghost views = self.steps@.map_values(|v: Vec<TaskResult<T, E>>| v@);
        proof {
            assert(views.take(0) =~= Seq::<Seq<TaskResult<T, E>>>::empty());
        }
        for i in 0..m
            invariant
                m == self.steps@.len(),
                views == self.steps@.map_values(|v: Vec<TaskResult<T, E>>| v@),
                out@.map_values(|x: &TaskResult<T, E>| *x) == ok_results(
                    flat_of(views.take(i as int)),
                ),
        {
            let step = &self.steps[i];
            let n = step.len();
            let ghost before = flat_of(views.take(i as int));
            for j in 0..n
                invariant
                    m == self.steps@.len(),
                    views == self.steps@.map_values(|v: Vec<TaskResult<T, E>>| v@),
                    n == step@.len(),
                    step@ == views[i as int],
                    before == flat_of(views.take(i as int)),
                    0 <= i < m,
                    out@.map_values(|x: &TaskResult<T, E>| *x) == ok_results(
                        before + step@.take(j as int),
                    ),
            {
                proof {
                    assert((before + step@.take(j + 1)).drop_last() =~= before + step@.take(
                        j as int,
                    ));
                    assert((before + step@.take(j + 1)).last() == step@[j as int]);
                }
                let ghost out0 = out@;
                if step[j].result.is_ok() {
                    out.push(&step[j]);
                    proof {
                        assert(out@.drop_last() == out0);
                        assert(out@.map_values(|x: &TaskResult<T, E>| *x) =~= out0.map_values(
                            |x: &TaskResult<T, E>| *x,
                        ).push(step@[j as int]));
                    }
                }
            }
            proof {
                assert(views.take(i + 1).drop_last() =~= views.take(i as int));
                assert(views.take(i + 1).last() == views[i as int]);
                assert(flat_of(views.take(i + 1)) == before + views[i as int]);
                assert(before + step@.take(n as int) =~= flat_of(views.take(i + 1)));
            }
        }
        proof {
            assert(views.take(m as int) =~= views);
        }
        out
    }

    /// Returns all failed task results
    pub fn failed_results(&self) -> (r: Vec<&TaskResult<T, E>>)
        ensures
            r@.map_values(|x: &TaskResult<T, E>| *x) == err_results(self.flat_results()),
    {
        let m = self.steps.len();
        let mut out: Vec<&TaskResult<T, E>> = Vec::new();
        let ghost views = self.steps@.map_values(|v: Vec<TaskResult<T, E>>| v@);
        proof {
            assert(views.take(0) =~= Seq::<Seq<TaskResult<T, E>>>::empty());
        }
        for i in 0..m
            invariant
                m == self.steps@.len(),
                views == self.steps@.map_values(|v: Vec<TaskResult<T, E>>| v@),
                out@.map_values(|x: &TaskResult<T, E>| *x) == err_results(
                    flat_of(views.take(i as int)),
                ),
        {
            let step = &self.steps[i];
            let n = step.len();
            let ghost before = flat_of(views.take(i as int));
            for j in 0..n
                invariant
                    m == self.steps@.len(),
                    views == self.steps@.map_values(|v: Vec<TaskResult<T, E>>| v@),
                    n == step@.len(),
                    step@ == views[i as int],
                    before == flat_of(views.take(i as int)),
                    0 <= i < m,
                    out@.map_values(|x: &TaskResult<T, E>| *x) == err_results(
                        before + step@.take(j as int),
                    ),
            {
                proof {
                    assert((before + step@.take(j + 1)).drop_last() =~= before + step@.take(
                        j as int,
                    ));
                    assert((before + step@.take(j + 1)).last() == step@[j as int]);
                }
                let ghost out0 = out@;
                if step[j].result.is_err() {
                    out.push(&step[j]);
                    proof {
                        assert(out@.drop_last() == out0);
                        assert(out@.map_values(|x: &TaskResult<T, E>| *x) =~= out0.map_values(
                            |x: &TaskResult<T, E>| *x,
                        ).push(step@[j as int]));
                    }
                }
            }
            proof {
                assert(views.take(i + 1).drop_last() =~= views.take(i as int));
                assert(views.take(i + 1).last() == views[i as int]);
                assert(flat_of(views.take(i + 1)) == before + views[i as int]);
                assert(before + step@.take(n as int) =~= flat_of(views.take(i + 1)));
            }
        }
        proof {
            assert(views.take(m as int) =~= views);
        }
        out
    }

    /// Returns true if all tasks completed successfully
    pub fn all_successful(&self) -> (r: bool)
        ensures
            r == (self.failed_tasks == 0),
    {
        self.failed_tasks == 0
    }
}

/// Conservation: however the steps were recorded, the counters add up - the
/// total equals successes plus failures, and equals the combined size of all
/// the steps.
pub proof fn lemma_conservation<T, E>(r: ExecutionResult<T, E>)
    requires
        r.counts_consistent(),
    ensures
        r.total_tasks == r.successful_tasks + r.failed_tasks,
        r.total_tasks == step_sizes(r.steps@.map_values(|v: Vec<TaskResult<T, E>>| v@)),
{
    lemma_flat_len(r.steps@.map_values(|v: Vec<TaskResult<T, E>>| v@));
}

} // verus!
