use crate::id::TaskId;
use crate::id_set::IdSet;
use vstd::prelude::*;
use vstd::seq_lib::seq_to_set_distributes_over_add;

verus! {

/// A conjunction expression over task identities.
///
/// A task's dependency is satisfied once every identifier the expression
/// mentions is in the set of completed tasks. The only combinator is
/// conjunction: there is no "any of" or negative dependency.
#[derive(Debug, PartialEq)]
pub enum Dependency {
    /// No dependencies - can execute immediately
    Empty,
    /// Depends on a single specific task
    Task(TaskId),
    /// Both sub-expressions must be satisfied
    Combine(Box<Dependency>, Box<Dependency>),
}

impl Dependency {
    /// The identifiers mentioned by this expression, left to right.
    pub open spec fn id_seq(self) -> Seq<TaskId>
        decreases self,
    {
        match self {
            Dependency::Empty => Seq::empty(),
            Dependency::Task(id) => seq![id],
            Dependency::Combine(a, b) => (*a).id_seq() + (*b).id_seq(),
        }
    }

    /// The set of identifiers mentioned by this expression.
    pub open spec fn id_set(self) -> Set<TaskId> {
        self.id_seq().to_set()
    }

    /// Satisfaction: every mentioned task must be in `completed`.
    pub open spec fn satisfied_by(self, completed: Set<TaskId>) -> bool
        decreases self,
    {
        match self {
            Dependency::Empty => true,
            Dependency::Task(id) => completed.contains(id),
            Dependency::Combine(a, b) => (*a).satisfied_by(completed) && (*b).satisfied_by(
                completed,
            ),
        }
    }

    /// The number of nodes of the expression tree.
    pub open spec fn size(self) -> nat
        decreases self,
    {
        match self {
            Dependency::Empty => 1,
            Dependency::Task(_) => 1,
            Dependency::Combine(a, b) => 1 + (*a).size() + (*b).size(),
        }
    }

    /// A dependency is satisfied by a completed set exactly when all the
    /// identifiers it mentions are members of that set.
    pub proof fn lemma_satisfied_iff_subset(self, completed: Set<TaskId>)
        ensures
            self.satisfied_by(completed) <==> self.id_set().subset_of(completed),
        decreases self,
    {
        match self {
            Dependency::Empty => {
                assert(self.id_set() =~= Set::<TaskId>::empty());
            },
            Dependency::Task(id) => {
                assert(self.id_seq()[0] == id);
                assert(self.id_seq().contains(id));
            },
            Dependency::Combine(a, b) => {
                (*a).lemma_satisfied_iff_subset(completed);
                (*b).lemma_satisfied_iff_subset(completed);
                seq_to_set_distributes_over_add((*a).id_seq(), (*b).id_seq());
            },
        }
    }

    /// Satisfaction is monotonic: once a dependency is satisfied by a set of
    /// completed tasks, it stays satisfied as that set grows.
    pub proof fn lemma_satisfaction_monotonic(self, small: Set<TaskId>, large: Set<TaskId>)
        requires
            self.satisfied_by(small),
            small.subset_of(large),
        ensures
            self.satisfied_by(large),
        decreases self,
    {
        match self {
            Dependency::Empty => {},
            Dependency::Task(_) => {},
            Dependency::Combine(a, b) => {
                (*a).lemma_satisfaction_monotonic(small, large);
                (*b).lemma_satisfaction_monotonic(small, large);
            },
        }
    }

    /// Conjoins two dependency expressions.
    pub fn and(self, dependency: Dependency) -> (r: Dependency)
        ensures
            r == Dependency::Combine(Box::new(self), Box::new(dependency)),
    {
        Dependency::Combine(Box::new(self), Box::new(dependency))
    }

    /// Check if this dependency is satisfied given a set of completed tasks
    pub fn is_satisfied(&self, completed_tasks: &IdSet) -> (r: bool)
        ensures
            r == self.satisfied_by(completed_tasks@),
        decreases self,
    {
        match self {
            Dependency::Empty => true,
            Dependency::Task(id) => completed_tasks.contains(id),
            Dependency::Combine(a, b) => a.is_satisfied(completed_tasks) && b.is_satisfied(
                completed_tasks,
            ),
        }
    }

    /// Folds a collection of identifiers into a left-leaning chain of
    /// conjunctions, as [`Dependency::spec_from_ids`] describes.
    pub fn from_ids(task_ids: &Vec<TaskId>) -> (r: Dependency)
        ensures
            r == Dependency::spec_from_ids(task_ids@),
            r.id_seq() == task_ids@,
    {
        let n = task_ids.len();
        let mut unit = Dependency::Empty;
        assert(task_ids@.take(0) =~= Seq::empty());
        for i in 0..n
            invariant
                n == task_ids@.len(),
                unit == Dependency::spec_from_ids(task_ids@.take(i as int)),
                unit.id_seq() == task_ids@.take(i as int),
        {
            let ghost prev = unit;
            unit = Dependency::Combine(Box::new(unit), Box::new(Dependency::Task(task_ids[i])));
            proof {
                assert(task_ids@.take(i + 1).drop_last() =~= task_ids@.take(i as int));
                assert(task_ids@.take(i + 1).last() == task_ids@[i as int]);
                let x = task_ids@[i as int];
                assert(Dependency::Task(x).id_seq() =~= seq![x]);
                assert(unit.id_seq() == prev.id_seq() + Dependency::Task(x).id_seq());
                assert(unit.id_seq() =~= task_ids@.take(i + 1));
            }
        }
        proof {
            assert(task_ids@.take(n as int) =~= task_ids@);
        }
        unit
    }

    /// The left fold that [`Dependency::from_ids`] computes.
    pub open spec fn spec_from_ids(ids: Seq<TaskId>) -> Dependency
        decreases ids.len(),
    {
        if ids.len() == 0 {
            Dependency::Empty
        } else {
            Dependency::Combine(
                Box::new(Dependency::spec_from_ids(ids.drop_last())),
                Box::new(Dependency::Task(ids.last())),
            )
        }
    }
}

impl Dependency {
    /// Returns an iterator over all TaskIds in this dependency
    pub fn iter(&self) -> (it: DependencyIter<'_>)
        ensures
            it.remaining() == self.id_seq(),
    {
        DependencyIter::new(self)
    }

    /// Collects the identifiers of this expression, in traversal order.
    pub fn to_ids(&self) -> (r: Vec<TaskId>)
        ensures
            r@ == self.id_seq(),
    {
        let mut out: Vec<TaskId> = Vec::new();
        let mut it = self.iter();
        loop
            invariant
                out@ + it.remaining() == self.id_seq(),
            decreases it.remaining().len(),
        {
            match it.next() {
                Option::Some(id) => {
                    out.push(id);
                    proof {
                        assert(out@ + it.remaining() =~= self.id_seq());
                    }
                },
                Option::None => {
                    proof {
                        assert(out@ =~= self.id_seq());
                    }
                    return out;
                },
            }
        }
    }
}

/// Iterator over TaskIds in a Dependency
///
/// The traversal is a depth-first walk over the expression tree driven by an
/// explicit work stack, so long conjunction chains cannot exhaust the call
/// stack. [`DependencyIter::remaining`] is the sequence of identifiers the
/// iterator has yet to yield.
pub struct DependencyIter<'a> {
    stack: Vec<&'a Dependency>,
}

/// The identifiers yielded, top of stack first, by draining `stack`.
spec fn stack_ids(stack: Seq<&Dependency>) -> Seq<TaskId>
    decreases stack.len(),
{
    if stack.len() == 0 {
        Seq::empty()
    } else {
        stack.last().id_seq() + stack_ids(stack.drop_last())
    }
}

/// The total node count of the expressions on `stack`.
spec fn stack_sizes(stack: Seq<&Dependency>) -> nat
    decreases stack.len(),
{
    if stack.len() == 0 {
        0
    } else {
        stack.last().size() + stack_sizes(stack.drop_last())
    }
}

impl<'a> DependencyIter<'a> {
    /// The identifiers not yet yielded, in the order they will come.
    pub closed spec fn remaining(self) -> Seq<TaskId> {
        stack_ids(self.stack@)
    }

    fn new(dependency: &'a Dependency) -> (it: Self)
        ensures
            it.remaining() == dependency.id_seq(),
    {
        let mut stack: Vec<&'a Dependency> = Vec::new();
        stack.push(dependency);
        let it = DependencyIter { stack };
        proof {
            assert(it.stack@.drop_last() =~= Seq::<&Dependency>::empty());
            assert(stack_ids(Seq::<&Dependency>::empty()) == Seq::<TaskId>::empty());
            assert(it.remaining() =~= dependency.id_seq());
        }
        it
    }

    /// Yields the next identifier of the walk, left to right.
    pub fn next(&mut self) -> (r: Option<TaskId>)
        ensures
            match r {
                Option::Some(id) => old(self).remaining().len() > 0 && id == old(
                    self,
                ).remaining()[0] && final(self).remaining() == old(self).remaining().drop_first(),
                Option::None => old(self).remaining().len() == 0 && final(self).remaining() == old(
                    self,
                ).remaining(),
            },
    {
        let ghost orig = self.remaining();
        loop
            invariant
                self.remaining() == orig,
                orig == old(self).remaining(),
            decreases stack_sizes(self.stack@),
        {
            let ghost s_old = self.stack@;
            match self.stack.pop() {
                Option::Some(dep) => {
                    proof {
                        assert(s_old.last() == dep);
                        assert(s_old.drop_last() == self.stack@);
                    }
                    match dep {
                        Dependency::Empty => {
                            proof {
                                assert(self.remaining() =~= orig);
                            }
                        },
                        Dependency::Task(task_id) => {
                            proof {
                                assert(orig == dep.id_seq() + stack_ids(self.stack@));
                                assert(orig[0] == *task_id);
                                assert(self.remaining() =~= orig.drop_first());
                            }
                            return Option::Some(*task_id);
                        },
                        Dependency::Combine(a, b) => {
                            let ghost rest = self.stack@;
                            self.stack.push(&**b);
                            proof {
                                assert(self.stack@.drop_last() =~= rest);
                                assert(stack_ids(self.stack@) == (**b).id_seq() + stack_ids(rest));
                                assert(stack_sizes(self.stack@) == (**b).size() + stack_sizes(
                                    rest,
                                ));
                            }
                            let ghost mid = self.stack@;
                            self.stack.push(&**a);
                            proof {
                                assert(self.stack@.drop_last() =~= mid);
                                assert(stack_ids(self.stack@) == (**a).id_seq() + stack_ids(mid));
                                assert(stack_sizes(self.stack@) == (**a).size() + stack_sizes(mid));
                                assert(self.remaining() =~= orig);
                            }
                        },
                    }
                },
                Option::None => {
                    proof {
                        assert(self.stack@.len() == 0);
                        assert(orig.len() == 0);
                    }
                    return Option::None;
                },
            }
        }
    }
}

impl Clone for Dependency {
    /// A structurally equal copy of the expression.
    fn clone(&self) -> (r: Dependency)
        ensures
            r == *self,
        decreases self,
    {
        match self {
            Dependency::Empty => Dependency::Empty,
            Dependency::Task(id) => Dependency::Task(*id),
            Dependency::Combine(a, b) => Dependency::Combine(
                Box::new((**a).clone()),
                Box::new((**b).clone()),
            ),
        }
    }
}

impl Default for Dependency {
    /// The empty dependency: always satisfied.
    fn default() -> (r: Dependency)
        ensures
            r == Dependency::Empty,
    {
        Dependency::Empty
    }
}

impl From<TaskId> for Dependency {
    /// A dependency on exactly one task.
    fn from(task_id: TaskId) -> (r: Dependency)
        ensures
            r == Dependency::Task(task_id),
    {
        Dependency::Task(task_id)
    }
}

impl vstd::std_specs::convert::FromSpecImpl<TaskId> for Dependency {
    open spec fn obeys_from_spec() -> bool {
        true
    }

    open spec fn from_spec(task_id: TaskId) -> Dependency {
        Dependency::Task(task_id)
    }
}

} // verus!
