use crate::id::TaskId;
use crate::task::Task;
use vstd::prelude::*;

verus! {

/// A mapping from [`TaskId`] to [`Task`], keyed by each task's own identity.
///
/// Backed by a vector whose entries carry pairwise distinct identities; its
/// mathematical view is a `Map<TaskId, Task<C>>`. Registering a task whose
/// identity is already present replaces the prior task.
pub struct TaskMap<C> {
    entries: Vec<Task<C>>,
}

/// Pairwise distinct identities.
pub open spec fn distinct_ids<C>(s: Seq<Task<C>>) -> bool {
    forall|i: int, j: int| 0 <= i < j < s.len() ==> s[i].spec_id() != s[j].spec_id()
}

/// The identities of `s`, in entry order.
pub open spec fn id_seq_of<C>(s: Seq<Task<C>>) -> Seq<TaskId> {
    s.map_values(|t: Task<C>| t.spec_id())
}

/// The mapping that a sequence of entries denotes: later entries win.
pub open spec fn map_of_entries<C>(s: Seq<Task<C>>) -> Map<TaskId, Task<C>>
    decreases s.len(),
{
    if s.len() == 0 {
        Map::empty()
    } else {
        map_of_entries(s.drop_last()).insert(s.last().spec_id(), s.last())
    }
}

/// An identity is a key of the denoted mapping exactly when some entry
/// carries it.
pub proof fn lemma_map_of_entries_dom<C>(s: Seq<Task<C>>)
    ensures
        map_of_entries(s).dom() =~= id_seq_of(s).to_set(),
    decreases s.len(),
{
    if s.len() == 0 {
        assert(id_seq_of(s) =~= Seq::<TaskId>::empty());
    } else {
        lemma_map_of_entries_dom(s.drop_last());
        assert(id_seq_of(s.drop_last()) =~= id_seq_of(s).drop_last());
        assert(id_seq_of(s) =~= id_seq_of(s).drop_last().push(s.last().spec_id()));
        id_seq_of(s).drop_last().lemma_push_to_set_commute(s.last().spec_id());
    }
}

/// With distinct identities, the denoted mapping sends each entry's identity
/// to that entry.
pub proof fn lemma_map_of_entries_at<C>(s: Seq<Task<C>>, i: int)
    requires
        distinct_ids(s),
        0 <= i < s.len(),
    ensures
        map_of_entries(s).contains_key(s[i].spec_id()),
        map_of_entries(s)[s[i].spec_id()] == s[i],
    decreases s.len(),
{
    if i == s.len() - 1 {
    } else {
        lemma_map_of_entries_at(s.drop_last(), i);
        assert(s.drop_last()[i] == s[i]);
        assert(s[i].spec_id() != s.last().spec_id());
    }
}

/// With distinct identities, the denoted mapping has as many keys as there
/// are entries.
pub proof fn lemma_map_of_entries_len<C>(s: Seq<Task<C>>)
    requires
        distinct_ids(s),
    ensures
        map_of_entries(s).dom().len() == s.len(),
        map_of_entries(s).dom().finite(),
{
    lemma_map_of_entries_dom(s);
    let f = |t: Task<C>| t.spec_id();
    assert forall|i: int, j: int|
        0 <= i < s.len() && 0 <= j < s.len() && i != j implies id_seq_of(s)[i] != id_seq_of(
        s,
    )[j] by {
        if i < j {
            assert(s[i].spec_id() != s[j].spec_id());
        } else {
            assert(s[j].spec_id() != s[i].spec_id());
        }
    }
    assert(id_seq_of(s).no_duplicates());
    id_seq_of(s).unique_seq_to_set();
}

/// Replacing the entry at `i` by a task with the same identity replaces the
/// identity's image in the denoted mapping.
proof fn lemma_map_of_entries_update<C>(s: Seq<Task<C>>, i: int, t: Task<C>)
    requires
        distinct_ids(s),
        0 <= i < s.len(),
        t.spec_id() == s[i].spec_id(),
    ensures
        map_of_entries(s.update(i, t)) =~= map_of_entries(s).insert(t.spec_id(), t),
    decreases s.len(),
{
    let s2 = s.update(i, t);
    if i == s.len() - 1 {
        assert(s2.drop_last() =~= s.drop_last());
        assert(s2.last() == t);
    } else {
        assert(s2.drop_last() =~= s.drop_last().update(i, t));
        assert(s2.last() == s.last());
        assert(s.drop_last()[i] == s[i]);
        lemma_map_of_entries_update(s.drop_last(), i, t);
        assert(s[i].spec_id() != s.last().spec_id());
    }
}

/// Removing the entry at `i` removes its identity from the denoted mapping.
proof fn lemma_map_of_entries_remove<C>(s: Seq<Task<C>>, i: int)
    requires
        distinct_ids(s),
        0 <= i < s.len(),
    ensures
        map_of_entries(s.remove(i)) =~= map_of_entries(s).remove(s[i].spec_id()),
    decreases s.len(),
{
    let s2 = s.remove(i);
    if i == s.len() - 1 {
        assert(s2 =~= s.drop_last());
        lemma_map_of_entries_dom(s.drop_last());
        assert forall|j: int| 0 <= j < s.drop_last().len() implies id_seq_of(s.drop_last())[j]
            != s.last().spec_id() by {
            assert(s[j].spec_id() != s[i].spec_id());
        }
        assert(!id_seq_of(s.drop_last()).contains(s.last().spec_id()));
        assert(!map_of_entries(s.drop_last()).contains_key(s.last().spec_id()));
    } else {
        assert(s2.drop_last() =~= s.drop_last().remove(i));
        assert(s2.last() == s.last());
        assert(s.drop_last()[i] == s[i]);
        lemma_map_of_entries_remove(s.drop_last(), i);
        assert(s[i].spec_id() != s.last().spec_id());
    }
}

impl<C> TaskMap<C> {
    #[verifier::type_invariant]
    spec fn inv(self) -> bool {
        distinct_ids(self.entries@)
    }

    /// The backing entries, in registration order.
    pub closed spec fn entry_seq(self) -> Seq<Task<C>> {
        self.entries@
    }
}

impl<C> View for TaskMap<C> {
    type V = Map<TaskId, Task<C>>;

    open spec fn view(&self) -> Map<TaskId, Task<C>> {
        map_of_entries(self.entry_seq())
    }
}

impl<C> TaskMap<C> {
    /// An empty mapping.
    pub fn new() -> (m: TaskMap<C>)
        ensures
            m@ == Map::<TaskId, Task<C>>::empty(),
            m.entry_seq() == Seq::<Task<C>>::empty(),
    {
        TaskMap { entries: Vec::new() }
    }

    /// The number of registered tasks.
    pub fn len(&self) -> (n: usize)
        ensures
            n == self.entry_seq().len(),
            n == self@.dom().len(),
            distinct_ids(self.entry_seq()),
    {
        proof {
            use_type_invariant(&*self);
            lemma_map_of_entries_len(self.entries@);
        }
        self.entries.len()
    }

    /// The entry at position `i` of the registration order.
    pub fn entry_at(&self, i: usize) -> (t: &Task<C>)
        requires
            i < self.entry_seq().len(),
        ensures
            *t == self.entry_seq()[i as int],
            self@.contains_key(t.spec_id()),
            self@[t.spec_id()] == *t,
    {
        proof {
            use_type_invariant(&*self);
            lemma_map_of_entries_at(self.entries@, i as int);
        }
        &self.entries[i]
    }

    /// The position of the entry carrying `id`, if one does.
    fn index_of(&self, id: &TaskId) -> (r: Option<usize>)
        ensures
            match r {
                Option::Some(i) => i < self.entry_seq().len() && self.entry_seq()[
                    i as int
                ].spec_id() == *id,
                Option::None => forall|j: int|
                    0 <= j < self.entry_seq().len() ==> self.entry_seq()[j].spec_id() != *id,
            },
    {
        let n = self.entries.len();
        for i in 0..n
            invariant
                n == self.entries@.len(),
                forall|j: int| 0 <= j < i ==> self.entries@[j].spec_id() != *id,
        {
            if *self.entries[i].id() == *id {
                return Option::Some(i);
            }
        }
        Option::None
    }

    /// Whether a task with identity `id` is registered.
    pub fn contains(&self, id: &TaskId) -> (r: bool)
        ensures
            r == self@.dom().contains(*id),
    {
        proof {
            use_type_invariant(&*self);
            lemma_map_of_entries_dom(self.entries@);
        }
        match self.index_of(id) {
            Option::Some(i) => {
                proof {
                    assert(id_seq_of(self.entries@)[i as int] == *id);
                }
                true
            },
            Option::None => {
                proof {
                    assert forall|j: int| 0 <= j < id_seq_of(self.entries@).len() implies id_seq_of(
                        self.entries@,
                    )[j] != *id by {
                        assert(self.entry_seq()[j].spec_id() != *id);
                        assert(id_seq_of(self.entries@)[j] == self.entries@[j].spec_id());
                    }
                    assert(!id_seq_of(self.entries@).contains(*id));
                }
                false
            },
        }
    }

    /// Registers `task` under its identity, replacing any prior task with
    /// the same identity.
    pub fn insert(&mut self, task: Task<C>)
        ensures
            final(self)@ == old(self)@.insert(task.spec_id(), task),
    {
        proof {
            use_type_invariant(&*self);
        }
        let idx = self.index_of(task.id());
        let mut entries: Vec<Task<C>> = Vec::new();
        std::mem::swap(&mut entries, &mut self.entries);
        match idx {
            Option::Some(i) => {
                proof {
                    lemma_map_of_entries_update(old(self).entries@, i as int, task);
                }
                entries.set(i, task);
                proof {
                    assert(entries@ == old(self).entries@.update(i as int, task));
                    assert(old(self).entry_seq()[i as int].spec_id() == task.spec_id());
                    assert forall|k: int, l: int|
                        0 <= k < l < entries@.len() implies entries@[k].spec_id()
                        != entries@[l].spec_id() by {
                        assert(old(self).entries@[k].spec_id() != old(self).entries@[l].spec_id());
                    }
                }
                self.entries = entries;
            },
            Option::None => {
                entries.push(task);
                proof {
                    assert(entries@.drop_last() =~= old(self).entries@);
                    assert forall|k: int, l: int|
                        0 <= k < l < entries@.len() implies entries@[k].spec_id()
                        != entries@[l].spec_id() by {
                        if l == entries@.len() - 1 {
                            assert(old(self).entry_seq()[k].spec_id() != task.spec_id());
                        } else {
                            assert(old(self).entries@[k].spec_id() != old(
                                self,
                            ).entries@[l].spec_id());
                        }
                    }
                }
                self.entries = entries;
            },
        }
        proof {
            assert(self@ =~= old(self)@.insert(task.spec_id(), task));
        }
    }

    /// Removes and returns the task registered under `id`, if any.
    pub fn remove(&mut self, id: &TaskId) -> (r: Option<Task<C>>)
        ensures
            final(self)@ == old(self)@.remove(*id),
            match r {
                Option::Some(t) => old(self)@.contains_key(*id) && t == old(self)@[*id]
                    && t.spec_id() == *id,
                Option::None => !old(self)@.contains_key(*id),
            },
    {
        proof {
            use_type_invariant(&*self);
            lemma_map_of_entries_dom(self.entries@);
        }
        let idx = self.index_of(id);
        match idx {
            Option::Some(i) => {
                let mut entries: Vec<Task<C>> = Vec::new();
                std::mem::swap(&mut entries, &mut self.entries);
                let t = entries.remove(i);
                proof {
                    lemma_map_of_entries_at(old(self).entries@, i as int);
                    lemma_map_of_entries_remove(old(self).entries@, i as int);
                }
                self.entries = entries;
                proof {
                    assert(self@ =~= old(self)@.remove(*id));
                }
                Option::Some(t)
            },
            Option::None => {
                proof {
                    assert forall|j: int| 0 <= j < id_seq_of(self.entries@).len() implies id_seq_of(
                        self.entries@,
                    )[j] != *id by {
                        assert(self.entry_seq()[j].spec_id() != *id);
                        assert(id_seq_of(self.entries@)[j] == self.entries@[j].spec_id());
                    }
                    assert(!id_seq_of(self.entries@).contains(*id));
                    assert(self@ =~= old(self)@.remove(*id));
                }
                Option::None
            },
        }
    }

    /// The identities of the registered tasks, in registration order.
    pub fn ids(&self) -> (r: Vec<TaskId>)
        ensures
            r@ == id_seq_of(self.entry_seq()),
            r@.to_set() == self@.dom(),
            r@.no_duplicates(),
    {
        proof {
            use_type_invariant(&*self);
            lemma_map_of_entries_dom(self.entries@);
            assert forall|i: int, j: int|
                0 <= i < id_seq_of(self.entries@).len() && 0 <= j < id_seq_of(self.entries@).len()
                    && i != j implies id_seq_of(self.entries@)[i] != id_seq_of(
                self.entries@,
            )[j] by {
                if i < j {
                    assert(self.entries@[i].spec_id() != self.entries@[j].spec_id());
                } else {
                    assert(self.entries@[j].spec_id() != self.entries@[i].spec_id());
                }
            }
        }
        let n = self.entries.len();
        let mut out: Vec<TaskId> = Vec::new();
        for i in 0..n
            invariant
                n == self.entries@.len(),
                out@ =~= id_seq_of(self.entries@).take(i as int),
        {
            out.push(*self.entries[i].id());
            proof {
                assert(out@ =~= id_seq_of(self.entries@).take(i + 1));
            }
        }
        proof {
            assert(id_seq_of(self.entries@).take(n as int) =~= id_seq_of(self.entries@));
        }
        out
    }
}

} // verus!
