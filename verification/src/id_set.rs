use crate::id::TaskId;
use vstd::prelude::*;

verus! {

/// A finite set of [`TaskId`]s, used to record which tasks have completed.
///
/// Backed by a duplicate-free vector; its mathematical view is a
/// `Set<TaskId>`.
#[derive(Debug)]
pub struct IdSet {
    items: Vec<TaskId>,
}

impl IdSet {
    #[verifier::type_invariant]
    spec fn inv(self) -> bool {
        self.items@.no_duplicates()
    }
}

impl View for IdSet {
    type V = Set<TaskId>;

    closed spec fn view(&self) -> Set<TaskId> {
        self.items@.to_set()
    }
}

impl IdSet {
    /// The empty set.
    pub fn new() -> (s: IdSet)
        ensures
            s@ == Set::<TaskId>::empty(),
    {
        let s = IdSet { items: Vec::new() };
        proof {
            assert(s@ =~= Set::<TaskId>::empty());
        }
        s
    }

    /// Whether `id` is in the set.
    pub fn contains(&self, id: &TaskId) -> (r: bool)
        ensures
            r == self@.contains(*id),
    {
        let n = self.items.len();
        for i in 0..n
            invariant
                n == self.items@.len(),
                forall|j: int| 0 <= j < i ==> self.items@[j] != *id,
        {
            if self.items[i] == *id {
                return true;
            }
        }
        proof {
            assert(!self.items@.contains(*id));
        }
        false
    }

    /// Adds `id`; a value already present is kept once.
    pub fn insert(&mut self, id: TaskId)
        ensures
            final(self)@ == old(self)@.insert(id),
    {
        proof {
            use_type_invariant(&*self);
        }
        if !self.contains(&id) {
            let mut items: Vec<TaskId> = Vec::new();
            std::mem::swap(&mut items, &mut self.items);
            items.push(id);
            proof {
                old(self).items@.lemma_push_to_set_commute(id);
            }
            self.items = items;
            proof {
                assert(self@ =~= old(self)@.insert(id));
            }
        } else {
            proof {
                assert(self@ =~= old(self)@.insert(id));
            }
        }
    }

    /// Removes `id` if present.
    pub fn remove(&mut self, id: &TaskId)
        ensures
            final(self)@ == old(self)@.remove(*id),
    {
        proof {
            use_type_invariant(&*self);
        }
        let mut items: Vec<TaskId> = Vec::new();
        std::mem::swap(&mut items, &mut self.items);
        let n = items.len();
        let mut i: usize = 0;
        while i < n && items[i] != *id
            invariant
                n == items@.len(),
                items@ == old(self).items@,
                0 <= i <= n,
                forall|j: int| 0 <= j < i ==> items@[j] != *id,
            decreases n - i,
        {
            i = i + 1;
        }
        if i < n {
            items.remove(i);
            proof {
                lemma_remove_to_set(old(self).items@, i as int);
            }
        } else {
            proof {
                assert(!items@.contains(*id));
            }
        }
        self.items = items;
        proof {
            assert(self@ =~= old(self)@.remove(*id));
        }
    }

    /// Empties the set.
    pub fn clear(&mut self)
        ensures
            final(self)@ == Set::<TaskId>::empty(),
    {
        self.items = Vec::new();
        proof {
            assert(self@ =~= Set::<TaskId>::empty());
        }
    }

    /// The number of members.
    pub fn len(&self) -> (n: usize)
        ensures
            n == self@.len(),
    {
        proof {
            use_type_invariant(&*self);
            self.items@.unique_seq_to_set();
        }
        self.items.len()
    }

    /// Whether the set is empty.
    pub fn is_empty(&self) -> (r: bool)
        ensures
            r == self@.is_empty(),
    {
        proof {
            use_type_invariant(&*self);
            self.items@.unique_seq_to_set();
            if self@.len() == 0 {
                assert(self@.is_empty());
            }
        }
        self.items.len() == 0
    }
}

/// Removing position `i` from a duplicate-free sequence removes exactly
/// that element from the sequence's set of members.
proof fn lemma_remove_to_set(s: Seq<TaskId>, i: int)
    requires
        s.no_duplicates(),
        0 <= i < s.len(),
    ensures
        s.remove(i).to_set() == s.to_set().remove(s[i]),
{
    assert forall|x: TaskId| s.remove(i).to_set().contains(x) implies s.to_set().remove(
        s[i],
    ).contains(x) by {
        let j = choose|j: int| 0 <= j < s.remove(i).len() && s.remove(i)[j] == x;
        if j < i {
            assert(s[j] == x);
        } else {
            assert(s[j + 1] == x);
        }
    }
    assert forall|x: TaskId| s.to_set().remove(s[i]).contains(x) implies s.remove(
        i,
    ).to_set().contains(x) by {
        let j = choose|j: int| 0 <= j < s.len() && s[j] == x;
        if j < i {
            assert(s.remove(i)[j] == x);
        } else {
            assert(j != i);
            assert(s.remove(i)[j - 1] == x);
        }
    }
    assert(s.remove(i).to_set() =~= s.to_set().remove(s[i]));
}

} // verus!
