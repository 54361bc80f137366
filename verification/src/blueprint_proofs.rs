use crate::id::TaskId;
use crate::task::Task;
use crate::task_map::{
    distinct_ids, id_seq_of, lemma_map_of_entries_at, lemma_map_of_entries_dom,
    lemma_map_of_entries_len, map_of_entries,
};
use crate::blueprint::{
    all_deps_present, cycle_report_ok, deps_of, lemma_self_supporting_member,
    lemma_self_supporting_subset, self_supporting, steps_prefix_ids, Step,
};
use vstd::prelude::*;
use vstd::set_lib::lemma_len_subset;

verus! {

/// Appending a step leaves every earlier prefix unchanged.
pub(crate) proof fn lemma_steps_prefix_push(steps: Seq<Step>, x: Step, i: int)
    requires
        0 <= i <= steps.len(),
    ensures
        steps_prefix_ids(steps.push(x), i) == steps_prefix_ids(steps, i),
    decreases i,
{
    if i > 0 {
        lemma_steps_prefix_push(steps, x, i - 1);
        assert(steps.push(x)[i - 1] == steps[i - 1]);
    }
}

/// The basic facts that relate a duplicate-free entry sequence to the
/// dependency map it denotes.
pub(crate) proof fn lemma_deps_facts<C>(e: Seq<Task<C>>)
    requires
        distinct_ids(e),
    ensures
        deps_of(map_of_entries(e)).dom() == id_seq_of(e).to_set(),
        deps_of(map_of_entries(e)).dom().finite(),
        deps_of(map_of_entries(e)).dom().len() == e.len(),
        forall|k: int|
            0 <= k < e.len() ==> deps_of(map_of_entries(e)).dom().contains(
                #[trigger] id_seq_of(e)[k],
            ) && deps_of(map_of_entries(e))[id_seq_of(e)[k]] == e[k].spec_dependencies().id_set(),
{
    lemma_map_of_entries_dom(e);
    lemma_map_of_entries_len(e);
    let m = map_of_entries(e);
    let dm = deps_of(m);
    assert(dm.dom() =~= m.dom());
    assert forall|k: int|
        0 <= k < e.len() implies dm.dom().contains(#[trigger] id_seq_of(e)[k]) && dm[id_seq_of(
        e,
    )[k]] == e[k].spec_dependencies().id_set() by {
        lemma_map_of_entries_at(e, k);
        assert(id_seq_of(e)[k] == e[k].spec_id());
        assert(m[id_seq_of(e)[k]] == e[k]);
    }
}

/// Placing the next ready task: the facts that let the step-building loop
/// keep its invariants when the identity at `ready[x]` joins the step.
#[verifier::spinoff_prover]
pub(crate) proof fn lemma_place_one<C>(
    dm: Map<TaskId, Set<TaskId>>,
    e: Seq<Task<C>>,
    comp0: Set<TaskId>,
    prev: Set<TaskId>,
    si0: Seq<TaskId>,
    ready: Seq<usize>,
    x: int,
)
    requires
        distinct_ids(e),
        dm.dom() == id_seq_of(e).to_set(),
        dm.dom().finite(),
        forall|k: int|
            0 <= k < e.len() ==> dm.dom().contains(#[trigger] id_seq_of(e)[k]) && dm[id_seq_of(
                e,
            )[k]] == e[k].spec_dependencies().id_set(),
        forall|a: int, b: int| 0 <= a < b < ready.len() ==> ready[a] < ready[b],
        forall|a: int|
            0 <= a < ready.len() ==> (#[trigger] ready[a]) < e.len() && !comp0.contains(
                id_seq_of(e)[ready[a] as int],
            ) && e[ready[a] as int].spec_dependencies().satisfied_by(comp0),
        0 <= x < ready.len(),
        si0.len() == x,
        forall|y: int| 0 <= y < x ==> si0[y] == id_seq_of(e)[ready[y] as int],
        si0.no_duplicates(),
        prev == comp0.union(si0.to_set()),
        prev.subset_of(dm.dom()),
    ensures
        ({
            let ids = id_seq_of(e);
            let k = ready[x] as int;
            let tid = ids[k];
            &&& !prev.contains(tid)
            &&& dm[tid].subset_of(comp0)
            &&& prev.insert(tid) == comp0.union(si0.push(tid).to_set())
            &&& si0.push(tid).no_duplicates()
            &&& forall|y: int| 0 <= y < x + 1 ==> si0.push(tid)[y] == ids[ready[y] as int]
            &&& prev.insert(tid).len() == prev.len() + 1
            &&& prev.insert(tid).subset_of(dm.dom())
            &&& prev.insert(tid).len() <= dm.dom().len()
            &&& forall|k2: int| 0 <= k2 < e.len() && k2 != k ==> ids[k2] != tid
            &&& forall|ss: Set<TaskId>|
                #[trigger] self_supporting(dm, ss) && ss.disjoint(prev) ==> ss.disjoint(
                    prev.insert(tid),
                )
        }),
{
    let ids = id_seq_of(e);
    let k = ready[x] as int;
    let tid = ids[k];
    assert forall|k2: int| 0 <= k2 < e.len() && k2 != k implies ids[k2] != tid by {
        if k2 < k {
            assert(e[k2].spec_id() != e[k].spec_id());
        } else {
            assert(e[k].spec_id() != e[k2].spec_id());
        }
    }
    assert forall|y: int| 0 <= y < x implies si0[y] != tid by {
        assert(ready[y] < ready[x]);
        assert(ids[ready[y] as int] != tid);
    }
    assert(!si0.contains(tid));
    assert(!si0.to_set().contains(tid));
    assert(!comp0.contains(tid));
    assert(!prev.contains(tid));
    e[k].spec_dependencies().lemma_satisfied_iff_subset(comp0);
    assert(dm[tid] == e[k].spec_dependencies().id_set());
    assert(dm[tid].subset_of(comp0));
    si0.lemma_push_to_set_commute(tid);
    assert(prev.insert(tid) =~= comp0.union(si0.push(tid).to_set()));
    assert forall|a: int, b: int| 0 <= a < b < si0.push(tid).len() implies si0.push(tid)[a]
        != si0.push(tid)[b] by {
        if b == si0.len() {
            assert(si0[a] != tid);
        } else {
            assert(si0[a] != si0[b]);
        }
    }
    assert(dm.dom().contains(tid));
    assert(prev.insert(tid).subset_of(dm.dom()));
    lemma_len_subset(prev.insert(tid), dm.dom());
    assert forall|ss: Set<TaskId>|
        #[trigger] self_supporting(dm, ss) && ss.disjoint(prev) implies ss.disjoint(
        prev.insert(tid),
    ) by {
        if ss.contains(tid) {
            lemma_self_supporting_member(dm, ss, tid);
            let d = choose|d: TaskId| #[trigger] dm[tid].contains(d) && ss.contains(d);
            assert(comp0.contains(d));
            assert(prev.contains(d));
            assert(false);
        }
        assert forall|q: TaskId| ss.contains(q) implies !prev.insert(tid).contains(q) by {
            assert(!prev.contains(q));
        }
    }
}

/// When no unplaced task is ready, the unplaced identities are exactly the
/// largest set of tasks that waits on itself.
#[verifier::spinoff_prover]
#[verifier::rlimit(50)]
pub(crate) proof fn lemma_cycle_report<C>(
    dm: Map<TaskId, Set<TaskId>>,
    e: Seq<Task<C>>,
    remaining: Seq<TaskId>,
    completed: Set<TaskId>,
)
    requires
        distinct_ids(e),
        dm.dom() == id_seq_of(e).to_set(),
        dm.dom().finite(),
        dm.dom().len() == e.len(),
        forall|k: int|
            0 <= k < e.len() ==> dm.dom().contains(#[trigger] id_seq_of(e)[k]) && dm[id_seq_of(
                e,
            )[k]] == e[k].spec_dependencies().id_set(),
        all_deps_present(dm),
        completed.subset_of(dm.dom()),
        completed.len() < dm.dom().len(),
        remaining.no_duplicates(),
        forall|x: int|
            0 <= x < remaining.len() ==> dm.dom().contains(#[trigger] remaining[x])
                && !completed.contains(remaining[x]),
        forall|k2: int|
            0 <= k2 < e.len() && !completed.contains(id_seq_of(e)[k2]) ==> remaining.contains(
                id_seq_of(e)[k2],
            ),
        forall|k2: int|
            0 <= k2 < e.len() && !completed.contains(id_seq_of(e)[k2])
                ==> !e[k2].spec_dependencies().satisfied_by(completed),
        forall|ss: Set<TaskId>| #[trigger] self_supporting(dm, ss) ==> ss.disjoint(completed),
    ensures
        cycle_report_ok(dm, remaining),
{
    let ids = id_seq_of(e);
    let u = remaining.to_set();
    // membership of the unplaced set, in both directions
    assert forall|t: TaskId| #[trigger] u.contains(t) implies dm.dom().contains(t)
        && !completed.contains(t) by {
        let x = choose|x: int| 0 <= x < remaining.len() && remaining[x] == t;
        assert(dm.dom().contains(remaining[x]));
    }
    assert forall|t: TaskId|
        dm.dom().contains(t) && !completed.contains(t) implies #[trigger] u.contains(t) by {
        assert(ids.contains(t));
        let k2 = choose|k2: int| 0 <= k2 < ids.len() && ids[k2] == t;
        assert(remaining.contains(ids[k2]));
    }
    // the unplaced set is nonempty
    lemma_len_subset(completed, dm.dom());
    if dm.dom().subset_of(completed) {
        lemma_len_subset(dm.dom(), completed);
        assert(false);
    }
    let t0 = choose|t0: TaskId| dm.dom().contains(t0) && !completed.contains(t0);
    assert(u.contains(t0));
    assert(remaining.len() > 0);
    // the unplaced set waits on itself
    assert(u.subset_of(dm.dom()));
    assert forall|t: TaskId| #[trigger] u.contains(t) implies exists|d: TaskId|
        #[trigger] dm[t].contains(d) && u.contains(d) by {
        assert(ids.contains(t));
        let k2 = choose|k2: int| 0 <= k2 < ids.len() && ids[k2] == t;
        assert(!e[k2].spec_dependencies().satisfied_by(completed));
        e[k2].spec_dependencies().lemma_satisfied_iff_subset(completed);
        assert(dm[t] == e[k2].spec_dependencies().id_set());
        let d = choose|d: TaskId| dm[t].contains(d) && !completed.contains(d);
        assert(dm.dom().contains(d));
        assert(u.contains(d));
        assert(dm[t].contains(d) && u.contains(d));
    }
    assert(self_supporting(dm, u)) by {
        reveal(self_supporting);
    }
    // and every self-waiting set lies inside it
    assert forall|ss: Set<TaskId>| #[trigger] self_supporting(dm, ss) implies ss.subset_of(u) by {
        assert(ss.disjoint(completed));
        lemma_self_supporting_subset(dm, ss);
        assert forall|t: TaskId| ss.contains(t) implies u.contains(t) by {
            assert(dm.dom().contains(t));
            assert(!completed.contains(t));
        }
    }
    assert(cycle_report_ok(dm, remaining));
}

/// Appending a freshly collected step to a valid step sequence keeps every
/// leveling clause and extends the placed prefix by exactly that step.
#[verifier::spinoff_prover]
pub(crate) proof fn lemma_push_step<C>(
    dm: Map<TaskId, Set<TaskId>>,
    e: Seq<Task<C>>,
    old_steps: Seq<Step>,
    stp: Step,
    news: Seq<Step>,
    comp0: Set<TaskId>,
    completed: Set<TaskId>,
    ready: Seq<usize>,
)
    requires
        distinct_ids(e),
        dm.dom() == id_seq_of(e).to_set(),
        forall|k: int|
            0 <= k < e.len() ==> dm.dom().contains(#[trigger] id_seq_of(e)[k]) && dm[id_seq_of(
                e,
            )[k]] == e[k].spec_dependencies().id_set(),
        news == old_steps.push(stp),
        stp.tasks@.len() == ready.len(),
        ready.len() > 0,
        forall|y: int| 0 <= y < ready.len() ==> stp.tasks@[y] == id_seq_of(e)[ready[y] as int],
        stp.tasks@.no_duplicates(),
        forall|x: int|
            0 <= x < ready.len() ==> (#[trigger] ready[x]) < e.len() && !comp0.contains(
                id_seq_of(e)[ready[x] as int],
            ) && e[ready[x] as int].spec_dependencies().satisfied_by(comp0),
        forall|k2: int|
            0 <= k2 < e.len() && !comp0.contains(id_seq_of(e)[k2])
                && e[k2].spec_dependencies().satisfied_by(comp0) ==> exists|x: int|
                0 <= x < ready.len() && ready[x] == k2,
        comp0 == steps_prefix_ids(old_steps, old_steps.len() as int),
        completed == comp0.union(stp.tasks@.to_set()),
        forall|i: int| 0 <= i < old_steps.len() ==> (#[trigger] old_steps[i].tasks@).len() > 0,
        forall|i: int|
            0 <= i < old_steps.len() ==> (#[trigger] old_steps[i].tasks@).no_duplicates(),
        forall|i: int, t: TaskId|
            0 <= i < old_steps.len() && #[trigger] old_steps[i].tasks@.contains(t)
                ==> dm.dom().contains(t) && !steps_prefix_ids(old_steps, i).contains(t)
                && dm[t].subset_of(steps_prefix_ids(old_steps, i)),
        forall|i: int, t: TaskId|
            #![trigger steps_prefix_ids(old_steps, i), dm[t]]
            0 <= i < old_steps.len() && dm.dom().contains(t) && !steps_prefix_ids(
                old_steps,
                i,
            ).contains(t) && dm[t].subset_of(steps_prefix_ids(old_steps, i)) ==> old_steps[
            i].tasks@.contains(t),
    ensures
        completed == steps_prefix_ids(news, news.len() as int),
        forall|i: int| 0 <= i < news.len() ==> (#[trigger] news[i].tasks@).len() > 0,
        forall|i: int| 0 <= i < news.len() ==> (#[trigger] news[i].tasks@).no_duplicates(),
        forall|i: int, t: TaskId|
            0 <= i < news.len() && #[trigger] news[i].tasks@.contains(t) ==> dm.dom().contains(t)
                && !steps_prefix_ids(news, i).contains(t) && dm[t].subset_of(
                steps_prefix_ids(news, i),
            ),
        forall|i: int, t: TaskId|
            #![trigger steps_prefix_ids(news, i), dm[t]]
            0 <= i < news.len() && dm.dom().contains(t) && !steps_prefix_ids(news, i).contains(t)
                && dm[t].subset_of(steps_prefix_ids(news, i)) ==> news[i].tasks@.contains(t),
{
    let ids = id_seq_of(e);
    let big = old_steps.len() as int;
    assert(news.len() == big + 1);
    assert(news[big] == stp);
    assert forall|i: int| 0 <= i <= big implies steps_prefix_ids(news, i) == steps_prefix_ids(
        old_steps,
        i,
    ) by {
        lemma_steps_prefix_push(old_steps, stp, i);
    }
    assert(steps_prefix_ids(news, big) == comp0);
    assert(steps_prefix_ids(news, big + 1) =~= completed);
    assert forall|i: int|
        0 <= i < news.len() implies (#[trigger] news[i].tasks@).len() > 0
        && news[i].tasks@.no_duplicates() by {
        if i < big {
            assert(news[i] == old_steps[i]);
            assert(old_steps[i].tasks@.len() > 0);
            assert(old_steps[i].tasks@.no_duplicates());
        }
    }
    assert forall|i: int, t: TaskId|
        0 <= i < news.len() && #[trigger] news[i].tasks@.contains(t) implies dm.dom().contains(t)
        && !steps_prefix_ids(news, i).contains(t) && dm[t].subset_of(
        steps_prefix_ids(news, i),
    ) by {
        if i < big {
            assert(news[i] == old_steps[i]);
            assert(old_steps[i].tasks@.contains(t));
        } else {
            let y = choose|y: int| 0 <= y < stp.tasks@.len() && stp.tasks@[y] == t;
            let ky = ready[y] as int;
            assert(t == ids[ky]);
            assert(!comp0.contains(t));
            assert(e[ky].spec_dependencies().satisfied_by(comp0));
            e[ky].spec_dependencies().lemma_satisfied_iff_subset(comp0);
            assert(dm[t] == e[ky].spec_dependencies().id_set());
        }
    }
    assert forall|i: int, t: TaskId|
        #![trigger steps_prefix_ids(news, i), dm[t]]
        0 <= i < news.len() && dm.dom().contains(t) && !steps_prefix_ids(news, i).contains(t)
            && dm[t].subset_of(steps_prefix_ids(news, i)) implies news[i].tasks@.contains(t) by {
        if i < big {
            assert(steps_prefix_ids(old_steps, i) == steps_prefix_ids(news, i));
            assert(old_steps[i].tasks@.contains(t));
            assert(news[i] == old_steps[i]);
        } else {
            assert(ids.to_set().contains(t));
            assert(ids.contains(t));
            let k2 = choose|k2: int| 0 <= k2 < ids.len() && ids[k2] == t;
            assert(!comp0.contains(t));
            assert(dm[t] == e[k2].spec_dependencies().id_set());
            e[k2].spec_dependencies().lemma_satisfied_iff_subset(comp0);
            assert(e[k2].spec_dependencies().satisfied_by(comp0));
            let x = choose|x: int| 0 <= x < ready.len() && ready[x] == k2;
            assert(stp.tasks@[x] == t);
            assert(stp.tasks@.contains(t));
        }
    }
}


} // verus!
