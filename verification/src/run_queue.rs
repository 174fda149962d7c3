//! Dependency bookkeeping of one execution of an executor: which systems are queued,
//! which are running, and how many of each system's dependencies are yet to finish.
use vstd::prelude::*;
use crate::dependency::{
    count_in, edges_ascend, pending, lemma_count_in_append, lemma_count_in_push,
    lemma_pending_mark_done, lemma_pending_same_below, lemma_pending_zero,
    lemma_pending_zero_when_earlier_done,
};
use crate::queue_order::{
    Queued, descending, lemma_sort_by_dependants, sort_by_dependants, sort_by_dependants_desc,
};
use crate::system_id::{DependantsLength, SystemId};

verus! {

/// The ids of a sequence of queued entries.
pub open spec fn ids_of(q: Seq<Queued>) -> Seq<SystemId> {
    q.map_values(|e: Queued| e.0)
}

/// `q` without the entries whose id is in `removed`, in order.
pub open spec fn without_ids(q: Seq<Queued>, removed: Seq<SystemId>) -> Seq<Queued>
    decreases q.len(),
{
    if q.len() == 0 {
        q
    } else if removed.contains(q.last().0) {
        without_ids(q.drop_last(), removed)
    } else {
        without_ids(q.drop_last(), removed).push(q.last())
    }
}

/// All dependants of the systems in `ids`, in order, one entry per dependency edge.
pub open spec fn gathered(dependants: Seq<Seq<SystemId>>, ids: Seq<SystemId>) -> Seq<SystemId>
    decreases ids.len(),
{
    if ids.len() == 0 {
        Seq::empty()
    } else {
        gathered(dependants, ids.drop_last()) + dependants[ids.last().0 as int]
    }
}

/// The indices of the systems in `ids`.
pub open spec fn index_set(ids: Seq<SystemId>) -> Set<int> {
    Set::new(|i: int| exists|k: int| 0 <= k < ids.len() && ids[k].0 == i)
}

/// The indices `0..n`.
pub open spec fn all_indices(n: int) -> Set<int> {
    Set::new(|i: int| 0 <= i < n)
}

/// Whether `v` holds `x`.
pub fn contains_id(v: &Vec<SystemId>, x: SystemId) -> (r: bool)
    ensures
        r == v@.contains(x),
{
    let mut i: usize = 0;
    while i < v.len()
        invariant
            0 <= i <= v@.len(),
            forall|j: int| 0 <= j < i ==> v@[j] != x,
        decreases v@.len() - i,
    {
        if v[i].0 == x.0 {
            proof {
                assert(v@[i as int] == x);
            }
            return true;
        }
        i = i + 1;
    }
    false
}

pub proof fn lemma_ids_of(q: Seq<Queued>)
    ensures
        ids_of(q).len() == q.len(),
        forall|k: int| 0 <= k < q.len() ==> #[trigger] ids_of(q)[k] == q[k].0,
        forall|x: SystemId| #[trigger] ids_of(q).contains(x) <==> exists|k: int| 0 <= k < q.len() && q[k].0 == x,
{
    assert forall|x: SystemId| #[trigger] ids_of(q).contains(x) implies exists|k: int| 0 <= k < q.len() && q[k].0 == x by {
        let k = choose|k: int| 0 <= k < ids_of(q).len() && ids_of(q)[k] == x;
        assert(q[k].0 == x);
    }
    assert forall|x: SystemId| (exists|k: int| 0 <= k < q.len() && q[k].0 == x) implies #[trigger] ids_of(q).contains(x) by {
        let k = choose|k: int| 0 <= k < q.len() && q[k].0 == x;
        assert(ids_of(q)[k] == x);
    }
}

/// Filtering keeps exactly the entries whose id is not removed, in order.
pub proof fn lemma_without_ids(q: Seq<Queued>, removed: Seq<SystemId>)
    ensures
        forall|e: Queued| #[trigger] without_ids(q, removed).contains(e) <==> (q.contains(e) && !removed.contains(e.0)),
        ids_of(q).no_duplicates() ==> ids_of(without_ids(q, removed)).no_duplicates(),
        without_ids(q, removed).len() <= q.len(),
    decreases q.len(),
{
    if q.len() > 0 {
        let d = q.drop_last();
        lemma_without_ids(d, removed);
        let w = without_ids(d, removed);
        lemma_ids_of(q);
        lemma_ids_of(d);
        lemma_ids_of(w);
        assert forall|e: Queued| #[trigger] q.contains(e) <==> (d.contains(e) || e == q.last()) by {
            if q.contains(e) {
                let j = choose|j: int| 0 <= j < q.len() && q[j] == e;
                if j < q.len() - 1 {
                    assert(d[j] == e);
                }
            }
            if d.contains(e) {
                let j = choose|j: int| 0 <= j < d.len() && d[j] == e;
                assert(q[j] == e);
            }
        }
        if !removed.contains(q.last().0) {
            let r = w.push(q.last());
            lemma_ids_of(r);
            assert forall|e: Queued| #[trigger] r.contains(e) <==> (w.contains(e) || e == q.last()) by {
                if r.contains(e) {
                    let j = choose|j: int| 0 <= j < r.len() && r[j] == e;
                    if j < w.len() {
                        assert(w[j] == e);
                    }
                }
                if w.contains(e) {
                    let j = choose|j: int| 0 <= j < w.len() && w[j] == e;
                    assert(r[j] == e);
                }
                if e == q.last() {
                    assert(r[w.len() as int] == e);
                }
            }
            if ids_of(q).no_duplicates() {
                assert(ids_of(d).no_duplicates()) by {
                    assert forall|i: int, j: int| 0 <= i < j < ids_of(d).len() implies ids_of(d)[i] != ids_of(d)[j] by {
                        assert(ids_of(q)[i] == ids_of(d)[i]);
                        assert(ids_of(q)[j] == ids_of(d)[j]);
                    }
                }
                assert forall|i: int, j: int| 0 <= i < j < ids_of(r).len() implies ids_of(r)[i] != ids_of(r)[j] by {
                    if j == w.len() {
                        let wi = w[i];
                        assert(r[i] == wi);
                        assert(w.contains(wi));
                        assert(d.contains(wi));
                        let k = choose|k: int| 0 <= k < d.len() && d[k] == wi;
                        assert(ids_of(q)[k] == wi.0);
                        assert(ids_of(q)[q.len() - 1] == q.last().0);
                        assert(ids_of(r)[j] == q.last().0);
                        assert(ids_of(r)[i] == wi.0);
                    } else {
                        assert(ids_of(r)[i] == ids_of(w)[i]);
                        assert(ids_of(r)[j] == ids_of(w)[j]);
                    }
                }
            }
        } else {
            if ids_of(q).no_duplicates() {
                assert(ids_of(d).no_duplicates()) by {
                    assert forall|i: int, j: int| 0 <= i < j < ids_of(d).len() implies ids_of(d)[i] != ids_of(d)[j] by {
                        assert(ids_of(q)[i] == ids_of(d)[i]);
                        assert(ids_of(q)[j] == ids_of(d)[j]);
                    }
                }
            }
        }
    }
}

/// Removes `x` from `v`, which holds it once.
fn remove_id(v: &mut Vec<SystemId>, x: SystemId)
    requires
        old(v)@.contains(x),
        old(v)@.no_duplicates(),
    ensures
        final(v)@.no_duplicates(),
        final(v)@.len() == old(v)@.len() - 1,
        forall|y: SystemId| #[trigger] final(v)@.contains(y) <==> (old(v)@.contains(y) && y != x),
{
    let ghost v0 = v@;
    let mut p: usize = 0;
    while p < v.len() && v[p].0 != x.0
        invariant
            0 <= p <= v@.len(),
            v@ == v0,
            forall|j: int| 0 <= j < p ==> v@[j] != x,
        decreases v@.len() - p,
    {
        p = p + 1;
    }
    proof {
        if p == v@.len() {
            let j = choose|j: int| 0 <= j < v0.len() && v0[j] == x;
            assert(false);
        }
        assert(v@[p as int] == x);
    }
    v.remove(p);
    proof {
        let r = v@;
        assert(r == v0.remove(p as int));
        assert forall|y: SystemId| #[trigger] r.contains(y) <==> (v0.contains(y) && y != x) by {
            if r.contains(y) {
                let k = choose|k: int| 0 <= k < r.len() && r[k] == y;
                let k0 = if k < p { k } else { k + 1 };
                assert(v0[k0] == y);
                assert(k0 != p);
            }
            if v0.contains(y) && y != x {
                let k = choose|k: int| 0 <= k < v0.len() && v0[k] == y;
                assert(k != p);
                if k < p {
                    assert(r[k] == y);
                } else {
                    assert(r[k - 1] == y);
                }
            }
        }
        assert forall|a: int, b: int| 0 <= a < b < r.len() implies r[a] != r[b] by {
            let a0 = if a < p { a } else { a + 1 };
            let b0 = if b < p { b } else { b + 1 };
            assert(v0[a0] == r[a]);
            assert(v0[b0] == r[b]);
        }
    }
}

/// Appends the elements of `src` to `dst`.
fn append_ids(dst: &mut Vec<SystemId>, src: &Vec<SystemId>)
    ensures
        final(dst)@ == old(dst)@ + src@,
{
    let ghost d0 = dst@;
    let mut i: usize = 0;
    while i < src.len()
        invariant
            0 <= i <= src@.len(),
            dst@ == d0 + src@.take(i as int),
        decreases src@.len() - i,
    {
        dst.push(src[i]);
        proof {
            assert(src@.take(i + 1) == src@.take(i as int).push(src@[i as int]));
        }
        i = i + 1;
    }
    proof {
        assert(src@.take(i as int) == src@);
    }
}

/// A copy of a sequence of queued entries.
fn copy_queue(q: &Vec<Queued>) -> (r: Vec<Queued>)
    ensures
        r@ == q@,
{
    let mut r: Vec<Queued> = Vec::new();
    let mut i: usize = 0;
    while i < q.len()
        invariant
            0 <= i <= q@.len(),
            r@ == q@.take(i as int),
        decreases q@.len() - i,
    {
        r.push(q[i]);
        proof {
            assert(q@.take(i + 1) == q@.take(i as int).push(q@[i as int]));
        }
        i = i + 1;
    }
    proof {
        assert(q@.take(i as int) == q@);
    }
    r
}

/// What the decrements of one `process_finished` call do, in order: the counters after
/// them, and the systems whose counter reached zero, in the order they reached it.
pub open spec fn release_all(counters: Seq<usize>, decrements: Seq<SystemId>) -> (Seq<usize>, Seq<SystemId>)
    decreases decrements.len(),
{
    if decrements.len() == 0 {
        (counters, Seq::empty())
    } else {
        let (u, released) = release_all(counters, decrements.drop_last());
        let x = decrements.last().0 as int;
        let v = (u[x] - 1) as usize;
        let u2 = u.update(x, v);
        if v == 0 {
            (u2, released.push(decrements.last()))
        } else {
            (u2, released)
        }
    }
}

/// The decrements never go below zero when every counter covers its decrements; then each
/// counter drops by its number of decrements, and a system is released (once) exactly when
/// it had decrements and its counter reached zero.
pub proof fn lemma_release_all(u: Seq<usize>, d: Seq<SystemId>)
    requires
        u.len() <= usize::MAX,
        forall|j: int| 0 <= j < d.len() ==> (#[trigger] d[j]).0 < u.len(),
        forall|x: int| 0 <= x < u.len() ==> #[trigger] u[x] >= count_in(d, SystemId(x as usize)),
    ensures
        ({
            let (c, rel) = release_all(u, d);
            &&& c.len() == u.len()
            &&& forall|x: int| 0 <= x < u.len() ==> #[trigger] c[x] == u[x] - count_in(d, SystemId(x as usize))
            &&& rel.no_duplicates()
            &&& forall|y: SystemId| #[trigger] rel.contains(y) <==> (y.0 < u.len() && count_in(d, y) > 0 && c[y.0 as int] == 0)
        }),
    decreases d.len(),
{
    if d.len() > 0 {
        let d1 = d.drop_last();
        let z = d.last();
        assert(d == d1.push(z));
        assert forall|j: int| 0 <= j < d1.len() implies (#[trigger] d1[j]).0 < u.len() by {
            assert(d[j] == d1[j]);
        }
        assert forall|x: int| 0 <= x < u.len() implies #[trigger] u[x] >= count_in(d1, SystemId(x as usize)) by {
            lemma_count_in_push(d1, z, SystemId(x as usize));
        }
        lemma_release_all(u, d1);
        let (c1, rel1) = release_all(u, d1);
        let x = z.0 as int;
        assert(z == SystemId(z.0));
        lemma_count_in_push(d1, z, z);
        let v = (c1[x] - 1) as usize;
        let (c, rel) = release_all(u, d);
        assert forall|y: int| 0 <= y < u.len() implies #[trigger] c[y] == u[y] - count_in(d, SystemId(y as usize)) by {
            lemma_count_in_push(d1, z, SystemId(y as usize));
            if y == x {
                assert(SystemId(y as usize) == z);
            } else {
                assert(SystemId(y as usize) != z);
            }
        }
        assert forall|y: SystemId| #[trigger] rel.contains(y) <==> (y.0 < u.len() && count_in(d, y) > 0 && c[y.0 as int] == 0) by {
            lemma_count_in_push(d1, z, y);
            if v == 0 {
                if rel.contains(y) && y != z {
                    let k = choose|k: int| 0 <= k < rel.len() && rel[k] == y;
                    assert(rel1[k] == y);
                }
                if rel1.contains(y) {
                    let k = choose|k: int| 0 <= k < rel1.len() && rel1[k] == y;
                    assert(rel[k] == y);
                }
                if y == z {
                    assert(rel[rel1.len() as int] == y);
                }
            }
        }
        if v == 0 {
            assert(!rel1.contains(z));
            assert forall|a: int, b: int| 0 <= a < b < rel.len() implies rel[a] != rel[b] by {
                if b == rel1.len() {
                    assert(rel1[a] == rel[a]);
                    assert(rel1.contains(rel[a]));
                } else {
                    assert(rel1[a] == rel[a]);
                    assert(rel1[b] == rel[b]);
                }
            }
        }
    }
}

/// Every gathered dependant is a valid system.
pub proof fn lemma_gathered_bounded(dependants: Seq<Seq<SystemId>>, ids: Seq<SystemId>)
    requires
        edges_ascend(dependants),
        forall|k: int| 0 <= k < ids.len() ==> (#[trigger] ids[k]).0 < dependants.len(),
    ensures
        forall|j: int| 0 <= j < gathered(dependants, ids).len() ==> (#[trigger] gathered(dependants, ids)[j]).0 < dependants.len(),
    decreases ids.len(),
{
    if ids.len() > 0 {
        let d = ids.drop_last();
        assert forall|k: int| 0 <= k < d.len() implies (#[trigger] d[k]).0 < dependants.len() by {
            assert(ids[k] == d[k]);
        }
        lemma_gathered_bounded(dependants, d);
        let g = gathered(dependants, ids);
        let g1 = gathered(dependants, d);
        let last = dependants[ids.last().0 as int];
        assert forall|j: int| 0 <= j < g.len() implies (#[trigger] g[j]).0 < dependants.len() by {
            if j < g1.len() {
                assert(g[j] == g1[j]);
            } else {
                assert(g[j] == last[j - g1.len()]);
                assert(ids[ids.len() - 1].0 < dependants.len());
            }
        }
    }
}

/// Queue entries for `ids`, each with its number of dependants.
pub open spec fn entries_for(dependants: Seq<Seq<SystemId>>, ids: Seq<SystemId>) -> Seq<Queued> {
    ids.map_values(|x: SystemId| (x, DependantsLength(dependants[x.0 as int].len() as usize)))
}

pub proof fn lemma_index_set_push(s: Seq<SystemId>, y: SystemId)
    ensures
        index_set(s.push(y)) == index_set(s).insert(y.0 as int),
{
    assert forall|i: int| index_set(s.push(y)).contains(i) <==> index_set(s).insert(y.0 as int).contains(i) by {
        if index_set(s.push(y)).contains(i) {
            let k = choose|k: int| 0 <= k < s.push(y).len() && s.push(y)[k].0 == i;
            if k < s.len() {
                assert(s[k].0 == i);
            }
        }
        if index_set(s).contains(i) {
            let k = choose|k: int| 0 <= k < s.len() && s[k].0 == i;
            assert(s.push(y)[k].0 == i);
        }
        if i == y.0 {
            assert(s.push(y)[s.len() as int].0 == i);
        }
    }
    assert(index_set(s.push(y)) =~= index_set(s).insert(y.0 as int));
}

/// Finishing the systems `ids` (distinct, none finished before) removes exactly their
/// edges into `x` from the pending count.
pub proof fn lemma_pending_finish_all(
    dependants: Seq<Seq<SystemId>>,
    x: SystemId,
    done: Set<int>,
    ids: Seq<SystemId>,
)
    requires
        ids.no_duplicates(),
        forall|k: int| 0 <= k < ids.len() ==> (#[trigger] ids[k]).0 < dependants.len() && !done.contains(ids[k].0 as int),
    ensures
        pending(dependants, x, done, dependants.len() as int) == pending(
            dependants,
            x,
            done.union(index_set(ids)),
            dependants.len() as int,
        ) + count_in(gathered(dependants, ids), x),
    decreases ids.len(),
{
    let n = dependants.len() as int;
    if ids.len() == 0 {
        assert(done.union(index_set(ids)) =~= done);
    } else {
        let d = ids.drop_last();
        let j = ids.last();
        assert(d.no_duplicates()) by {
            assert forall|a: int, b: int| 0 <= a < b < d.len() implies d[a] != d[b] by {
                assert(ids[a] == d[a]);
                assert(ids[b] == d[b]);
            }
        }
        assert forall|k: int| 0 <= k < d.len() implies (#[trigger] d[k]).0 < dependants.len() && !done.contains(d[k].0 as int) by {
            assert(ids[k] == d[k]);
        }
        lemma_pending_finish_all(dependants, x, done, d);
        assert(ids == d.push(j));
        lemma_index_set_push(d, j);
        let before = done.union(index_set(d));
        assert(!before.contains(j.0 as int)) by {
            if index_set(d).contains(j.0 as int) {
                let k = choose|k: int| 0 <= k < d.len() && d[k].0 == j.0 as int;
                assert(ids[k] == d[k]);
                assert(ids[ids.len() - 1] == j);
                assert(d[k] == j);
            }
            assert(ids[ids.len() - 1] == j);
        }
        lemma_pending_mark_done(dependants, x, before, n, j.0 as int);
        assert(before.insert(j.0 as int) =~= done.union(index_set(ids)));
        lemma_count_in_append(gathered(dependants, d), dependants[j.0 as int], x);
    }
}

/// With cached lengths that depend only on the id, entries repeat exactly when ids repeat.
pub proof fn lemma_entries_ids_nodup(q: Seq<Queued>, dependants: Seq<Seq<SystemId>>)
    requires
        forall|k: int| 0 <= k < q.len() ==> (#[trigger] q[k]).1.0 == dependants[q[k].0.0 as int].len(),
    ensures
        q.no_duplicates() <==> ids_of(q).no_duplicates(),
{
    lemma_ids_of(q);
    if q.no_duplicates() {
        assert forall|a: int, b: int| 0 <= a < b < q.len() implies ids_of(q)[a] != ids_of(q)[b] by {
            if q[a].0 == q[b].0 {
                assert(q[a] == q[b]);
            }
        }
    }
    if ids_of(q).no_duplicates() {
        assert forall|a: int, b: int| 0 <= a < b < q.len() implies q[a] != q[b] by {
            assert(ids_of(q)[a] != ids_of(q)[b]);
        }
    }
}

/// Dependency bookkeeping for the systems `0..n` of an executor.
///
/// Between executions every system counts as finished. An execution starts with
/// [`RunQueue::reset`], which queues the systems without dependencies; systems then move
/// from waiting to queued (once their last dependency finishes), from queued to running
/// ([`RunQueue::start`]), and from running to finished ([`RunQueue::process_finished`]).
pub struct RunQueue {
    dependants: Vec<Vec<SystemId>>,
    dependencies: Vec<usize>,
    unsatisfied_dependencies: Vec<usize>,
    systems_without_dependencies: Vec<Queued>,
    systems_to_run_now: Vec<Queued>,
    systems_running: Vec<SystemId>,
    finished: Ghost<Set<int>>,
}

impl RunQueue {
    /// Number of systems.
    pub closed spec fn n(&self) -> nat {
        self.dependants@.len()
    }

    /// For each system, the systems that depend on it.
    pub closed spec fn dependants_view(&self) -> Seq<Seq<SystemId>> {
        Seq::new(self.dependants@.len(), |i: int| self.dependants@[i]@)
    }

    /// For each system, the number of its dependencies.
    pub closed spec fn dependencies_view(&self) -> Seq<usize> {
        self.dependencies@
    }

    /// For each system, the number of its dependencies that have not finished in this run.
    pub closed spec fn unsatisfied_view(&self) -> Seq<usize> {
        self.unsatisfied_dependencies@
    }

    /// Systems queued to start, in the order they will be considered.
    pub closed spec fn queue_view(&self) -> Seq<Queued> {
        self.systems_to_run_now@
    }

    /// Systems without dependencies, queued first in every run.
    pub closed spec fn initial_view(&self) -> Seq<Queued> {
        self.systems_without_dependencies@
    }

    /// Systems currently running.
    pub closed spec fn running_view(&self) -> Seq<SystemId> {
        self.systems_running@
    }

    /// Systems that have finished in this run (every system between runs).
    pub closed spec fn finished_view(&self) -> Set<int> {
        self.finished@
    }

    /// Whether the number of dependants cached with a queued entry is right.
    pub open spec fn entry_ok(&self, e: Queued) -> bool {
        &&& e.0.0 < self.n()
        &&& e.1.0 == self.dependants_view()[e.0.0 as int].len()
    }

    /// The graph the bookkeeping was made for: ascending edges, matching dependency
    /// counts, and the list of systems without dependencies.
    pub open spec fn graph_wf(&self) -> bool {
        let deps = self.dependants_view();
        let n = self.n() as int;
        &&& edges_ascend(deps)
        &&& n <= usize::MAX
        &&& self.dependencies_view().len() == n
        &&& self.unsatisfied_view().len() == n
        &&& forall|x: int| 0 <= x < n ==> #[trigger] self.dependencies_view()[x] == pending(
            deps,
            SystemId(x as usize),
            Set::empty(),
            n,
        )
        &&& self.initial_view().no_duplicates()
        &&& forall|k: int|
            0 <= k < self.initial_view().len() ==> self.entry_ok(#[trigger] self.initial_view()[k])
                && self.dependencies_view()[self.initial_view()[k].0.0 as int] == 0
        &&& forall|x: int|
            0 <= x < n && #[trigger] self.dependencies_view()[x] == 0 ==> self.initial_view().contains(
                (SystemId(x as usize), DependantsLength(self.dependants_view()[x].len() as usize)),
            )
    }

    /// The state of a run: counters match the finished set, and every system is in exactly
    /// one of waiting (unsatisfied dependencies), queued, running or finished.
    pub open spec fn state_wf(&self) -> bool {
        let deps = self.dependants_view();
        let n = self.n() as int;
        let q = ids_of(self.queue_view());
        let r = self.running_view();
        let f = self.finished_view();
        &&& forall|x: int| 0 <= x < n ==> #[trigger] self.unsatisfied_view()[x] == pending(
            deps,
            SystemId(x as usize),
            f,
            n,
        )
        &&& q.no_duplicates()
        &&& r.no_duplicates()
        &&& forall|k: int|
            0 <= k < self.queue_view().len() ==> self.entry_ok(#[trigger] self.queue_view()[k])
        &&& forall|k: int| 0 <= k < r.len() ==> (#[trigger] r[k]).0 < n
        &&& forall|i: int| #[trigger] f.contains(i) ==> 0 <= i < n
        &&& forall|x: SystemId| #[trigger] q.contains(x) ==> !r.contains(x) && !f.contains(x.0 as int)
        &&& forall|x: SystemId| #[trigger] r.contains(x) ==> !f.contains(x.0 as int)
        &&& forall|x: int|
            0 <= x < n ==> (#[trigger] self.unsatisfied_view()[x] == 0 <==> (q.contains(
                SystemId(x as usize),
            ) || r.contains(SystemId(x as usize)) || f.contains(x)))
    }

    pub open spec fn wf(&self) -> bool {
        self.graph_wf() && self.state_wf()
    }

    /// Whether the run is over: nothing queued, nothing running.
    pub open spec fn idle(&self) -> bool {
        self.queue_view().len() == 0 && self.running_view().len() == 0
    }

    /// Bookkeeping between runs for a graph given by its dependants lists, dependency
    /// counts and systems without dependencies; every system counts as finished.
    pub fn new(
        dependants: Vec<Vec<SystemId>>,
        dependencies: Vec<usize>,
        systems_without_dependencies: Vec<Queued>,
    ) -> (r: Self)
        requires
            dependencies@.len() == dependants@.len(),
            edges_ascend(Seq::new(dependants@.len(), |i: int| dependants@[i]@)),
            forall|x: int|
                0 <= x < dependants@.len() ==> #[trigger] dependencies@[x] == pending(
                    Seq::new(dependants@.len(), |i: int| dependants@[i]@),
                    SystemId(x as usize),
                    Set::empty(),
                    dependants@.len() as int,
                ),
            systems_without_dependencies@.no_duplicates(),
            forall|k: int|
                0 <= k < systems_without_dependencies@.len() ==> {
                    let e = #[trigger] systems_without_dependencies@[k];
                    &&& e.0.0 < dependants@.len()
                    &&& e.1.0 == dependants@[e.0.0 as int]@.len()
                    &&& dependencies@[e.0.0 as int] == 0
                },
            forall|x: int|
                0 <= x < dependants@.len() && #[trigger] dependencies@[x] == 0
                    ==> systems_without_dependencies@.contains(
                    (SystemId(x as usize), DependantsLength(dependants@[x]@.len() as usize)),
                ),
        ensures
            r.wf(),
            r.idle(),
            r.n() == dependants@.len(),
            r.dependants_view() == Seq::new(dependants@.len(), |i: int| dependants@[i]@),
            r.dependencies_view() == dependencies@,
            r.initial_view() == systems_without_dependencies@,
            r.finished_view() == all_indices(dependants@.len() as int),
            forall|x: int| 0 <= x < r.n() ==> #[trigger] r.unsatisfied_view()[x] == 0,
    {
        let n = dependants.len();
        let mut unsatisfied: Vec<usize> = Vec::new();
        let mut i: usize = 0;
        while i < n
            invariant
                0 <= i <= n,
                unsatisfied@.len() == i,
                forall|x: int| 0 <= x < i ==> #[trigger] unsatisfied@[x] == 0,
            decreases n - i,
        {
            unsatisfied.push(0);
            i = i + 1;
        }
        let r = RunQueue {
            dependants,
            dependencies,
            unsatisfied_dependencies: unsatisfied,
            systems_without_dependencies,
            systems_to_run_now: Vec::new(),
            systems_running: Vec::new(),
            finished: Ghost(all_indices(n as int)),
        };
        proof {
            let deps = r.dependants_view();
            assert(deps == Seq::new(r.dependants@.len(), |i: int| r.dependants@[i]@));
            assert forall|x: int| 0 <= x < n implies #[trigger] r.unsatisfied_view()[x] == pending(
                deps,
                SystemId(x as usize),
                r.finished@,
                n as int,
            ) by {
                lemma_pending_zero(deps, SystemId(x as usize), r.finished@, n as int);
            }
            assert(ids_of(r.queue_view()) =~= Seq::<SystemId>::empty());
        }
        r
    }

    /// Starts a run: every system waits for all its dependencies again, and the systems
    /// without dependencies are queued.
    pub fn reset(&mut self)
        requires
            old(self).wf(),
            old(self).idle(),
        ensures
            final(self).wf(),
            final(self).n() == old(self).n(),
            final(self).dependants_view() == old(self).dependants_view(),
            final(self).dependencies_view() == old(self).dependencies_view(),
            final(self).initial_view() == old(self).initial_view(),
            final(self).unsatisfied_view() == old(self).dependencies_view(),
            final(self).queue_view() == old(self).initial_view(),
            final(self).running_view().len() == 0,
            final(self).finished_view() == Set::<int>::empty(),
    {
        proof {
            self.lemma_idle_means_all_finished();
        }
        self.systems_to_run_now = copy_queue(&self.systems_without_dependencies);
        self.unsatisfied_dependencies = self.dependencies.clone();
        self.finished = Ghost(Set::empty());
        proof {
            let n = self.n() as int;
            let q = ids_of(self.queue_view());
            assert forall|x: int|
                0 <= x < n implies (#[trigger] self.unsatisfied_view()[x] == 0 <==> (q.contains(
                SystemId(x as usize),
            ) || self.running_view().contains(SystemId(x as usize)) || self.finished@.contains(x))) by {
                if self.unsatisfied_view()[x] == 0 {
                    let e = (SystemId(x as usize), DependantsLength(self.dependants_view()[x].len() as usize));
                    assert(self.initial_view().contains(e));
                    let k = choose|k: int| 0 <= k < self.initial_view().len() && self.initial_view()[k] == e;
                    assert(q[k] == SystemId(x as usize));
                }
                if q.contains(SystemId(x as usize)) {
                    let k = choose|k: int| 0 <= k < q.len() && q[k] == SystemId(x as usize);
                    assert(self.entry_ok(self.initial_view()[k]));
                }
            }
            assert forall|i: int, j: int| 0 <= i < q.len() && 0 <= j < q.len() && i != j implies q[i] != q[j] by {
                let a = self.initial_view()[i];
                let b = self.initial_view()[j];
                assert(self.entry_ok(a));
                assert(self.entry_ok(b));
            }
        }
    }

    /// Moves the systems in `started` (each queued, none twice) from the queue to the
    /// running set, keeping the order of the rest of the queue.
    pub fn start(&mut self, started: &Vec<SystemId>)
        requires
            old(self).wf(),
            started@.no_duplicates(),
            forall|k: int| 0 <= k < started@.len() ==> ids_of(old(self).queue_view()).contains(#[trigger] started@[k]),
        ensures
            final(self).wf(),
            final(self).n() == old(self).n(),
            final(self).dependants_view() == old(self).dependants_view(),
            final(self).dependencies_view() == old(self).dependencies_view(),
            final(self).initial_view() == old(self).initial_view(),
            final(self).unsatisfied_view() == old(self).unsatisfied_view(),
            final(self).finished_view() == old(self).finished_view(),
            final(self).running_view() == old(self).running_view() + started@,
            final(self).queue_view() == without_ids(old(self).queue_view(), started@),
    {
        let ghost q0 = self.systems_to_run_now@;
        let mut kept: Vec<Queued> = Vec::new();
        let mut i: usize = 0;
        while i < self.systems_to_run_now.len()
            invariant
                0 <= i <= q0.len(),
                self.systems_to_run_now@ == q0,
                kept@ == without_ids(q0.take(i as int), started@),
            decreases q0.len() - i,
        {
            let e = self.systems_to_run_now[i];
            proof {
                assert(q0.take(i + 1).drop_last() == q0.take(i as int));
                assert(q0.take(i + 1).last() == e);
            }
            if !contains_id(started, e.0) {
                kept.push(e);
            }
            i = i + 1;
        }
        proof {
            assert(q0.take(i as int) == q0);
        }
        self.systems_to_run_now = kept;
        let ghost r0 = self.systems_running@;
        let mut running: Vec<SystemId> = Vec::new();
        std::mem::swap(&mut running, &mut self.systems_running);
        let mut j: usize = 0;
        while j < started.len()
            invariant
                0 <= j <= started@.len(),
                running@ == r0 + started@.take(j as int),
            decreases started@.len() - j,
        {
            running.push(started[j]);
            proof {
                assert(started@.take(j + 1) == started@.take(j as int).push(started@[j as int]));
            }
            j = j + 1;
        }
        self.systems_running = running;
        proof {
            assert(started@.take(j as int) == started@);
            let q = ids_of(self.systems_to_run_now@);
            let r = self.systems_running@;
            let f = self.finished@;
            let n = self.n() as int;
            lemma_without_ids(q0, started@);
            lemma_ids_of(q0);
            lemma_ids_of(self.systems_to_run_now@);
            assert forall|x: SystemId| #[trigger] r.contains(x) <==> (r0.contains(x) || started@.contains(x)) by {
                if r.contains(x) {
                    let k = choose|k: int| 0 <= k < r.len() && r[k] == x;
                    if k < r0.len() {
                        assert(r0[k] == x);
                    } else {
                        assert(started@[k - r0.len()] == x);
                    }
                }
                if r0.contains(x) {
                    let k = choose|k: int| 0 <= k < r0.len() && r0[k] == x;
                    assert(r[k] == x);
                }
                if started@.contains(x) {
                    let k = choose|k: int| 0 <= k < started@.len() && started@[k] == x;
                    assert(r[r0.len() + k] == x);
                }
            }
            assert forall|x: SystemId| #[trigger] q.contains(x) <==> (ids_of(q0).contains(x) && !started@.contains(x)) by {
                if q.contains(x) {
                    let k = choose|k: int| 0 <= k < self.systems_to_run_now@.len() && self.systems_to_run_now@[k].0 == x;
                    let e = self.systems_to_run_now@[k];
                    assert(self.systems_to_run_now@.contains(e));
                    assert(without_ids(q0, started@).contains(e));
                    let k2 = choose|k2: int| 0 <= k2 < q0.len() && q0[k2] == e;
                    assert(ids_of(q0)[k2] == x);
                }
                if ids_of(q0).contains(x) && !started@.contains(x) {
                    let k = choose|k: int| 0 <= k < q0.len() && q0[k].0 == x;
                    let e = q0[k];
                    assert(q0.contains(e));
                    assert(without_ids(q0, started@).contains(e));
                    assert(self.systems_to_run_now@.contains(e));
                    let k2 = choose|k2: int| 0 <= k2 < self.systems_to_run_now@.len() && self.systems_to_run_now@[k2] == e;
                    assert(q[k2] == x);
                }
            }
            assert(r.no_duplicates()) by {
                assert forall|a: int, b: int| 0 <= a < b < r.len() implies r[a] != r[b] by {
                    if a < r0.len() && b >= r0.len() {
                        assert(started@.contains(r[b]));
                        assert(r0.contains(r[a]));
                        assert(ids_of(q0).contains(r[b]));
                    } else if a >= r0.len() {
                        assert(r[a] == started@[a - r0.len()]);
                        assert(r[b] == started@[b - r0.len()]);
                    }
                }
            }
            assert forall|k: int| 0 <= k < self.systems_to_run_now@.len() implies self.entry_ok(#[trigger] self.systems_to_run_now@[k]) by {
                let e = self.systems_to_run_now@[k];
                assert(self.systems_to_run_now@.contains(e));
                assert(without_ids(q0, started@).contains(e));
                let k2 = choose|k2: int| 0 <= k2 < q0.len() && q0[k2] == e;
            }
            assert forall|i: int| #[trigger] f.contains(i) implies 0 <= i < n by {
                assert(old(self).finished_view().contains(i));
            }
            assert forall|k: int| 0 <= k < r.len() implies (#[trigger] r[k]).0 < n by {
                if k >= r0.len() {
                    assert(started@[k - r0.len()] == r[k]);
                    assert(ids_of(q0).contains(r[k]));
                    let k2 = choose|k2: int| 0 <= k2 < q0.len() && q0[k2].0 == r[k];
                    assert(self.entry_ok(q0[k2]));
                }
            }
        }
    }

    /// Records that the systems in `just_finished` (each running, none twice) have finished:
    /// they leave the running set, each of their dependants has one dependency fewer to wait
    /// for, the dependants whose count reaches zero are queued, and the queue is ordered by
    /// descending number of dependants.
    pub fn process_finished(&mut self, just_finished: Vec<SystemId>)
        requires
            old(self).wf(),
            just_finished@.no_duplicates(),
            forall|k: int| 0 <= k < just_finished@.len() ==> old(self).running_view().contains(#[trigger] just_finished@[k]),
        ensures
            final(self).wf(),
            final(self).n() == old(self).n(),
            final(self).dependants_view() == old(self).dependants_view(),
            final(self).dependencies_view() == old(self).dependencies_view(),
            final(self).initial_view() == old(self).initial_view(),
            final(self).finished_view() == old(self).finished_view().union(index_set(just_finished@)),
            forall|y: SystemId| #[trigger] final(self).running_view().contains(y) <==> (old(self).running_view().contains(y) && !just_finished@.contains(y)),
            final(self).running_view().len() == old(self).running_view().len() - just_finished@.len(),
            ({
                let (counters, released) = release_all(
                    old(self).unsatisfied_view(),
                    gathered(old(self).dependants_view(), just_finished@),
                );
                &&& final(self).unsatisfied_view() == counters
                &&& final(self).queue_view() == sort_by_dependants(
                    old(self).queue_view() + entries_for(old(self).dependants_view(), released),
                )
            }),
            forall|x: SystemId| #[trigger] ids_of(final(self).queue_view()).contains(x) <==> (ids_of(old(self).queue_view()).contains(x)
                || (x.0 < old(self).n() && old(self).unsatisfied_view()[x.0 as int] > 0
                && final(self).unsatisfied_view()[x.0 as int] == 0)),
            descending(final(self).queue_view()),
    {
        let ghost deps = self.dependants_view();
        let ghost n = self.n() as int;
        let ghost f0 = self.finished@;
        let ghost r0 = self.systems_running@;
        let ghost q0 = self.systems_to_run_now@;
        let ghost u0 = self.unsatisfied_dependencies@;
        let ghost jf = just_finished@;
        let mut running: Vec<SystemId> = Vec::new();
        std::mem::swap(&mut running, &mut self.systems_running);
        let mut to_decrement: Vec<SystemId> = Vec::new();
        let mut i: usize = 0;
        while i < just_finished.len()
            invariant
                0 <= i <= jf.len(),
                jf == just_finished@,
                jf.no_duplicates(),
                forall|k: int| 0 <= k < jf.len() ==> r0.contains(#[trigger] jf[k]),
                r0.no_duplicates(),
                running@.no_duplicates(),
                running@.len() == r0.len() - i,
                forall|y: SystemId| #[trigger] running@.contains(y) <==> (r0.contains(y) && !jf.take(i as int).contains(y)),
                to_decrement@ == gathered(deps, jf.take(i as int)),
                self.dependants@.len() == n,
                deps == Seq::new(self.dependants@.len(), |i: int| self.dependants@[i]@),
                forall|k: int| 0 <= k < r0.len() ==> (#[trigger] r0[k]).0 < n,
            decreases jf.len() - i,
        {
            let id = just_finished[i];
            proof {
                assert(r0.contains(jf[i as int]));
                assert(!jf.take(i as int).contains(id)) by {
                    if jf.take(i as int).contains(id) {
                        let k = choose|k: int| 0 <= k < i && jf.take(i as int)[k] == id;
                        assert(jf[k] == jf[i as int]);
                    }
                }
                assert(running@.contains(id));
                let k = choose|k: int| 0 <= k < r0.len() && r0[k] == id;
                assert(id.0 < n);
            }
            remove_id(&mut running, id);
            append_ids(&mut to_decrement, &self.dependants[id.0]);
            proof {
                let t1 = jf.take(i + 1);
                assert(t1 == jf.take(i as int).push(id));
                assert(t1.drop_last() == jf.take(i as int));
                assert(t1.last() == id);
                assert(deps[id.0 as int] == self.dependants@[id.0 as int]@);
                assert forall|y: SystemId| #[trigger] running@.contains(y) <==> (r0.contains(y) && !t1.contains(y)) by {
                    if t1.contains(y) && y != id {
                        let k = choose|k: int| 0 <= k < t1.len() && t1[k] == y;
                        assert(jf.take(i as int)[k] == y);
                    }
                    if jf.take(i as int).contains(y) {
                        let k = choose|k: int| 0 <= k < i && jf.take(i as int)[k] == y;
                        assert(t1[k] == y);
                    }
                    if y == id {
                        assert(t1[i as int] == y);
                    }
                }
            }
            i = i + 1;
        }
        proof {
            assert(jf.take(i as int) == jf);
        }
        self.systems_running = running;
        let ghost f1 = f0.union(index_set(jf));
        self.finished = Ghost(f1);
        let ghost dec = to_decrement@;
        proof {
            assert forall|k: int| 0 <= k < jf.len() implies (#[trigger] jf[k]).0 < deps.len() && !f0.contains(jf[k].0 as int) by {
                assert(r0.contains(jf[k]));
                let k2 = choose|k2: int| 0 <= k2 < r0.len() && r0[k2] == jf[k];
            }
            assert forall|x: int| 0 <= x < n implies #[trigger] u0[x] == pending(deps, SystemId(x as usize), f1, n) + count_in(dec, SystemId(x as usize)) by {
                lemma_pending_finish_all(deps, SystemId(x as usize), f0, jf);
            }
            lemma_gathered_bounded(deps, jf);
        }
        let mut queue: Vec<Queued> = Vec::new();
        std::mem::swap(&mut queue, &mut self.systems_to_run_now);
        let mut unsatisfied: Vec<usize> = Vec::new();
        std::mem::swap(&mut unsatisfied, &mut self.unsatisfied_dependencies);
        let mut k: usize = 0;
        while k < to_decrement.len()
            invariant
                0 <= k <= dec.len(),
                dec == to_decrement@,
                unsatisfied@.len() == n,
                n <= usize::MAX,
                self.dependants@.len() == n,
                deps == Seq::new(self.dependants@.len(), |i: int| self.dependants@[i]@),
                edges_ascend(deps),
                forall|x: int| 0 <= x < n ==> #[trigger] u0[x] == pending(deps, SystemId(x as usize), f1, n) + count_in(dec, SystemId(x as usize)),
                forall|x: int| 0 <= x < n ==> #[trigger] unsatisfied@[x] + count_in(dec.take(k as int), SystemId(x as usize)) == u0[x],
                (unsatisfied@, queue@) == ({
                    let (c, rel) = release_all(u0, dec.take(k as int));
                    (c, q0 + entries_for(deps, rel))
                }),
                forall|j: int| 0 <= j < dec.len() ==> (#[trigger] dec[j]).0 < n,
                forall|j: int| 0 <= j < queue@.len() ==> (#[trigger] queue@[j]).0.0 < n && queue@[j].1.0 == deps[queue@[j].0.0 as int].len(),
            decreases dec.len() - k,
        {
            let id = to_decrement[k];
            proof {
                assert(dec.take(k + 1) == dec.take(k as int).push(id));
                lemma_count_in_push(dec.take(k as int), id, id);
                assert(dec == dec.take(k + 1) + dec.skip(k + 1));
                lemma_count_in_append(dec.take(k + 1), dec.skip(k + 1), id);
                assert(unsatisfied@[id.0 as int] >= 1);
            }
            let v = unsatisfied[id.0] - 1;
            unsatisfied.set(id.0, v);
            if v == 0 {
                queue.push((id, DependantsLength(self.dependants[id.0].len())));
            }
            proof {
                let t1 = dec.take(k + 1);
                assert(t1.drop_last() == dec.take(k as int));
                assert(t1.last() == id);
                let (c, rel) = release_all(u0, dec.take(k as int));
                assert(deps[id.0 as int] == self.dependants@[id.0 as int]@);
                if v == 0 {
                    assert(entries_for(deps, rel.push(id)) == entries_for(deps, rel).push((id, DependantsLength(deps[id.0 as int].len() as usize))));
                    assert(q0 + entries_for(deps, rel.push(id)) == (q0 + entries_for(deps, rel)).push((id, DependantsLength(deps[id.0 as int].len() as usize))));
                }
                assert forall|x: int| 0 <= x < n implies #[trigger] unsatisfied@[x] + count_in(t1, SystemId(x as usize)) == u0[x] by {
                    lemma_count_in_push(dec.take(k as int), id, SystemId(x as usize));
                    if x == id.0 as int {
                        assert(SystemId(x as usize) == id);
                    } else {
                        assert(SystemId(x as usize) != id);
                    }
                }
            }
            k = k + 1;
        }
        proof {
            assert(dec.take(k as int) == dec);
        }
        self.unsatisfied_dependencies = unsatisfied;
        let ghost before_sort = queue@;
        self.systems_to_run_now = sort_by_dependants_desc(queue);
        proof {
            assert forall|j: int| 0 <= j < before_sort.len() implies self.entry_ok(#[trigger] before_sort[j]) by {
                assert(before_sort[j].0.0 < n);
            }
            self.lemma_after_release(deps, n, f0, f1, r0, q0, u0, jf, dec, before_sort);
        }
    }

    proof fn lemma_after_release(
        &self,
        deps: Seq<Seq<SystemId>>,
        n: int,
        f0: Set<int>,
        f1: Set<int>,
        r0: Seq<SystemId>,
        q0: Seq<Queued>,
        u0: Seq<usize>,
        jf: Seq<SystemId>,
        dec: Seq<SystemId>,
        before_sort: Seq<Queued>,
    )
        requires
            deps == self.dependants_view(),
            n == self.n(),
            self.graph_wf(),
            // the state before
            u0.len() == n,
            forall|x: int| 0 <= x < n ==> #[trigger] u0[x] == pending(deps, SystemId(x as usize), f0, n),
            ids_of(q0).no_duplicates(),
            r0.no_duplicates(),
            forall|k: int| 0 <= k < q0.len() ==> self.entry_ok(#[trigger] q0[k]),
            forall|k: int| 0 <= k < r0.len() ==> (#[trigger] r0[k]).0 < n,
            forall|i: int| #[trigger] f0.contains(i) ==> 0 <= i < n,
            forall|x: SystemId| #[trigger] ids_of(q0).contains(x) ==> !r0.contains(x) && !f0.contains(x.0 as int),
            forall|x: SystemId| #[trigger] r0.contains(x) ==> !f0.contains(x.0 as int),
            forall|x: int| 0 <= x < n ==> (#[trigger] u0[x] == 0 <==> (ids_of(q0).contains(SystemId(x as usize))
                || r0.contains(SystemId(x as usize)) || f0.contains(x))),
            // what happened
            jf.no_duplicates(),
            forall|k: int| 0 <= k < jf.len() ==> r0.contains(#[trigger] jf[k]),
            f1 == f0.union(index_set(jf)),
            self.finished_view() == f1,
            forall|y: SystemId| #[trigger] self.running_view().contains(y) <==> (r0.contains(y) && !jf.contains(y)),
            self.running_view().no_duplicates(),
            forall|j: int| 0 <= j < dec.len() ==> (#[trigger] dec[j]).0 < n,
            forall|x: int| 0 <= x < n ==> #[trigger] u0[x] == pending(deps, SystemId(x as usize), f1, n) + count_in(dec, SystemId(x as usize)),
            ({
                let (c, rel) = release_all(u0, dec);
                &&& self.unsatisfied_view() == c
                &&& before_sort == q0 + entries_for(deps, rel)
            }),
            self.queue_view() == sort_by_dependants(before_sort),
            forall|k: int| 0 <= k < before_sort.len() ==> self.entry_ok(#[trigger] before_sort[k]),
        ensures
            self.state_wf(),
            forall|x: SystemId| #[trigger] ids_of(self.queue_view()).contains(x) <==> (ids_of(q0).contains(x)
                || (x.0 < n && u0[x.0 as int] > 0 && self.unsatisfied_view()[x.0 as int] == 0)),
            descending(self.queue_view()),
    {
        let (c, rel) = release_all(u0, dec);
        assert forall|x: int| 0 <= x < u0.len() implies #[trigger] u0[x] >= count_in(dec, SystemId(x as usize)) by {
            assert(u0[x] == pending(deps, SystemId(x as usize), f1, n) + count_in(dec, SystemId(x as usize)));
        }
        lemma_release_all(u0, dec);
        let er = entries_for(deps, rel);
        let q = self.queue_view();
        let r = self.running_view();
        lemma_ids_of(q0);
        lemma_ids_of(er);
        lemma_ids_of(before_sort);
        lemma_ids_of(q);
        lemma_sort_by_dependants(before_sort);
        assert forall|x: SystemId| #[trigger] ids_of(before_sort).contains(x) <==> (ids_of(q0).contains(x) || rel.contains(x)) by {
            if ids_of(before_sort).contains(x) {
                let k = choose|k: int| 0 <= k < before_sort.len() && before_sort[k].0 == x;
                if k < q0.len() {
                    assert(before_sort[k] == q0[k]);
                } else {
                    assert(before_sort[k] == er[k - q0.len()]);
                    assert(rel[k - q0.len()] == x);
                }
            }
            if ids_of(q0).contains(x) {
                let k = choose|k: int| 0 <= k < q0.len() && q0[k].0 == x;
                assert(before_sort[k] == q0[k]);
            }
            if rel.contains(x) {
                let k = choose|k: int| 0 <= k < rel.len() && rel[k] == x;
                assert(before_sort[q0.len() + k] == er[k]);
            }
        }
        // released systems were waiting before
        assert forall|y: SystemId| #[trigger] rel.contains(y) implies u0[y.0 as int] > 0 && !ids_of(q0).contains(y)
            && !r0.contains(y) && !f0.contains(y.0 as int) && !jf.contains(y) by {
            assert(y == SystemId(y.0));
            if jf.contains(y) {
                let k = choose|k: int| 0 <= k < jf.len() && jf[k] == y;
                assert(r0.contains(jf[k]));
            }
        }
        assert(ids_of(before_sort).no_duplicates()) by {
            assert forall|a: int, b: int| 0 <= a < b < before_sort.len() implies ids_of(before_sort)[a] != ids_of(before_sort)[b] by {
                if b < q0.len() {
                    assert(ids_of(before_sort)[a] == ids_of(q0)[a]);
                    assert(ids_of(before_sort)[b] == ids_of(q0)[b]);
                } else if a >= q0.len() {
                    assert(ids_of(before_sort)[a] == rel[a - q0.len()]);
                    assert(ids_of(before_sort)[b] == rel[b - q0.len()]);
                } else {
                    assert(ids_of(before_sort)[a] == ids_of(q0)[a]);
                    assert(ids_of(before_sort)[b] == rel[b - q0.len()]);
                    assert(rel.contains(rel[b - q0.len()]));
                    assert(ids_of(q0).contains(ids_of(q0)[a]));
                }
            }
        }
        lemma_entries_ids_nodup(before_sort, deps);
        assert forall|k: int| 0 <= k < q.len() implies self.entry_ok(#[trigger] q[k]) by {
            let e = q[k];
            assert(q.contains(e));
            assert(before_sort.contains(e));
            let k2 = choose|k2: int| 0 <= k2 < before_sort.len() && before_sort[k2] == e;
        }
        lemma_entries_ids_nodup(q, deps);
        assert forall|x: SystemId| #[trigger] ids_of(q).contains(x) <==> ids_of(before_sort).contains(x) by {
            if ids_of(q).contains(x) {
                let k = choose|k: int| 0 <= k < q.len() && q[k].0 == x;
                assert(q.contains(q[k]));
                assert(before_sort.contains(q[k]));
                let k2 = choose|k2: int| 0 <= k2 < before_sort.len() && before_sort[k2] == q[k];
            }
            if ids_of(before_sort).contains(x) {
                let k = choose|k: int| 0 <= k < before_sort.len() && before_sort[k].0 == x;
                assert(before_sort.contains(before_sort[k]));
                assert(q.contains(before_sort[k]));
                let k2 = choose|k2: int| 0 <= k2 < q.len() && q[k2] == before_sort[k];
            }
        }
        assert forall|x: int| 0 <= x < n implies #[trigger] self.unsatisfied_view()[x] == pending(deps, SystemId(x as usize), f1, n) by {
        }
        assert forall|k: int| 0 <= k < r.len() implies (#[trigger] r[k]).0 < n by {
            assert(r.contains(r[k]));
            assert(r0.contains(r[k]));
        }
        assert forall|i: int| #[trigger] f1.contains(i) implies 0 <= i < n by {
            if !f0.contains(i) {
                assert(index_set(jf).contains(i));
                let k = choose|k: int| 0 <= k < jf.len() && jf[k].0 == i;
                assert(r0.contains(jf[k]));
            }
        }
        assert forall|x: SystemId| #[trigger] jf.contains(x) <==> index_set(jf).contains(x.0 as int) by {
            if index_set(jf).contains(x.0 as int) {
                let k = choose|k: int| 0 <= k < jf.len() && jf[k].0 == x.0 as int;
                assert(jf[k] == x);
            }
        }
        assert forall|x: SystemId| #[trigger] ids_of(q).contains(x) implies !r.contains(x) && !f1.contains(x.0 as int) by {
            assert(jf.contains(x) <==> index_set(jf).contains(x.0 as int));
        }
        assert forall|x: SystemId| #[trigger] r.contains(x) implies !f1.contains(x.0 as int) by {
            assert(jf.contains(x) <==> index_set(jf).contains(x.0 as int));
        }
        assert forall|x: int| 0 <= x < n implies (#[trigger] self.unsatisfied_view()[x] == 0 <==> (ids_of(q).contains(
            SystemId(x as usize),
        ) || r.contains(SystemId(x as usize)) || f1.contains(x))) by {
            let sx = SystemId(x as usize);
            assert(jf.contains(sx) <==> index_set(jf).contains(x));
            assert(u0[x] == 0 <==> (ids_of(q0).contains(sx) || r0.contains(sx) || f0.contains(x)));
        }
        assert forall|x: SystemId| #[trigger] ids_of(q).contains(x) <==> (ids_of(q0).contains(x)
            || (x.0 < n && u0[x.0 as int] > 0 && self.unsatisfied_view()[x.0 as int] == 0)) by {
            assert(x == SystemId(x.0));
            if x.0 < n && u0[x.0 as int] > 0 && self.unsatisfied_view()[x.0 as int] == 0 {
                assert(count_in(dec, x) > 0);
            }
        }
    }

    /// Number of queued systems.
    pub fn queued_count(&self) -> (r: usize)
        ensures
            r == self.queue_view().len(),
    {
        self.systems_to_run_now.len()
    }

    /// The `i`-th queued system and its number of dependants.
    pub fn queued_at(&self, i: usize) -> (r: Queued)
        requires
            i < self.queue_view().len(),
        ensures
            r == self.queue_view()[i as int],
    {
        self.systems_to_run_now[i]
    }

    /// Number of running systems.
    pub fn running_count(&self) -> (r: usize)
        ensures
            r == self.running_view().len(),
    {
        self.systems_running.len()
    }

    /// The `i`-th running system.
    pub fn running_at(&self, i: usize) -> (r: SystemId)
        requires
            i < self.running_view().len(),
        ensures
            r == self.running_view()[i as int],
    {
        self.systems_running[i]
    }

    /// Whether `id` is running.
    pub fn is_running(&self, id: SystemId) -> (r: bool)
        ensures
            r == self.running_view().contains(id),
    {
        contains_id(&self.systems_running, id)
    }

    /// Whether the run is over: nothing is queued and nothing is running.
    pub fn is_done(&self) -> (r: bool)
        ensures
            r == self.idle(),
    {
        self.systems_to_run_now.len() == 0 && self.systems_running.len() == 0
    }

    /// Number of systems.
    pub fn len(&self) -> (r: usize)
        requires
            self.wf(),
        ensures
            r == self.n(),
    {
        self.dependants.len()
    }

    /// The dependants of system `id`.
    pub fn dependants_of(&self, id: SystemId) -> (r: &Vec<SystemId>)
        requires
            id.0 < self.n(),
        ensures
            r@ == self.dependants_view()[id.0 as int],
    {
        &self.dependants[id.0]
    }

    /// The number of dependencies of system `id`.
    pub fn dependencies_of(&self, id: SystemId) -> (r: usize)
        requires
            self.wf(),
            id.0 < self.n(),
        ensures
            r == self.dependencies_view()[id.0 as int],
    {
        self.dependencies[id.0]
    }

    /// A queued or running system has had all of its dependencies finish in this run.
    pub proof fn lemma_dependencies_finished_first(&self, x: SystemId, d: int)
        requires
            self.wf(),
            ids_of(self.queue_view()).contains(x) || self.running_view().contains(x),
            0 <= d < self.n(),
            self.dependants_view()[d].contains(x),
        ensures
            self.finished_view().contains(d),
    {
        let deps = self.dependants_view();
        let n = self.n() as int;
        assert(x.0 < n) by {
            if self.running_view().contains(x) {
                let k = choose|k: int| 0 <= k < self.running_view().len() && self.running_view()[k] == x;
            } else {
                lemma_ids_of(self.queue_view());
                let k = choose|k: int| 0 <= k < self.queue_view().len() && self.queue_view()[k].0 == x;
                assert(self.entry_ok(self.queue_view()[k]));
            }
        }
        assert(SystemId(x.0 as usize) == x);
        assert(self.unsatisfied_view()[x.0 as int] == 0);
        lemma_pending_zero(deps, x, self.finished_view(), n);
    }

    /// No system starts twice in a run: one that is running or has finished is not queued,
    /// and only queued systems start.
    pub proof fn lemma_started_once(&self, x: SystemId)
        requires
            self.wf(),
            self.running_view().contains(x) || self.finished_view().contains(x.0 as int),
        ensures
            !ids_of(self.queue_view()).contains(x),
    {
    }

    /// With nothing queued and nothing running, every system has finished.
    pub proof fn lemma_idle_means_all_finished(&self)
        requires
            self.wf(),
            self.idle(),
        ensures
            self.finished_view() == all_indices(self.n() as int),
            forall|x: int| 0 <= x < self.n() ==> #[trigger] self.unsatisfied_view()[x] == 0,
    {
        let n = self.n() as int;
        let deps = self.dependants_view();
        let f = self.finished_view();
        assert forall|x: int| 0 <= x < n implies f.contains(x) by {
            self.lemma_finished_below(x);
        }
        assert(f =~= all_indices(n));
        assert forall|x: int| 0 <= x < n implies #[trigger] self.unsatisfied_view()[x] == 0 by {
            assert(self.unsatisfied_view()[x] == pending(deps, SystemId(x as usize), f, n));
            lemma_pending_zero(deps, SystemId(x as usize), f, n);
        }
    }

    proof fn lemma_finished_below(&self, x: int)
        requires
            self.wf(),
            self.idle(),
            0 <= x < self.n(),
        ensures
            self.finished_view().contains(x),
        decreases x,
    {
        let n = self.n() as int;
        let deps = self.dependants_view();
        let f = self.finished_view();
        assert forall|d: int| 0 <= d < x implies f.contains(d) by {
            self.lemma_finished_below(d);
        }
        lemma_pending_zero_when_earlier_done(deps, SystemId(x as usize), f);
        assert(self.unsatisfied_view()[x] == 0);
        assert(!ids_of(self.queue_view()).contains(SystemId(x as usize)));
        assert(!self.running_view().contains(SystemId(x as usize)));
    }
}

} // verus!
