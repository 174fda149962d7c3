//! The scheduling executor: runs systems as soon as their dependencies have finished and
//! their borrows do not conflict with those of the systems already running.
use vstd::prelude::*;
use crate::access_set::{
    compatible, lemma_compatible_means_no_conflict, lemma_compatible_symmetric, Access, ArchetypeSet, BorrowBits, BorrowSet,
};
use crate::run_queue::{ids_of, lemma_ids_of, index_set, without_ids, RunQueue};
use crate::queue_order::Queued;
use crate::system_id::SystemId;

verus! {

/// What a system borrows: resources, component types, and archetypes of the world.
pub ghost struct AccessBits {
    pub resources: BorrowBits,
    pub components: BorrowBits,
    pub archetypes: BorrowBits,
}

/// Two systems may run at the same time when their resource borrows are compatible and
/// either their component borrows are compatible or they touch archetypes compatibly
/// (incompatible component types in archetypes that only one of them touches do not conflict).
pub open spec fn can_run_together(a: AccessBits, b: AccessBits) -> bool {
    &&& compatible(a.resources, b.resources)
    &&& (compatible(a.components, b.components) || compatible(a.archetypes, b.archetypes))
}

/// Running together does not depend on the order of the two systems.
pub proof fn lemma_can_run_together_symmetric(a: AccessBits, b: AccessBits)
    ensures
        can_run_together(a, b) == can_run_together(b, a),
{
    lemma_compatible_symmetric(a.resources, b.resources);
    lemma_compatible_symmetric(a.components, b.components);
    lemma_compatible_symmetric(a.archetypes, b.archetypes);
}

/// Two systems may run together exactly when neither writes a resource the other reads or
/// writes, and either neither writes a component type the other reads or writes, or neither
/// writes an archetype the other reads or writes.
pub proof fn lemma_can_run_together_means_no_clash(a: AccessBits, b: AccessBits)
    ensures
        can_run_together(a, b) <==> {
            &&& forall|x: usize| !((a.resources.mutable.contains(x) && (b.resources.mutable.contains(x) || b.resources.immutable.contains(x)))
                || (b.resources.mutable.contains(x) && a.resources.immutable.contains(x)))
            &&& (forall|x: usize| !((a.components.mutable.contains(x) && (b.components.mutable.contains(x) || b.components.immutable.contains(x)))
                || (b.components.mutable.contains(x) && a.components.immutable.contains(x))))
                || (forall|x: usize| !((a.archetypes.mutable.contains(x) && (b.archetypes.mutable.contains(x) || b.archetypes.immutable.contains(x)))
                || (b.archetypes.mutable.contains(x) && a.archetypes.immutable.contains(x))))
        },
{
    lemma_compatible_means_no_conflict(a.resources, b.resources);
    lemma_compatible_means_no_conflict(a.components, b.components);
    lemma_compatible_means_no_conflict(a.archetypes, b.archetypes);
}

/// Whether system `x` may run together with every system in `others`.
pub open spec fn fits(access: Seq<AccessBits>, x: SystemId, others: Seq<SystemId>) -> bool {
    forall|k: int| 0 <= k < others.len() ==> can_run_together(access[x.0 as int], access[#[trigger] others[k].0 as int])
}

/// The systems started from `queue`, in order: each one that fits with the running systems
/// and with those started before it.
pub open spec fn greedy_start(access: Seq<AccessBits>, queue: Seq<SystemId>, running: Seq<SystemId>) -> Seq<SystemId>
    decreases queue.len(),
{
    if queue.len() == 0 {
        Seq::empty()
    } else {
        let prev = greedy_start(access, queue.drop_last(), running);
        if fits(access, queue.last(), running + prev) {
            prev.push(queue.last())
        } else {
            prev
        }
    }
}

/// The greedy choice starts only queued systems, each once, each fitting with the running
/// systems and with the ones started before it; every queued system left out conflicts with
/// some system that is running afterwards.
pub proof fn lemma_greedy_start(access: Seq<AccessBits>, queue: Seq<SystemId>, running: Seq<SystemId>)
    ensures
        ({
            let g = greedy_start(access, queue, running);
            &&& forall|x: SystemId| #[trigger] g.contains(x) ==> queue.contains(x)
            &&& queue.no_duplicates() ==> g.no_duplicates()
            &&& forall|k: int| 0 <= k < g.len() ==> fits(access, #[trigger] g[k], running + g.take(k))
            &&& forall|x: SystemId| #[trigger] queue.contains(x) && !g.contains(x) ==> !fits(access, x, running + g)
            &&& running.len() == 0 && queue.len() > 0 ==> g.len() > 0
        }),
    decreases queue.len(),
{
    if queue.len() > 0 {
        let q1 = queue.drop_last();
        let x = queue.last();
        lemma_greedy_start(access, q1, running);
        let p = greedy_start(access, q1, running);
        let g = greedy_start(access, queue, running);
        assert forall|y: SystemId| #[trigger] queue.contains(y) <==> (q1.contains(y) || y == x) by {
            if queue.contains(y) {
                let j = choose|j: int| 0 <= j < queue.len() && queue[j] == y;
                if j < q1.len() {
                    assert(q1[j] == y);
                }
            }
            if q1.contains(y) {
                let j = choose|j: int| 0 <= j < q1.len() && q1[j] == y;
                assert(queue[j] == y);
            }
            if y == x {
                assert(queue[queue.len() - 1] == x);
            }
        }
        if fits(access, x, running + p) {
            assert(g == p.push(x));
            assert forall|y: SystemId| #[trigger] g.contains(y) <==> (p.contains(y) || y == x) by {
                if g.contains(y) {
                    let j = choose|j: int| 0 <= j < g.len() && g[j] == y;
                    if j < p.len() {
                        assert(p[j] == y);
                    }
                }
                if p.contains(y) {
                    let j = choose|j: int| 0 <= j < p.len() && p[j] == y;
                    assert(g[j] == y);
                }
                if y == x {
                    assert(g[p.len() as int] == x);
                }
            }
            if queue.no_duplicates() {
                assert(q1.no_duplicates()) by {
                    assert forall|a: int, b: int| 0 <= a < b < q1.len() implies q1[a] != q1[b] by {
                        assert(queue[a] == q1[a]);
                        assert(queue[b] == q1[b]);
                    }
                }
                assert(!q1.contains(x)) by {
                    if q1.contains(x) {
                        let j = choose|j: int| 0 <= j < q1.len() && q1[j] == x;
                        assert(queue[j] == queue[queue.len() - 1]);
                    }
                }
                assert forall|a: int, b: int| 0 <= a < b < g.len() implies g[a] != g[b] by {
                    if b == p.len() {
                        assert(p.contains(g[a]));
                    } else {
                        assert(g[a] == p[a]);
                        assert(g[b] == p[b]);
                    }
                }
            }
            assert forall|k: int| 0 <= k < g.len() implies fits(access, #[trigger] g[k], running + g.take(k)) by {
                if k < p.len() {
                    assert(g[k] == p[k]);
                    assert(g.take(k) == p.take(k));
                } else {
                    assert(g.take(k) == p);
                }
            }
            assert forall|y: SystemId| #[trigger] queue.contains(y) && !g.contains(y) implies !fits(access, y, running + g) by {
                assert(q1.contains(y));
                assert(!fits(access, y, running + p));
                let k = choose|k: int| 0 <= k < (running + p).len() && !can_run_together(access[y.0 as int], access[(running + p)[k].0 as int]);
                assert((running + g)[k] == (running + p)[k]);
            }
        } else {
            assert(g == p);
            if queue.no_duplicates() {
                assert(q1.no_duplicates()) by {
                    assert forall|a: int, b: int| 0 <= a < b < q1.len() implies q1[a] != q1[b] by {
                        assert(queue[a] == q1[a]);
                        assert(queue[b] == q1[b]);
                    }
                }
            }
            if running.len() == 0 && queue.len() > 0 && p.len() == 0 {
                assert(running + p =~= Seq::<SystemId>::empty());
            }
        }
    }
}

/// A system's borrow sets.
pub struct SystemAccess {
    pub resource_set: BorrowSet,
    pub component_set: BorrowSet,
    pub archetype_set: ArchetypeSet,
}

impl SystemAccess {
    pub open spec fn bits(&self) -> AccessBits {
        AccessBits {
            resources: self.resource_set@,
            components: self.component_set@,
            archetypes: self.archetype_set@,
        }
    }

    /// Whether this system may run together with `other`.
    pub fn can_run_with(&self, other: &SystemAccess) -> (r: bool)
        ensures
            r == can_run_together(self.bits(), other.bits()),
    {
        if !self.resource_set.is_compatible(&other.resource_set) {
            return false;
        }
        if !self.component_set.is_compatible(&other.component_set)
            && !self.archetype_set.is_compatible(&other.archetype_set) {
            return false;
        }
        true
    }
}

/// Parallel executor variant used when systems cannot be proven to be statically disjoint,
/// or have dependencies.
pub struct Scheduler {
    queue: RunQueue,
    access: Vec<SystemAccess>,
    archetypes_generation: Option<u64>,
}

impl Scheduler {
    /// The dependency bookkeeping.
    pub closed spec fn run_queue(&self) -> RunQueue {
        self.queue
    }

    /// The borrows of each system.
    pub closed spec fn access_view(&self) -> Seq<AccessBits> {
        Seq::new(self.access@.len(), |i: int| self.access@[i].bits())
    }

    /// The world's archetypes generation that the archetype sets were computed for.
    pub closed spec fn generation_view(&self) -> Option<u64> {
        self.archetypes_generation
    }

    pub open spec fn wf(&self) -> bool {
        let q = self.run_queue();
        let r = q.running_view();
        let access = self.access_view();
        &&& q.wf()
        &&& access.len() == q.n()
        &&& forall|a: int, b: int|
            0 <= a < r.len() && 0 <= b < r.len() && a != b ==> can_run_together(
                access[#[trigger] r[a].0 as int],
                access[#[trigger] r[b].0 as int],
            )
    }

    /// A scheduler between runs over the given dependency bookkeeping and borrows, with no
    /// archetypes generation recorded.
    pub fn new(queue: RunQueue, access: Vec<SystemAccess>) -> (r: Self)
        requires
            queue.wf(),
            queue.idle(),
            access@.len() == queue.n(),
        ensures
            r.wf(),
            r.run_queue() == queue,
            r.access_view() == Seq::new(access@.len(), |i: int| access@[i].bits()),
            r.generation_view() == None::<u64>,
    {
        Scheduler { queue, access, archetypes_generation: None }
    }

    /// Forgets the recorded archetypes generation, so that the next run recomputes the
    /// archetype sets.
    pub fn force_archetype_recalculation(&mut self)
        requires
            old(self).wf(),
        ensures
            final(self).wf(),
            final(self).run_queue() == old(self).run_queue(),
            final(self).access_view() == old(self).access_view(),
            final(self).generation_view() == None::<u64>,
    {
        self.archetypes_generation = None;
    }

    /// Starts a run in a world whose archetypes generation is `generation`: resets the
    /// dependency counters and queues the systems without dependencies. Returns whether the
    /// generation differs from the one recorded, in which case it is recorded and the
    /// archetype sets of all systems must be recomputed before systems are started.
    pub fn prepare(&mut self, generation: u64) -> (recalculate: bool)
        requires
            old(self).wf(),
            old(self).run_queue().idle(),
        ensures
            final(self).wf(),
            recalculate == (old(self).generation_view() != Some(generation)),
            final(self).generation_view() == Some(generation),
            final(self).access_view() == old(self).access_view(),
            final(self).run_queue().n() == old(self).run_queue().n(),
            final(self).run_queue().dependants_view() == old(self).run_queue().dependants_view(),
            final(self).run_queue().dependencies_view() == old(self).run_queue().dependencies_view(),
            final(self).run_queue().initial_view() == old(self).run_queue().initial_view(),
            final(self).run_queue().unsatisfied_view() == old(self).run_queue().dependencies_view(),
            final(self).run_queue().queue_view() == old(self).run_queue().initial_view(),
            final(self).run_queue().running_view().len() == 0,
            final(self).run_queue().finished_view() == Set::<int>::empty(),
    {
        self.queue.reset();
        let recalculate = match self.archetypes_generation {
            Some(g) => g != generation,
            None => true,
        };
        self.archetypes_generation = Some(generation);
        recalculate
    }

    /// Replaces the archetype set of system `id` by the one that the given per-archetype
    /// accesses describe; only while no system is running.
    pub fn set_archetype_accesses(&mut self, id: SystemId, accesses: &Vec<Option<Access>>)
        requires
            old(self).wf(),
            old(self).run_queue().running_view().len() == 0,
            id.0 < old(self).run_queue().n(),
        ensures
            final(self).wf(),
            final(self).run_queue() == old(self).run_queue(),
            final(self).generation_view() == old(self).generation_view(),
            final(self).access_view() == old(self).access_view().update(id.0 as int, AccessBits {
                archetypes: BorrowBits {
                    immutable: crate::access_set::indices_with(accesses@, Access::Read, accesses@.len() as int),
                    mutable: crate::access_set::indices_with(accesses@, Access::Write, accesses@.len() as int),
                },
                ..old(self).access_view()[id.0 as int]
            }),
    {
        let mut taken = SystemAccess {
            resource_set: BorrowSet::with_capacity(0),
            component_set: BorrowSet::with_capacity(0),
            archetype_set: ArchetypeSet::new(),
        };
        self.access.set_and_swap(id.0, &mut taken);
        taken.archetype_set.set_bits_for_query(accesses);
        self.access.set_and_swap(id.0, &mut taken);
        proof {
            assert(self.access_view() =~= old(self).access_view().update(id.0 as int, AccessBits {
                archetypes: BorrowBits {
                    immutable: crate::access_set::indices_with(accesses@, Access::Read, accesses@.len() as int),
                    mutable: crate::access_set::indices_with(accesses@, Access::Write, accesses@.len() as int),
                },
                ..old(self).access_view()[id.0 as int]
            }));
        }
    }

    /// Whether system `id` may start alongside every running system and every system in
    /// `also`.
    fn can_start_with(&self, id: SystemId, also: &Vec<SystemId>) -> (r: bool)
        requires
            self.wf(),
            id.0 < self.run_queue().n(),
            forall|k: int| 0 <= k < also@.len() ==> (#[trigger] also@[k]).0 < self.run_queue().n(),
        ensures
            r == fits(self.access_view(), id, self.run_queue().running_view() + also@),
    {
        let ghost all = self.run_queue().running_view() + also@;
        let rn = self.queue.running_count();
        let mut i: usize = 0;
        while i < rn
            invariant
                self.wf(),
                rn == self.run_queue().running_view().len(),
                id.0 < self.run_queue().n(),
                0 <= i <= rn,
                all == self.run_queue().running_view() + also@,
                forall|k: int| 0 <= k < i ==> can_run_together(self.access_view()[id.0 as int], self.access_view()[#[trigger] all[k].0 as int]),
            decreases rn - i,
        {
            let other = self.queue.running_at(i);
            proof {
                assert(all[i as int] == other);
                assert(other.0 < self.run_queue().n());
            }
            if !self.access[id.0].can_run_with(&self.access[other.0]) {
                return false;
            }
            i = i + 1;
        }
        let mut j: usize = 0;
        while j < also.len()
            invariant
                self.wf(),
                rn == self.run_queue().running_view().len(),
                id.0 < self.run_queue().n(),
                forall|k: int| 0 <= k < also@.len() ==> (#[trigger] also@[k]).0 < self.run_queue().n(),
                0 <= j <= also@.len(),
                all == self.run_queue().running_view() + also@,
                forall|k: int| 0 <= k < rn + j ==> can_run_together(self.access_view()[id.0 as int], self.access_view()[#[trigger] all[k].0 as int]),
            decreases also@.len() - j,
        {
            let other = also[j];
            proof {
                assert(all[rn + j] == other);
            }
            if !self.access[id.0].can_run_with(&self.access[other.0]) {
                return false;
            }
            j = j + 1;
        }
        true
    }

    /// Whether system `id` may start now, alongside every running system.
    pub fn can_start_now(&self, id: SystemId) -> (r: bool)
        requires
            self.wf(),
            id.0 < self.run_queue().n(),
        ensures
            r == fits(self.access_view(), id, self.run_queue().running_view()),
    {
        let none: Vec<SystemId> = Vec::new();
        let r = self.can_start_with(id, &none);
        proof {
            assert(self.run_queue().running_view() + none@ == self.run_queue().running_view());
        }
        r
    }

    /// Starts, in queue order, every queued system that may run alongside the running ones
    /// and those started before it in this call; returns them in that order.
    pub fn start_all_currently_runnable(&mut self) -> (started: Vec<SystemId>)
        requires
            old(self).wf(),
        ensures
            final(self).wf(),
            started@ == greedy_start(
                old(self).access_view(),
                ids_of(old(self).run_queue().queue_view()),
                old(self).run_queue().running_view(),
            ),
            final(self).access_view() == old(self).access_view(),
            final(self).generation_view() == old(self).generation_view(),
            final(self).run_queue().running_view() == old(self).run_queue().running_view() + started@,
            final(self).run_queue().queue_view() == without_ids(old(self).run_queue().queue_view(), started@),
            final(self).run_queue().finished_view() == old(self).run_queue().finished_view(),
            final(self).run_queue().unsatisfied_view() == old(self).run_queue().unsatisfied_view(),
            final(self).run_queue().dependants_view() == old(self).run_queue().dependants_view(),
            final(self).run_queue().dependencies_view() == old(self).run_queue().dependencies_view(),
            final(self).run_queue().initial_view() == old(self).run_queue().initial_view(),
            final(self).run_queue().n() == old(self).run_queue().n(),
            old(self).run_queue().queue_view().len() > 0 && old(self).run_queue().running_view().len() == 0 ==> started@.len() > 0,
    {
        let ghost access = self.access_view();
        let ghost qv = ids_of(self.run_queue().queue_view());
        let ghost rv = self.run_queue().running_view();
        proof {
            lemma_ids_of(self.run_queue().queue_view());
        }
        let mut started: Vec<SystemId> = Vec::new();
        let count = self.queue.queued_count();
        let mut i: usize = 0;
        while i < count
            invariant
                self.wf(),
                access == self.access_view(),
                qv == ids_of(self.run_queue().queue_view()),
                rv == self.run_queue().running_view(),
                count == qv.len(),
                0 <= i <= count,
                started@ == greedy_start(access, qv.take(i as int), rv),
                forall|k: int| 0 <= k < started@.len() ==> (#[trigger] started@[k]).0 < self.run_queue().n(),
                forall|k: int| 0 <= k < qv.len() ==> (#[trigger] qv[k]).0 < self.run_queue().n(),
            decreases count - i,
        {
            let entry = self.queue.queued_at(i);
            let id = entry.0;
            proof {
                assert(qv[i as int] == id);
                assert(qv.take(i + 1).drop_last() == qv.take(i as int));
                assert(qv.take(i + 1).last() == id);
            }
            if self.can_start_with(id, &started) {
                started.push(id);
            }
            i = i + 1;
        }
        proof {
            assert(qv.take(i as int) == qv);
            lemma_greedy_start(access, qv, rv);
            assert(qv.no_duplicates());
            assert forall|k: int| 0 <= k < started@.len() implies qv.contains(#[trigger] started@[k]) by {
                assert(started@.contains(started@[k]));
            }
        }
        self.queue.start(&started);
        proof {
            let g = started@;
            let r = self.run_queue().running_view();
            assert(r == rv + g);
            assert forall|a: int, b: int|
                0 <= a < r.len() && 0 <= b < r.len() && a != b implies can_run_together(
                    access[#[trigger] r[a].0 as int],
                    access[#[trigger] r[b].0 as int],
                ) by {
                let (lo, hi) = if a < b { (a, b) } else { (b, a) };
                lemma_can_run_together_symmetric(access[r[a].0 as int], access[r[b].0 as int]);
                if hi >= rv.len() {
                    let k = hi - rv.len();
                    assert(g[k] == r[hi]);
                    assert(fits(access, g[k], rv + g.take(k)));
                    assert((rv + g.take(k))[lo] == r[lo]);
                    assert(can_run_together(access[r[hi].0 as int], access[r[lo].0 as int]));
                } else {
                    assert(rv[a] == r[a]);
                    assert(rv[b] == r[b]);
                }
            }
        }
        started
    }

    /// Records that the systems in `just_finished` (each running, none twice) have finished,
    /// queueing the dependants whose dependencies have now all finished.
    pub fn process_finished(&mut self, just_finished: Vec<SystemId>)
        requires
            old(self).wf(),
            just_finished@.no_duplicates(),
            forall|k: int| 0 <= k < just_finished@.len() ==> old(self).run_queue().running_view().contains(#[trigger] just_finished@[k]),
        ensures
            final(self).wf(),
            final(self).access_view() == old(self).access_view(),
            final(self).generation_view() == old(self).generation_view(),
            final(self).run_queue().n() == old(self).run_queue().n(),
            final(self).run_queue().dependants_view() == old(self).run_queue().dependants_view(),
            final(self).run_queue().dependencies_view() == old(self).run_queue().dependencies_view(),
            final(self).run_queue().initial_view() == old(self).run_queue().initial_view(),
            final(self).run_queue().finished_view() == old(self).run_queue().finished_view().union(index_set(just_finished@)),
            forall|y: SystemId| #[trigger] final(self).run_queue().running_view().contains(y) <==> (old(self).run_queue().running_view().contains(y) && !just_finished@.contains(y)),
            ({
                let (counters, released) = crate::run_queue::release_all(
                    old(self).run_queue().unsatisfied_view(),
                    crate::run_queue::gathered(old(self).run_queue().dependants_view(), just_finished@),
                );
                &&& final(self).run_queue().unsatisfied_view() == counters
                &&& final(self).run_queue().queue_view() == crate::queue_order::sort_by_dependants(
                    old(self).run_queue().queue_view() + crate::run_queue::entries_for(old(self).run_queue().dependants_view(), released),
                )
            }),
    {
        let ghost r0 = self.run_queue().running_view();
        let ghost access = self.access_view();
        self.queue.process_finished(just_finished);
        proof {
            let r = self.run_queue().running_view();
            assert forall|a: int, b: int|
                0 <= a < r.len() && 0 <= b < r.len() && a != b implies can_run_together(
                    access[#[trigger] r[a].0 as int],
                    access[#[trigger] r[b].0 as int],
                ) by {
                assert(r.contains(r[a]));
                assert(r.contains(r[b]));
                let a0 = choose|k: int| 0 <= k < r0.len() && r0[k] == r[a];
                let b0 = choose|k: int| 0 <= k < r0.len() && r0[k] == r[b];
                assert(r.no_duplicates());
            }
        }
    }

    /// Whether every system has run: nothing queued, nothing running.
    pub fn is_done(&self) -> (r: bool)
        ensures
            r == self.run_queue().idle(),
    {
        self.queue.is_done()
    }

    /// Number of running systems.
    pub fn running_count(&self) -> (r: usize)
        ensures
            r == self.run_queue().running_view().len(),
    {
        self.queue.running_count()
    }

    /// Number of queued systems.
    pub fn queued_count(&self) -> (r: usize)
        ensures
            r == self.run_queue().queue_view().len(),
    {
        self.queue.queued_count()
    }

    /// Whether `id` is running.
    pub fn is_running(&self, id: SystemId) -> (r: bool)
        ensures
            r == self.run_queue().running_view().contains(id),
    {
        self.queue.is_running(id)
    }

    /// Number of systems.
    pub fn len(&self) -> (r: usize)
        requires
            self.wf(),
        ensures
            r == self.run_queue().n(),
    {
        self.queue.len()
    }
}

/// While a scheduler is between calls, no two running systems conflict.
pub proof fn lemma_running_never_conflict(s: Scheduler, a: SystemId, b: SystemId)
    requires
        s.wf(),
        s.run_queue().running_view().contains(a),
        s.run_queue().running_view().contains(b),
        a != b,
    ensures
        can_run_together(s.access_view()[a.0 as int], s.access_view()[b.0 as int]),
{
    let r = s.run_queue().running_view();
    let i = choose|k: int| 0 <= k < r.len() && r[k] == a;
    let j = choose|k: int| 0 <= k < r.len() && r[k] == b;
}

/// When a run is over, nothing queued and nothing running, every system has finished and
/// no system waits on a dependency: the scheduler is ready for the next run.
pub proof fn lemma_run_leaves_idle(s: Scheduler)
    requires
        s.wf(),
        s.run_queue().idle(),
    ensures
        s.run_queue().finished_view() == crate::run_queue::all_indices(s.run_queue().n() as int),
        forall|x: int| 0 <= x < s.run_queue().n() ==> #[trigger] s.run_queue().unsatisfied_view()[x] == 0,
{
    s.run_queue().lemma_idle_means_all_finished();
}

} // verus!
