//! The scheduling executor for systems whose borrows never conflict: systems start as soon
//! as their dependencies have finished.
use vstd::prelude::*;
use crate::run_queue::{ids_of, lemma_ids_of, index_set, without_ids, RunQueue};
use crate::system_id::SystemId;

verus! {

/// A scheduler for systems known never to conflict: only dependencies order them. The
/// executor's plan does not choose it (systems with dependencies get the full scheduler);
/// it serves callers that know their systems to be disjoint.
pub struct DisjointScheduler {
    queue: RunQueue,
}

impl DisjointScheduler {
    /// The dependency bookkeeping.
    pub closed spec fn run_queue(&self) -> RunQueue {
        self.queue
    }

    pub open spec fn wf(&self) -> bool {
        self.run_queue().wf()
    }

    /// A scheduler between runs over the given dependency bookkeeping.
    pub fn new(queue: RunQueue) -> (r: Self)
        requires
            queue.wf(),
            queue.idle(),
        ensures
            r.wf(),
            r.run_queue() == queue,
    {
        DisjointScheduler { queue }
    }

    /// Starts a run: resets the dependency counters and queues the systems without
    /// dependencies.
    pub fn prepare(&mut self)
        requires
            old(self).wf(),
            old(self).run_queue().idle(),
        ensures
            final(self).wf(),
            final(self).run_queue().n() == old(self).run_queue().n(),
            final(self).run_queue().dependants_view() == old(self).run_queue().dependants_view(),
            final(self).run_queue().dependencies_view() == old(self).run_queue().dependencies_view(),
            final(self).run_queue().initial_view() == old(self).run_queue().initial_view(),
            final(self).run_queue().unsatisfied_view() == old(self).run_queue().dependencies_view(),
            final(self).run_queue().queue_view() == old(self).run_queue().initial_view(),
            final(self).run_queue().running_view().len() == 0,
            final(self).run_queue().finished_view() == Set::<int>::empty(),
    {
        self.queue.reset();
    }

    /// Starts every queued system, in queue order; returns them in that order.
    pub fn start_all_currently_runnable(&mut self) -> (started: Vec<SystemId>)
        requires
            old(self).wf(),
        ensures
            final(self).wf(),
            started@ == ids_of(old(self).run_queue().queue_view()),
            final(self).run_queue().queue_view().len() == 0,
            final(self).run_queue().running_view() == old(self).run_queue().running_view() + started@,
            final(self).run_queue().finished_view() == old(self).run_queue().finished_view(),
            final(self).run_queue().unsatisfied_view() == old(self).run_queue().unsatisfied_view(),
            final(self).run_queue().dependants_view() == old(self).run_queue().dependants_view(),
            final(self).run_queue().dependencies_view() == old(self).run_queue().dependencies_view(),
            final(self).run_queue().initial_view() == old(self).run_queue().initial_view(),
            final(self).run_queue().n() == old(self).run_queue().n(),
    {
        let ghost qv = self.run_queue().queue_view();
        proof {
            lemma_ids_of(qv);
        }
        let mut started: Vec<SystemId> = Vec::new();
        let count = self.queue.queued_count();
        let mut i: usize = 0;
        while i < count
            invariant
                self.wf(),
                qv == self.run_queue().queue_view(),
                count == qv.len(),
                0 <= i <= count,
                started@ == ids_of(qv).take(i as int),
            decreases count - i,
        {
            let entry = self.queue.queued_at(i);
            started.push(entry.0);
            proof {
                lemma_ids_of(qv);
                assert(ids_of(qv).take(i + 1) == ids_of(qv).take(i as int).push(entry.0));
            }
            i = i + 1;
        }
        proof {
            lemma_ids_of(qv);
            assert(ids_of(qv).take(i as int) == ids_of(qv));
            assert forall|k: int| 0 <= k < started@.len() implies ids_of(qv).contains(#[trigger] started@[k]) by {
                assert(ids_of(qv)[k] == started@[k]);
            }
        }
        self.queue.start(&started);
        proof {
            crate::run_queue::lemma_without_ids(qv, started@);
            let w = without_ids(qv, started@);
            if w.len() > 0 {
                assert(w.contains(w[0]));
                assert(qv.contains(w[0]));
                let k = choose|k: int| 0 <= k < qv.len() && qv[k] == w[0];
                assert(started@[k] == w[0].0);
                assert(started@.contains(w[0].0));
            }
        }
        started
    }

    /// Records that the systems in `just_finished` (each running, none twice) have finished,
    /// queueing the dependants whose dependencies have now all finished.
    pub fn process_finished(&mut self, just_finished: Vec<SystemId>)
        requires
            old(self).wf(),
            just_finished@.no_duplicates(),
            forall|k: int| 0 <= k < just_finished@.len() ==> old(self).run_queue().running_view().contains(#[trigger] just_finished@[k]),
        ensures
            final(self).wf(),
            final(self).run_queue().n() == old(self).run_queue().n(),
            final(self).run_queue().dependants_view() == old(self).run_queue().dependants_view(),
            final(self).run_queue().dependencies_view() == old(self).run_queue().dependencies_view(),
            final(self).run_queue().initial_view() == old(self).run_queue().initial_view(),
            final(self).run_queue().finished_view() == old(self).run_queue().finished_view().union(index_set(just_finished@)),
            forall|y: SystemId| #[trigger] final(self).run_queue().running_view().contains(y) <==> (old(self).run_queue().running_view().contains(y) && !just_finished@.contains(y)),
            ({
                let (counters, released) = crate::run_queue::release_all(
                    old(self).run_queue().unsatisfied_view(),
                    crate::run_queue::gathered(old(self).run_queue().dependants_view(), just_finished@),
                );
                &&& final(self).run_queue().unsatisfied_view() == counters
                &&& final(self).run_queue().queue_view() == crate::queue_order::sort_by_dependants(
                    old(self).run_queue().queue_view() + crate::run_queue::entries_for(old(self).run_queue().dependants_view(), released),
                )
            }),
    {
        self.queue.process_finished(just_finished);
    }

    /// Whether every system has run: nothing queued, nothing running.
    pub fn is_done(&self) -> (r: bool)
        ensures
            r == self.run_queue().idle(),
    {
        self.queue.is_done()
    }

    /// Number of running systems.
    pub fn running_count(&self) -> (r: usize)
        ensures
            r == self.run_queue().running_view().len(),
    {
        self.queue.running_count()
    }

    /// Whether `id` is running.
    pub fn is_running(&self, id: SystemId) -> (r: bool)
        ensures
            r == self.run_queue().running_view().contains(id),
    {
        self.queue.is_running(id)
    }

    /// Number of queued systems.
    pub fn queued_count(&self) -> (r: usize)
        ensures
            r == self.run_queue().queue_view().len(),
    {
        self.queue.queued_count()
    }

    /// Number of systems.
    pub fn len(&self) -> (r: usize)
        requires
            self.wf(),
        ensures
            r == self.run_queue().n(),
    {
        self.queue.len()
    }
}

} // verus!
