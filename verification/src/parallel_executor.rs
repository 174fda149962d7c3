//! The dependency-by-handle parallel executor: a system may start once every system it
//! depends on has finished and its borrows are compatible with those of the running systems.
use vstd::prelude::*;
use crate::access_set::{compatible, lemma_compatible_means_no_conflict, lemma_compatible_symmetric, positions_in};
use crate::metadata::borrows_compatible;
use crate::borrows::{CondensedBorrows, SystemBorrows};
use crate::bit_set::{bits_of, bitset_insert, bitset_is_disjoint, bitset_with_capacity, capacity_of};
use fixedbitset::FixedBitSet;
use crate::run_queue::contains_id;
use crate::system_id::SystemId;
use crate::type_set::{TypeKey, TypeSet};

verus! {

/// A system of the executor with what the executor knows of it.
pub struct SystemContainer {
    /// The systems it depends on.
    pub dependencies: Vec<SystemId>,
    /// Whether it takes part in runs.
    pub active: bool,
    /// What it borrows, by type.
    pub borrows: SystemBorrows,
    /// What it borrows, condensed over all types known to the executor.
    pub condensed: CondensedBorrows,
    /// The archetypes its queries touch in the coming run, when they are known.
    pub archetypes: Option<FixedBitSet>,
}

impl SystemContainer {
    /// An active system with the given dependencies and borrows; its borrows are not yet
    /// condensed and its archetypes are not yet known.
    pub fn new(dependencies: Vec<SystemId>, borrows: SystemBorrows) -> (r: Self)
        ensures
            r.dependencies@ == dependencies@,
            r.active,
            r.borrows == borrows,
            r.condensed.resources().immutable == Set::<usize>::empty(),
            r.condensed.resources().mutable == Set::<usize>::empty(),
            r.condensed.components().immutable == Set::<usize>::empty(),
            r.condensed.components().mutable == Set::<usize>::empty(),
            r.archetypes is None,
    {
        SystemContainer {
            dependencies,
            active: true,
            borrows,
            condensed: CondensedBorrows::with_capacity(0, 0),
            archetypes: None,
        }
    }
}

/// Whether the archetypes of two systems are known and no archetype is touched by both.
pub open spec fn archetypes_apart(a: SystemContainer, b: SystemContainer) -> bool {
    &&& a.archetypes is Some
    &&& b.archetypes is Some
    &&& bits_of(a.archetypes->0).disjoint(bits_of(b.archetypes->0))
}

/// Whether two systems may run at the same time: their resource borrows are compatible,
/// and so are their component borrows unless their queries touch disjoint archetypes.
pub open spec fn can_overlap(a: SystemContainer, b: SystemContainer) -> bool {
    &&& compatible(a.condensed.resources(), b.condensed.resources())
    &&& compatible(a.condensed.components(), b.condensed.components()) || archetypes_apart(a, b)
}

/// Whether `c` holds exactly the borrows `b`, condensed over the type orders: bit `i` of a
/// resource set stands for `res[i]`, bit `i` of a component set for `comp[i]`.
pub open spec fn condensed_over(c: CondensedBorrows, b: SystemBorrows, res: Seq<TypeKey>, comp: Seq<TypeKey>) -> bool {
    &&& c.resources().immutable == positions_in(res, b.resources_immutable@, res.len() as int)
    &&& c.resources().mutable == positions_in(res, b.resources_mutable@, res.len() as int)
    &&& c.components().immutable == positions_in(comp, b.components_immutable@, comp.len() as int)
    &&& c.components().mutable == positions_in(comp, b.components_mutable@, comp.len() as int)
}

/// Whether every type that `b` borrows is among the type orders.
pub open spec fn covered_by(b: SystemBorrows, res: Seq<TypeKey>, comp: Seq<TypeKey>) -> bool {
    &&& b.resources_immutable@.subset_of(res.to_set())
    &&& b.resources_mutable@.subset_of(res.to_set())
    &&& b.components_immutable@.subset_of(comp.to_set())
    &&& b.components_mutable@.subset_of(comp.to_set())
}

/// Over an order that holds every type of both sets, the positions of two type sets are
/// disjoint exactly when the sets are.
pub proof fn lemma_positions_disjoint(order: Seq<TypeKey>, a: Set<TypeKey>, b: Set<TypeKey>)
    requires
        a.subset_of(order.to_set()),
        b.subset_of(order.to_set()),
        order.len() <= usize::MAX,
    ensures
        positions_in(order, a, order.len() as int).disjoint(positions_in(order, b, order.len() as int)) == a.disjoint(b),
{
    let pa = positions_in(order, a, order.len() as int);
    let pb = positions_in(order, b, order.len() as int);
    if !a.disjoint(b) {
        let x = choose|x: TypeKey| a.contains(x) && b.contains(x);
        assert(order.to_set().contains(x));
        let j = choose|j: int| 0 <= j < order.len() && order[j] == x;
        let i = j as usize;
        assert(pa.contains(i) && pb.contains(i));
    }
    if !pa.disjoint(pb) {
        let i = choose|i: usize| pa.contains(i) && pb.contains(i);
        assert(a.contains(order[i as int]) && b.contains(order[i as int]));
    }
}

/// Condensed over orders that hold every type they borrow, two systems' bits are
/// compatible exactly when the types they borrow are.
pub proof fn lemma_condensed_compatible(
    ca: CondensedBorrows,
    ba: SystemBorrows,
    cb: CondensedBorrows,
    bb: SystemBorrows,
    res: Seq<TypeKey>,
    comp: Seq<TypeKey>,
)
    requires
        condensed_over(ca, ba, res, comp),
        condensed_over(cb, bb, res, comp),
        covered_by(ba, res, comp),
        covered_by(bb, res, comp),
        res.len() <= usize::MAX,
        comp.len() <= usize::MAX,
    ensures
        compatible(ca.resources(), cb.resources()) == borrows_compatible(
            ba.resources_immutable@, ba.resources_mutable@, bb.resources_immutable@, bb.resources_mutable@),
        compatible(ca.components(), cb.components()) == borrows_compatible(
            ba.components_immutable@, ba.components_mutable@, bb.components_immutable@, bb.components_mutable@),
{
    lemma_positions_disjoint(res, ba.resources_mutable@, bb.resources_mutable@);
    lemma_positions_disjoint(res, ba.resources_mutable@, bb.resources_immutable@);
    lemma_positions_disjoint(res, ba.resources_immutable@, bb.resources_mutable@);
    lemma_positions_disjoint(comp, ba.components_mutable@, bb.components_mutable@);
    lemma_positions_disjoint(comp, ba.components_mutable@, bb.components_immutable@);
    lemma_positions_disjoint(comp, ba.components_immutable@, bb.components_mutable@);
}

/// Whether two systems may run at the same time does not depend on their order.
pub proof fn lemma_can_overlap_symmetric(a: SystemContainer, b: SystemContainer)
    ensures
        can_overlap(a, b) == can_overlap(b, a),
{
    lemma_compatible_symmetric(a.condensed.resources(), b.condensed.resources());
    lemma_compatible_symmetric(a.condensed.components(), b.condensed.components());
    if archetypes_apart(a, b) {
        assert(bits_of(b.archetypes->0).disjoint(bits_of(a.archetypes->0)));
    }
    if archetypes_apart(b, a) {
        assert(bits_of(a.archetypes->0).disjoint(bits_of(b.archetypes->0)));
    }
}

/// Two systems may run at the same time exactly when neither writes a resource that the
/// other reads or writes, and neither writes a component type that the other reads or
/// writes, unless the archetypes of both are recorded and no archetype is touched by both.
pub proof fn lemma_can_overlap_means_no_clash(a: SystemContainer, b: SystemContainer)
    ensures
        can_overlap(a, b) <==> {
            &&& forall|x: usize| !((bits_of(a.condensed.resources_mutable).contains(x)
                && (bits_of(b.condensed.resources_mutable).contains(x) || bits_of(b.condensed.resources_immutable).contains(x)))
                || (bits_of(b.condensed.resources_mutable).contains(x) && bits_of(a.condensed.resources_immutable).contains(x)))
            &&& (forall|x: usize| !((bits_of(a.condensed.components_mutable).contains(x)
                && (bits_of(b.condensed.components_mutable).contains(x) || bits_of(b.condensed.components_immutable).contains(x)))
                || (bits_of(b.condensed.components_mutable).contains(x) && bits_of(a.condensed.components_immutable).contains(x))))
                || (a.archetypes is Some && b.archetypes is Some && forall|x: usize|
                    !(bits_of(a.archetypes->0).contains(x) && #[trigger] bits_of(b.archetypes->0).contains(x)))
        },
{
    lemma_compatible_means_no_conflict(a.condensed.resources(), b.condensed.resources());
    lemma_compatible_means_no_conflict(a.condensed.components(), b.condensed.components());
}

/// The systems of `ids` that are active, in order.
pub open spec fn active_ids(ids: Seq<SystemId>, systems: Seq<SystemContainer>) -> Seq<SystemId>
    decreases ids.len(),
{
    if ids.len() == 0 {
        ids
    } else if systems[ids.last().0 as int].active {
        active_ids(ids.drop_last(), systems).push(ids.last())
    } else {
        active_ids(ids.drop_last(), systems)
    }
}

/// The active systems are among `ids`, each once when `ids` holds no repetition.
pub proof fn lemma_active_ids(ids: Seq<SystemId>, systems: Seq<SystemContainer>)
    ensures
        forall|x: SystemId| #[trigger] active_ids(ids, systems).contains(x) ==> ids.contains(x) && systems[x.0 as int].active,
        ids.no_duplicates() ==> active_ids(ids, systems).no_duplicates(),
    decreases ids.len(),
{
    if ids.len() > 0 {
        let d = ids.drop_last();
        lemma_active_ids(d, systems);
        let a = active_ids(d, systems);
        let r = active_ids(ids, systems);
        assert forall|x: SystemId| #[trigger] d.contains(x) implies ids.contains(x) by {
            let k = choose|k: int| 0 <= k < d.len() && d[k] == x;
            assert(ids[k] == x);
        }
        assert forall|x: SystemId| #[trigger] r.contains(x) implies ids.contains(x) && systems[x.0 as int].active by {
            let k = choose|k: int| 0 <= k < r.len() && r[k] == x;
            if k < a.len() {
                assert(a[k] == x);
                assert(a.contains(x));
            } else {
                assert(ids[ids.len() - 1] == x);
            }
        }
        if ids.no_duplicates() {
            assert(d.no_duplicates()) by {
                assert forall|i: int, j: int| 0 <= i < j < d.len() implies d[i] != d[j] by {
                    assert(ids[i] == d[i]);
                    assert(ids[j] == d[j]);
                }
            }
            assert forall|i: int, j: int| 0 <= i < j < r.len() implies r[i] != r[j] by {
                if j == a.len() && systems[ids.last().0 as int].active {
                    assert(a.contains(r[i]));
                    assert(d.contains(r[i]));
                    let k = choose|k: int| 0 <= k < d.len() && d[k] == r[i];
                    assert(ids[k] == d[k]);
                } else {
                    assert(r[i] == a[i]);
                    assert(r[j] == a[j]);
                }
            }
        }
    }
}

/// Only the active flags of the listed systems matter.
pub proof fn lemma_active_ids_same(ids: Seq<SystemId>, a: Seq<SystemContainer>, b: Seq<SystemContainer>)
    requires
        forall|k: int| 0 <= k < ids.len() ==> a[(#[trigger] ids[k]).0 as int].active == b[ids[k].0 as int].active,
    ensures
        active_ids(ids, a) == active_ids(ids, b),
    decreases ids.len(),
{
    if ids.len() > 0 {
        let d = ids.drop_last();
        assert forall|k: int| 0 <= k < d.len() implies a[(#[trigger] d[k]).0 as int].active == b[d[k].0 as int].active by {
            assert(ids[k] == d[k]);
        }
        lemma_active_ids_same(d, a, b);
        assert(a[ids[ids.len() - 1].0 as int].active == b[ids[ids.len() - 1].0 as int].active);
    }
}

/// Whether system `x` may start while the systems `cur` run, given the finished systems.
pub open spec fn runnable_with(systems: Seq<SystemContainer>, finished: Seq<SystemId>, x: SystemId, cur: Seq<SystemId>) -> bool {
    let s = systems[x.0 as int];
    &&& forall|k: int| 0 <= k < s.dependencies@.len() ==> finished.contains(#[trigger] s.dependencies@[k])
    &&& forall|k: int| 0 <= k < cur.len() ==> can_overlap(s, systems[(#[trigger] cur[k]).0 as int])
}

/// The systems started from `to_run`, in order: each that may start alongside the running
/// systems and those started before it.
pub open spec fn started_from(systems: Seq<SystemContainer>, finished: Seq<SystemId>, to_run: Seq<SystemId>, cur: Seq<SystemId>) -> Seq<SystemId>
    decreases to_run.len(),
{
    if to_run.len() == 0 {
        Seq::empty()
    } else {
        let prev = started_from(systems, finished, to_run.drop_last(), cur);
        if runnable_with(systems, finished, to_run.last(), cur + prev) {
            prev.push(to_run.last())
        } else {
            prev
        }
    }
}

/// `s` without the elements of `removed`, in order.
pub open spec fn without(s: Seq<SystemId>, removed: Seq<SystemId>) -> Seq<SystemId>
    decreases s.len(),
{
    if s.len() == 0 {
        s
    } else if removed.contains(s.last()) {
        without(s.drop_last(), removed)
    } else {
        without(s.drop_last(), removed).push(s.last())
    }
}

pub proof fn lemma_without(s: Seq<SystemId>, removed: Seq<SystemId>)
    ensures
        forall|x: SystemId| #[trigger] without(s, removed).contains(x) <==> (s.contains(x) && !removed.contains(x)),
        s.no_duplicates() ==> without(s, removed).no_duplicates(),
    decreases s.len(),
{
    if s.len() > 0 {
        let d = s.drop_last();
        lemma_without(d, removed);
        let w = without(d, removed);
        assert forall|x: SystemId| #[trigger] s.contains(x) <==> (d.contains(x) || x == s.last()) by {
            if s.contains(x) {
                let j = choose|j: int| 0 <= j < s.len() && s[j] == x;
                if j < s.len() - 1 {
                    assert(d[j] == x);
                }
            }
            if d.contains(x) {
                let j = choose|j: int| 0 <= j < d.len() && d[j] == x;
                assert(s[j] == x);
            }
        }
        if s.no_duplicates() {
            assert(d.no_duplicates()) by {
                assert forall|i: int, j: int| 0 <= i < j < d.len() implies d[i] != d[j] by {
                    assert(s[i] == d[i]);
                    assert(s[j] == d[j]);
                }
            }
            assert(!d.contains(s.last())) by {
                if d.contains(s.last()) {
                    let j = choose|j: int| 0 <= j < d.len() && d[j] == s.last();
                    assert(s[j] == s[s.len() - 1]);
                }
            }
        }
        if !removed.contains(s.last()) {
            let r = w.push(s.last());
            assert forall|x: SystemId| #[trigger] r.contains(x) <==> (w.contains(x) || x == s.last()) by {
                if r.contains(x) {
                    let j = choose|j: int| 0 <= j < r.len() && r[j] == x;
                    if j < w.len() {
                        assert(w[j] == x);
                    }
                }
                if w.contains(x) {
                    let j = choose|j: int| 0 <= j < w.len() && w[j] == x;
                    assert(r[j] == x);
                }
                if x == s.last() {
                    assert(r[w.len() as int] == x);
                }
            }
            if s.no_duplicates() {
                assert forall|i: int, j: int| 0 <= i < j < r.len() implies r[i] != r[j] by {
                    if j == w.len() {
                        assert(w.contains(r[i]));
                    } else {
                        assert(r[i] == w[i]);
                        assert(r[j] == w[j]);
                    }
                }
            }
        }
    }
}

pub proof fn lemma_started_from(systems: Seq<SystemContainer>, finished: Seq<SystemId>, to_run: Seq<SystemId>, cur: Seq<SystemId>)
    ensures
        ({
            let g = started_from(systems, finished, to_run, cur);
            &&& forall|x: SystemId| #[trigger] g.contains(x) ==> to_run.contains(x)
            &&& to_run.no_duplicates() ==> g.no_duplicates()
            &&& forall|k: int| 0 <= k < g.len() ==> runnable_with(systems, finished, #[trigger] g[k], cur + g.take(k))
        }),
    decreases to_run.len(),
{
    if to_run.len() > 0 {
        let d = to_run.drop_last();
        let x = to_run.last();
        lemma_started_from(systems, finished, d, cur);
        let p = started_from(systems, finished, d, cur);
        let g = started_from(systems, finished, to_run, cur);
        assert forall|y: SystemId| #[trigger] d.contains(y) implies to_run.contains(y) by {
            let j = choose|j: int| 0 <= j < d.len() && d[j] == y;
            assert(to_run[j] == y);
        }
        if to_run.no_duplicates() {
            assert(d.no_duplicates()) by {
                assert forall|i: int, j: int| 0 <= i < j < d.len() implies d[i] != d[j] by {
                    assert(to_run[i] == d[i]);
                    assert(to_run[j] == d[j]);
                }
            }
        }
        if runnable_with(systems, finished, x, cur + p) {
            assert forall|y: SystemId| #[trigger] g.contains(y) implies to_run.contains(y) by {
                let j = choose|j: int| 0 <= j < g.len() && g[j] == y;
                if j < p.len() {
                    assert(p[j] == y);
                    assert(p.contains(y));
                } else {
                    assert(to_run[to_run.len() - 1] == y);
                }
            }
            if to_run.no_duplicates() {
                assert(!d.contains(x)) by {
                    if d.contains(x) {
                        let j = choose|j: int| 0 <= j < d.len() && d[j] == x;
                        assert(to_run[j] == to_run[to_run.len() - 1]);
                    }
                }
                assert forall|i: int, j: int| 0 <= i < j < g.len() implies g[i] != g[j] by {
                    if j == p.len() {
                        assert(p.contains(g[i]));
                    } else {
                        assert(g[i] == p[i]);
                        assert(g[j] == p[j]);
                    }
                }
            }
            assert forall|k: int| 0 <= k < g.len() implies runnable_with(systems, finished, #[trigger] g[k], cur + g.take(k)) by {
                if k < p.len() {
                    assert(g[k] == p[k]);
                    assert(g.take(k) == p.take(k));
                } else {
                    assert(g.take(k) == p);
                }
            }
        }
    }
}

/// Every system that a pass starts has seen each of its dependencies finish, and may run
/// alongside every system running when it starts.
pub proof fn lemma_started_after_dependencies(
    systems: Seq<SystemContainer>,
    finished: Seq<SystemId>,
    to_run: Seq<SystemId>,
    cur: Seq<SystemId>,
    k: int,
)
    requires
        0 <= k < started_from(systems, finished, to_run, cur).len(),
    ensures
        ({
            let g = started_from(systems, finished, to_run, cur);
            let s = systems[g[k].0 as int];
            &&& forall|d: int| 0 <= d < s.dependencies@.len() ==> finished.contains(#[trigger] s.dependencies@[d])
            &&& forall|j: int| 0 <= j < cur.len() ==> can_overlap(s, systems[(#[trigger] cur[j]).0 as int])
            &&& forall|j: int| 0 <= j < k ==> can_overlap(s, systems[(#[trigger] g[j]).0 as int])
        }),
{
    lemma_started_from(systems, finished, to_run, cur);
    let g = started_from(systems, finished, to_run, cur);
    assert(runnable_with(systems, finished, g[k], cur + g.take(k)));
    let all = cur + g.take(k);
    assert forall|j: int| 0 <= j < cur.len() implies can_overlap(systems[g[k].0 as int], systems[(#[trigger] cur[j]).0 as int]) by {
        assert(all[j] == cur[j]);
    }
    assert forall|j: int| 0 <= j < k implies can_overlap(systems[g[k].0 as int], systems[(#[trigger] g[j]).0 as int]) by {
        assert(all[cur.len() + j] == g[j]);
    }
}

proof fn lemma_not_runnable_grows(systems: Seq<SystemContainer>, finished: Seq<SystemId>, x: SystemId, a: Seq<SystemId>, b: Seq<SystemId>)
    requires
        !runnable_with(systems, finished, x, a),
        forall|y: SystemId| #[trigger] a.contains(y) ==> b.contains(y),
    ensures
        !runnable_with(systems, finished, x, b),
{
    let s = systems[x.0 as int];
    if forall|k: int| 0 <= k < s.dependencies@.len() ==> finished.contains(#[trigger] s.dependencies@[k]) {
        let k = choose|k: int| 0 <= k < a.len() && !can_overlap(s, systems[(#[trigger] a[k]).0 as int]);
        assert(a.contains(a[k]));
        let m = choose|m: int| 0 <= m < b.len() && b[m] == a[k];
        assert(!can_overlap(s, systems[b[m].0 as int]));
    }
}

/// A pass starts every waiting system that may start: a waiting system left out either
/// has a dependency that has not finished, or conflicts with a system that runs once the
/// pass is over.
pub proof fn lemma_started_from_maximal(systems: Seq<SystemContainer>, finished: Seq<SystemId>, to_run: Seq<SystemId>, cur: Seq<SystemId>)
    ensures
        forall|x: SystemId| #[trigger] to_run.contains(x) && !started_from(systems, finished, to_run, cur).contains(x)
            ==> !runnable_with(systems, finished, x, cur + started_from(systems, finished, to_run, cur)),
    decreases to_run.len(),
{
    if to_run.len() > 0 {
        let d = to_run.drop_last();
        let x = to_run.last();
        lemma_started_from_maximal(systems, finished, d, cur);
        let p = started_from(systems, finished, d, cur);
        let g = started_from(systems, finished, to_run, cur);
        assert forall|y: SystemId| #[trigger] to_run.contains(y) && !g.contains(y)
            implies !runnable_with(systems, finished, y, cur + g) by {
            let j = choose|j: int| 0 <= j < to_run.len() && to_run[j] == y;
            if j < d.len() {
                assert(d[j] == y);
                assert(d.contains(y));
            }
            if runnable_with(systems, finished, x, cur + p) {
                assert(g == p.push(x));
                assert(g[p.len() as int] == x);
                if y == x {
                    assert(g.contains(x));
                }
                assert(!p.contains(y)) by {
                    if p.contains(y) {
                        let m = choose|m: int| 0 <= m < p.len() && p[m] == y;
                        assert(g[m] == y);
                    }
                }
                assert forall|z: SystemId| #[trigger] (cur + p).contains(z) implies (cur + g).contains(z) by {
                    let m = choose|m: int| 0 <= m < (cur + p).len() && (cur + p)[m] == z;
                    if m < cur.len() {
                        assert((cur + g)[m] == z);
                    } else {
                        assert(p[m - cur.len()] == z);
                        assert(g[m - cur.len()] == z);
                        assert((cur + g)[m] == z);
                    }
                }
                lemma_not_runnable_grows(systems, finished, y, cur + p, cur + g);
            } else {
                assert(g == p);
            }
        }
    }
}

/// Whether every dependency of system `x` is among the finished systems.
pub open spec fn dependencies_done(systems: Seq<SystemContainer>, finished: Seq<SystemId>, x: SystemId) -> bool {
    let s = systems[x.0 as int];
    forall|k: int| 0 <= k < s.dependencies@.len() ==> finished.contains(#[trigger] s.dependencies@[k])
}

/// A pass with nothing running starts a system whenever some waiting system has all of its
/// dependencies finished.
pub proof fn lemma_started_progress(systems: Seq<SystemContainer>, finished: Seq<SystemId>, to_run: Seq<SystemId>)
    ensures
        started_from(systems, finished, to_run, Seq::empty()).len() == 0 ==> forall|k: int|
            0 <= k < to_run.len() ==> !dependencies_done(systems, finished, #[trigger] to_run[k]),
    decreases to_run.len(),
{
    if to_run.len() > 0 {
        let d = to_run.drop_last();
        lemma_started_progress(systems, finished, d);
        let p = started_from(systems, finished, d, Seq::empty());
        let g = started_from(systems, finished, to_run, Seq::empty());
        if g.len() == 0 {
            assert(p.len() == 0);
            assert(Seq::<SystemId>::empty() + p =~= Seq::<SystemId>::empty());
            assert forall|k: int| 0 <= k < to_run.len() implies !dependencies_done(systems, finished, #[trigger] to_run[k]) by {
                if k < to_run.len() - 1 {
                    assert(to_run[k] == d[k]);
                }
            }
        }
    }
}

/// Executor over systems `0..n` that starts systems as their dependencies finish.
pub struct ParallelExecutor {
    systems: Vec<SystemContainer>,
    systems_sorted: Vec<SystemId>,
    all_resources: TypeSet,
    all_components: TypeSet,
    dirty: bool,
    systems_to_run: Vec<SystemId>,
    current_systems: Vec<SystemId>,
    finished_systems: Vec<SystemId>,
}

impl ParallelExecutor {
    pub closed spec fn systems_view(&self) -> Seq<SystemContainer> {
        self.systems@
    }

    pub closed spec fn sorted_view(&self) -> Seq<SystemId> {
        self.systems_sorted@
    }

    pub closed spec fn to_run_view(&self) -> Seq<SystemId> {
        self.systems_to_run@
    }

    pub closed spec fn current_view(&self) -> Seq<SystemId> {
        self.current_systems@
    }

    pub closed spec fn finished_view(&self) -> Seq<SystemId> {
        self.finished_systems@
    }

    pub closed spec fn dirty_view(&self) -> bool {
        self.dirty
    }

    /// Every resource type some system borrows, in the order their bits stand for.
    pub closed spec fn resource_types(&self) -> Seq<TypeKey> {
        self.all_resources.order()
    }

    /// Every component type some system borrows, in the order their bits stand for.
    pub closed spec fn component_types(&self) -> Seq<TypeKey> {
        self.all_components.order()
    }

    /// Since the last condensation no system was added: every system's condensed borrows
    /// hold exactly its borrows over type orders that hold every borrowed type.
    pub open spec fn condensed(&self) -> bool {
        let rt = self.resource_types();
        let ct = self.component_types();
        &&& rt.len() <= usize::MAX
        &&& ct.len() <= usize::MAX
        &&& forall|i: int| 0 <= i < self.systems_view().len() ==> {
            &&& condensed_over((#[trigger] self.systems_view()[i]).condensed, self.systems_view()[i].borrows, rt, ct)
            &&& covered_by(self.systems_view()[i].borrows, rt, ct)
        }
    }

    /// Whether `x` is a system of the executor.
    pub open spec fn valid(&self, x: SystemId) -> bool {
        x.0 < self.systems_view().len()
    }

    /// Whether system `x` may start now: all its dependencies have finished and its borrows
    /// are compatible with those of every running system.
    pub open spec fn runnable(&self, x: SystemId) -> bool {
        let s = self.systems_view()[x.0 as int];
        &&& forall|k: int| 0 <= k < s.dependencies@.len() ==> self.finished_view().contains(#[trigger] s.dependencies@[k])
        &&& forall|k: int| 0 <= k < self.current_view().len() ==> can_overlap(
            s,
            self.systems_view()[(#[trigger] self.current_view()[k]).0 as int],
        )
    }

    pub open spec fn wf(&self) -> bool {
        let n = self.systems_view().len();
        let cur = self.current_view();
        &&& forall|i: int, k: int| 0 <= i < n && 0 <= k < self.systems_view()[i].dependencies@.len()
            ==> self.valid(#[trigger] self.systems_view()[i].dependencies@[k])
        &&& forall|k: int| 0 <= k < self.sorted_view().len() ==> self.valid(#[trigger] self.sorted_view()[k])
        &&& forall|k: int| 0 <= k < self.to_run_view().len() ==> self.valid(#[trigger] self.to_run_view()[k])
        &&& forall|k: int| 0 <= k < cur.len() ==> self.valid(#[trigger] cur[k])
        &&& forall|k: int| 0 <= k < self.finished_view().len() ==> self.valid(#[trigger] self.finished_view()[k])
        &&& self.to_run_view().no_duplicates()
        &&& cur.no_duplicates()
        &&& forall|x: SystemId| #[trigger] cur.contains(x) ==> !self.to_run_view().contains(x) && !self.finished_view().contains(x)
        &&& self.finished_view().no_duplicates()
        &&& forall|x: SystemId| #[trigger] self.finished_view().contains(x) ==> !self.to_run_view().contains(x)
        &&& forall|a: int, b: int| 0 <= a < cur.len() && 0 <= b < cur.len() && a != b ==> can_overlap(
            self.systems_view()[(#[trigger] cur[a]).0 as int],
            self.systems_view()[(#[trigger] cur[b]).0 as int],
        )
        &&& self.sorted_view().no_duplicates()
        &&& !self.dirty_view() ==> self.condensed()
        &&& forall|x: SystemId| #[trigger] self.to_run_view().contains(x) ==> self.systems_view()[x.0 as int].active
        &&& forall|x: SystemId| #[trigger] cur.contains(x) ==> self.systems_view()[x.0 as int].active
        &&& forall|x: SystemId| #[trigger] self.finished_view().contains(x) ==> self.systems_view()[x.0 as int].active
    }

    /// An executor without systems.
    pub fn new() -> (r: Self)
        ensures
            r.wf(),
            r.systems_view().len() == 0,
            r.dirty_view(),
    {
        ParallelExecutor {
            systems: Vec::new(),
            systems_sorted: Vec::new(),
            all_resources: TypeSet::new(),
            all_components: TypeSet::new(),
            dirty: true,
            systems_to_run: Vec::new(),
            current_systems: Vec::new(),
            finished_systems: Vec::new(),
        }
    }

    /// Adds an active system that depends on the given systems; it runs in the order of
    /// insertion among the systems that can start.
    pub fn add(&mut self, dependencies: Vec<SystemId>, borrows: SystemBorrows) -> (id: SystemId)
        requires
            old(self).wf(),
            old(self).to_run_view().len() == 0,
            old(self).current_view().len() == 0,
            forall|k: int| 0 <= k < dependencies@.len() ==> old(self).valid(#[trigger] dependencies@[k]),
        ensures
            final(self).wf(),
            id.0 == old(self).systems_view().len(),
            final(self).systems_view().len() == old(self).systems_view().len() + 1,
            final(self).systems_view().last().dependencies@ == dependencies@,
            final(self).systems_view().last().active,
            forall|i: int| 0 <= i < old(self).systems_view().len() ==> #[trigger] final(self).systems_view()[i] == old(self).systems_view()[i],
            final(self).sorted_view() == old(self).sorted_view().push(id),
            final(self).dirty_view(),
            final(self).to_run_view().len() == 0,
            final(self).current_view().len() == 0,
    {
        let id = SystemId(self.systems.len());
        let ghost s0 = self.systems@;
        self.systems.push(SystemContainer::new(dependencies, borrows));
        self.systems_sorted.push(id);
        self.dirty = true;
        proof {
            assert forall|i: int, k: int| 0 <= i < self.systems@.len() && 0 <= k < self.systems@[i].dependencies@.len()
                implies self.valid(#[trigger] self.systems@[i].dependencies@[k]) by {
                if i < s0.len() {
                    assert(self.systems@[i] == s0[i]);
                }
            }
            assert forall|k: int| 0 <= k < self.systems_sorted@.len() implies self.valid(#[trigger] self.systems_sorted@[k]) by {
                if k < old(self).sorted_view().len() {
                    assert(self.systems_sorted@[k] == old(self).sorted_view()[k]);
                    assert(old(self).valid(old(self).sorted_view()[k]));
                }
            }
            assert forall|k: int| 0 <= k < self.finished_systems@.len() implies self.valid(#[trigger] self.finished_systems@[k]) by {
                assert(self.finished_systems@[k] == old(self).finished_view()[k]);
                assert(old(self).valid(old(self).finished_view()[k]));
            }
        }
        id
    }

    /// Collects every resource and component type any system borrows, and condenses each
    /// system's borrows into bit sets over them.
    pub(crate) fn maintain(&mut self)
        requires
            old(self).wf(),
            old(self).current_view().len() == 0,
        ensures
            final(self).wf(),
            !final(self).dirty_view(),
            final(self).condensed(),
            final(self).systems_view().len() == old(self).systems_view().len(),
            forall|i: int| 0 <= i < final(self).systems_view().len() ==> {
                &&& (#[trigger] final(self).systems_view()[i]).dependencies@ == old(self).systems_view()[i].dependencies@
                &&& final(self).systems_view()[i].active == old(self).systems_view()[i].active
                &&& final(self).systems_view()[i].borrows == old(self).systems_view()[i].borrows
                &&& final(self).systems_view()[i].archetypes == old(self).systems_view()[i].archetypes
                &&& final(self).systems_view()[i].condensed.within()
            },
            final(self).sorted_view() == old(self).sorted_view(),
            final(self).to_run_view() == old(self).to_run_view(),
            final(self).current_view() == old(self).current_view(),
            final(self).finished_view() == old(self).finished_view(),
    {
        self.all_resources.clear();
        self.all_components.clear();
        let n = self.systems.len();
        let mut i: usize = 0;
        while i < n
            invariant
                n == self.systems@.len(),
                0 <= i <= n,
                self.systems@ == old(self).systems@,
                self.systems_sorted@ == old(self).systems_sorted@,
                self.systems_to_run@ == old(self).systems_to_run@,
                self.current_systems@ == old(self).current_systems@,
                self.finished_systems@ == old(self).finished_systems@,
                forall|k: int| 0 <= k < i ==> {
                    &&& (#[trigger] self.systems@[k]).borrows.resources_immutable@.subset_of(self.all_resources@)
                    &&& self.systems@[k].borrows.resources_mutable@.subset_of(self.all_resources@)
                    &&& self.systems@[k].borrows.components_immutable@.subset_of(self.all_components@)
                    &&& self.systems@[k].borrows.components_mutable@.subset_of(self.all_components@)
                },
            decreases n - i,
        {
            self.all_resources.extend(&self.systems[i].borrows.resources_mutable);
            self.all_resources.extend(&self.systems[i].borrows.resources_immutable);
            self.all_components.extend(&self.systems[i].borrows.components_mutable);
            self.all_components.extend(&self.systems[i].borrows.components_immutable);
            i = i + 1;
        }
        let resources = self.all_resources.to_vec();
        let components = self.all_components.to_vec();
        let ghost rt = resources@;
        let ghost ct = components@;
        let resource_count = resources.len();
        let component_count = components.len();
        let mut j: usize = 0;
        while j < n
            invariant
                n == self.systems@.len(),
                0 <= j <= n,
                rt == resources@,
                ct == components@,
                rt == self.all_resources.order(),
                ct == self.all_components.order(),
                rt.to_set() == self.all_resources@,
                ct.to_set() == self.all_components@,
                self.systems@.len() == old(self).systems@.len(),
                forall|k: int| 0 <= k < n ==> (#[trigger] self.systems@[k]).dependencies@ == old(self).systems@[k].dependencies@
                    && self.systems@[k].active == old(self).systems@[k].active
                    && self.systems@[k].borrows == old(self).systems@[k].borrows
                    && self.systems@[k].archetypes == old(self).systems@[k].archetypes,
                forall|k: int| 0 <= k < n ==> {
                    &&& (#[trigger] old(self).systems@[k]).borrows.resources_immutable@.subset_of(self.all_resources@)
                    &&& old(self).systems@[k].borrows.resources_mutable@.subset_of(self.all_resources@)
                    &&& old(self).systems@[k].borrows.components_immutable@.subset_of(self.all_components@)
                    &&& old(self).systems@[k].borrows.components_mutable@.subset_of(self.all_components@)
                },
                forall|k: int| 0 <= k < j ==> (#[trigger] self.systems@[k]).condensed.within()
                    && condensed_over(self.systems@[k].condensed, self.systems@[k].borrows, rt, ct),
                self.systems_sorted@ == old(self).systems_sorted@,
                self.systems_to_run@ == old(self).systems_to_run@,
                self.current_systems@ == old(self).current_systems@,
                self.finished_systems@ == old(self).finished_systems@,
            decreases n - j,
        {
            let mut condensed = CondensedBorrows::with_capacity(resources.len(), components.len());
            condensed.fill(&self.systems[j].borrows, resources.as_slice(), components.as_slice());
            let mut taken = SystemContainer {
                dependencies: Vec::new(),
                active: false,
                borrows: SystemBorrows::new(),
                condensed: CondensedBorrows::with_capacity(0, 0),
                archetypes: None,
            };
            let ghost before = self.systems@;
            self.systems.set_and_swap(j, &mut taken);
            let SystemContainer { dependencies, active, borrows, condensed: _, archetypes } = taken;
            let mut updated = SystemContainer { dependencies, active, borrows, condensed, archetypes };
            self.systems.set_and_swap(j, &mut updated);
            proof {
                let c = self.systems@[j as int].condensed;
                assert(c.resources().immutable =~= positions_in(rt, self.systems@[j as int].borrows.resources_immutable@, rt.len() as int));
                assert(c.resources().mutable =~= positions_in(rt, self.systems@[j as int].borrows.resources_mutable@, rt.len() as int));
                assert(c.components().immutable =~= positions_in(ct, self.systems@[j as int].borrows.components_immutable@, ct.len() as int));
                assert(c.components().mutable =~= positions_in(ct, self.systems@[j as int].borrows.components_mutable@, ct.len() as int));
                assert forall|k: int| 0 <= k < j implies (#[trigger] self.systems@[k]).condensed.within()
                    && condensed_over(self.systems@[k].condensed, self.systems@[k].borrows, rt, ct) by {
                    assert(self.systems@[k] == before[k]);
                }
            }
            j = j + 1;
        }
        self.dirty = false;
        proof {
            assert(resource_count == rt.len());
            assert(component_count == ct.len());
            assert forall|i: int| 0 <= i < self.systems@.len() implies {
                &&& condensed_over((#[trigger] self.systems_view()[i]).condensed, self.systems_view()[i].borrows, self.resource_types(), self.component_types())
                &&& covered_by(self.systems_view()[i].borrows, self.resource_types(), self.component_types())
            } by {
                assert(old(self).systems@[i].borrows == self.systems@[i].borrows);
            }
            assert forall|i: int, k: int| 0 <= i < self.systems@.len() && 0 <= k < self.systems@[i].dependencies@.len()
                implies self.valid(#[trigger] self.systems@[i].dependencies@[k]) by {
                assert(old(self).systems_view()[i].dependencies@[k] == self.systems@[i].dependencies@[k]);
                assert(old(self).valid(old(self).systems_view()[i].dependencies@[k]));
            }
            assert forall|k: int| 0 <= k < self.systems_sorted@.len() implies self.valid(#[trigger] self.systems_sorted@[k]) by {
                assert(old(self).valid(old(self).sorted_view()[k]));
            }
            assert forall|k: int| 0 <= k < self.finished_systems@.len() implies self.valid(#[trigger] self.finished_systems@[k]) by {
                assert(old(self).valid(old(self).finished_view()[k]));
            }
            assert forall|k: int| 0 <= k < self.systems_to_run@.len() implies self.valid(#[trigger] self.systems_to_run@[k]) by {
                assert(old(self).valid(old(self).to_run_view()[k]));
            }
        }
    }

    /// Starts a run: forgets what ran in an earlier run, condenses borrows if systems were
    /// added since the last run, and queues every active system in sorted order.
    pub fn begin_run(&mut self)
        requires
            old(self).wf(),
        ensures
            final(self).wf(),
            !final(self).dirty_view(),
            final(self).condensed(),
            final(self).systems_view().len() == old(self).systems_view().len(),
            forall|i: int| 0 <= i < final(self).systems_view().len() ==> {
                &&& (#[trigger] final(self).systems_view()[i]).dependencies@ == old(self).systems_view()[i].dependencies@
                &&& final(self).systems_view()[i].active == old(self).systems_view()[i].active
                &&& final(self).systems_view()[i].borrows == old(self).systems_view()[i].borrows
                &&& final(self).systems_view()[i].archetypes == old(self).systems_view()[i].archetypes
            },
            final(self).sorted_view() == old(self).sorted_view(),
            final(self).current_view().len() == 0,
            final(self).finished_view().len() == 0,
            final(self).to_run_view() == active_ids(old(self).sorted_view(), old(self).systems_view()),
    {
        self.systems_to_run = Vec::new();
        self.current_systems = Vec::new();
        self.finished_systems = Vec::new();
        if self.dirty {
            self.maintain();
        }
        let ghost systems = self.systems@;
        let ghost sorted = self.systems_sorted@;
        let mut to_run: Vec<SystemId> = Vec::new();
        let mut i: usize = 0;
        while i < self.systems_sorted.len()
            invariant
                0 <= i <= sorted.len(),
                sorted == self.systems_sorted@,
                systems == self.systems@,
                forall|k: int| 0 <= k < sorted.len() ==> (#[trigger] sorted[k]).0 < systems.len(),
                to_run@ == active_ids(sorted.take(i as int), systems),
            decreases sorted.len() - i,
        {
            let index = self.systems_sorted[i];
            proof {
                assert(sorted.take(i + 1).drop_last() == sorted.take(i as int));
                assert(sorted.take(i + 1).last() == index);
            }
            if self.systems[index.0].active {
                to_run.push(index);
            }
            i = i + 1;
        }
        proof {
            assert(sorted.take(i as int) == sorted);
            lemma_active_ids(sorted, systems);
            lemma_active_ids_same(sorted, systems, old(self).systems_view());
        }
        self.systems_to_run = to_run;
        self.current_systems = Vec::new();
        self.finished_systems = Vec::new();
        proof {
            assert forall|k: int| 0 <= k < self.systems_to_run@.len() implies self.valid(#[trigger] self.systems_to_run@[k]) by {
                let x = self.systems_to_run@[k];
                assert(active_ids(sorted, systems).contains(x));
                let k2 = choose|k2: int| 0 <= k2 < sorted.len() && sorted[k2] == x;
            }
        }
    }

    /// Records which of `archetype_count` archetypes the queries of system `id` touch in
    /// the coming run.
    pub fn set_archetypes(&mut self, id: SystemId, touched: &Vec<usize>, archetype_count: usize)
        requires
            old(self).wf(),
            old(self).current_view().len() == 0,
            old(self).valid(id),
            forall|k: int| 0 <= k < touched@.len() ==> #[trigger] touched@[k] < archetype_count,
        ensures
            final(self).wf(),
            final(self).systems_view().len() == old(self).systems_view().len(),
            forall|i: int| 0 <= i < final(self).systems_view().len() && i != id.0 ==> #[trigger] final(self).systems_view()[i] == old(self).systems_view()[i],
            ({
                let s = final(self).systems_view()[id.0 as int];
                let o = old(self).systems_view()[id.0 as int];
                &&& s.dependencies == o.dependencies
                &&& s.active == o.active
                &&& s.borrows == o.borrows
                &&& s.condensed == o.condensed
                &&& s.archetypes is Some
                &&& bits_of(s.archetypes->0) == touched@.to_set()
            }),
            final(self).sorted_view() == old(self).sorted_view(),
            final(self).to_run_view() == old(self).to_run_view(),
            final(self).current_view() == old(self).current_view(),
            final(self).finished_view() == old(self).finished_view(),
            final(self).dirty_view() == old(self).dirty_view(),
    {
        let mut bits = bitset_with_capacity(archetype_count);
        let mut k: usize = 0;
        while k < touched.len()
            invariant
                0 <= k <= touched@.len(),
                capacity_of(bits) == archetype_count,
                forall|j: int| 0 <= j < touched@.len() ==> #[trigger] touched@[j] < archetype_count,
                bits_of(bits) == touched@.take(k as int).to_set(),
            decreases touched@.len() - k,
        {
            bitset_insert(&mut bits, touched[k]);
            proof {
                let before = touched@.take(k as int);
                let after = touched@.take(k + 1);
                assert(after == before.push(touched@[k as int]));
                assert forall|a: usize| after.contains(a) <==> (before.contains(a) || a == touched@[k as int]) by {
                    if after.contains(a) {
                        let j = choose|j: int| 0 <= j < after.len() && after[j] == a;
                        if j < k {
                            assert(before[j] == a);
                        }
                    }
                    if before.contains(a) {
                        let j = choose|j: int| 0 <= j < before.len() && before[j] == a;
                        assert(after[j] == a);
                    }
                    if a == touched@[k as int] {
                        assert(after[k as int] == a);
                    }
                }
                assert(bits_of(bits) =~= after.to_set());
            }
            k = k + 1;
        }
        proof {
            assert(touched@.take(k as int) == touched@);
        }
        let mut taken = SystemContainer {
            dependencies: Vec::new(),
            active: false,
            borrows: SystemBorrows::new(),
            condensed: CondensedBorrows::with_capacity(0, 0),
            archetypes: None,
        };
        let ghost before = self.systems@;
        self.systems.set_and_swap(id.0, &mut taken);
        let SystemContainer { dependencies, active, borrows, condensed, archetypes: _ } = taken;
        let mut updated = SystemContainer { dependencies, active, borrows, condensed, archetypes: Some(bits) };
        self.systems.set_and_swap(id.0, &mut updated);
        proof {
            assert forall|i: int, k2: int| 0 <= i < self.systems@.len() && 0 <= k2 < self.systems@[i].dependencies@.len()
                implies self.valid(#[trigger] self.systems@[i].dependencies@[k2]) by {
                assert(self.systems@[i].dependencies == before[i].dependencies);
                assert(old(self).valid(old(self).systems_view()[i].dependencies@[k2]));
            }
            assert forall|k2: int| 0 <= k2 < self.systems_sorted@.len() implies self.valid(#[trigger] self.systems_sorted@[k2]) by {
                assert(old(self).valid(old(self).sorted_view()[k2]));
            }
            assert forall|k2: int| 0 <= k2 < self.finished_systems@.len() implies self.valid(#[trigger] self.finished_systems@[k2]) by {
                assert(old(self).valid(old(self).finished_view()[k2]));
            }
            assert forall|k2: int| 0 <= k2 < self.systems_to_run@.len() implies self.valid(#[trigger] self.systems_to_run@[k2]) by {
                assert(old(self).valid(old(self).to_run_view()[k2]));
            }
        }
    }

    /// Whether the `i`-th system waiting to run may start now: all its dependencies have
    /// finished, and it may overlap every running system. Two systems whose component borrows
    /// conflict may still overlap when the archetypes of both are recorded (see
    /// [`set_archetypes`](Self::set_archetypes)) and disjoint; with no archetypes recorded,
    /// conflicting component borrows always keep systems apart.
    pub fn can_run_now(&self, i: usize) -> (r: bool)
        requires
            self.wf(),
            i < self.to_run_view().len(),
        ensures
            r == self.runnable(self.to_run_view()[i as int]),
    {
        let none: Vec<SystemId> = Vec::new();
        let r = self.runnable_alongside(self.systems_to_run[i], &none);
        proof {
            assert(self.current_systems@ + none@ == self.current_systems@);
        }
        r
    }

    /// Whether system `x` may start alongside the running systems and those in `also`.
    fn runnable_alongside(&self, x: SystemId, also: &Vec<SystemId>) -> (r: bool)
        requires
            self.wf(),
            self.valid(x),
            forall|k: int| 0 <= k < also@.len() ==> self.valid(#[trigger] also@[k]),
        ensures
            r == runnable_with(self.systems_view(), self.finished_view(), x, self.current_view() + also@),
    {
        let system = &self.systems[x.0];
        let ghost s = self.systems_view()[x.0 as int];
        let ghost all = self.current_view() + also@;
        let ghost fin = self.finished_view();
        assert(*system == s);
        let mut k: usize = 0;
        while k < system.dependencies.len()
            invariant
                *system == s,
                s == self.systems_view()[x.0 as int],
                fin == self.finished_view(),
                0 <= k <= s.dependencies@.len(),
                forall|j: int| 0 <= j < k ==> fin.contains(#[trigger] s.dependencies@[j]),
            decreases s.dependencies@.len() - k,
        {
            if !contains_id(&self.finished_systems, system.dependencies[k]) {
                assert(!fin.contains(s.dependencies@[k as int]));
                return false;
            }
            k = k + 1;
        }
        let mut c: usize = 0;
        while c < self.current_systems.len()
            invariant
                self.wf(),
                self.valid(x),
                *system == s,
                s == self.systems_view()[x.0 as int],
                0 <= c <= self.current_view().len(),
                all == self.current_view() + also@,
                forall|j: int| 0 <= j < c ==> can_overlap(s, self.systems_view()[(#[trigger] all[j]).0 as int]),
            decreases self.current_view().len() - c,
        {
            let other = &self.systems[self.current_systems[c].0];
            proof {
                assert(all[c as int] == self.current_view()[c as int]);
                assert(self.valid(self.current_view()[c as int]));
                assert(*other == self.systems_view()[all[c as int].0 as int]);
            }
            if !system.condensed.are_resources_compatible(&other.condensed)
                || (!system.condensed.are_components_compatible(&other.condensed)
                    && !archetypes_disjoint(system, other)) {
                assert(!can_overlap(s, self.systems_view()[all[c as int].0 as int]));
                return false;
            }
            c = c + 1;
        }
        let mut a: usize = 0;
        while a < also.len()
            invariant
                self.wf(),
                self.valid(x),
                *system == s,
                s == self.systems_view()[x.0 as int],
                forall|k: int| 0 <= k < also@.len() ==> self.valid(#[trigger] also@[k]),
                0 <= a <= also@.len(),
                all == self.current_view() + also@,
                forall|j: int| 0 <= j < self.current_view().len() + a ==> can_overlap(s, self.systems_view()[(#[trigger] all[j]).0 as int]),
            decreases also@.len() - a,
        {
            let other = &self.systems[also[a].0];
            proof {
                assert(all[self.current_view().len() + a] == also@[a as int]);
                assert(*other == self.systems_view()[all[self.current_view().len() + a].0 as int]);
            }
            if !system.condensed.are_resources_compatible(&other.condensed)
                || (!system.condensed.are_components_compatible(&other.condensed)
                    && !archetypes_disjoint(system, other)) {
                assert(!can_overlap(s, self.systems_view()[all[self.current_view().len() + a].0 as int]));
                return false;
            }
            a = a + 1;
        }
        true
    }

    /// Starts, in order, every waiting system that may run now (alongside the running ones
    /// and those started before it); they leave the waiting list and join the running set.
    pub fn start_runnable(&mut self) -> (started: Vec<SystemId>)
        requires
            old(self).wf(),
        ensures
            final(self).wf(),
            started@ == started_from(old(self).systems_view(), old(self).finished_view(), old(self).to_run_view(), old(self).current_view()),
            final(self).current_view() == old(self).current_view() + started@,
            final(self).to_run_view() == without(old(self).to_run_view(), started@),
            final(self).finished_view() == old(self).finished_view(),
            final(self).systems_view() == old(self).systems_view(),
            final(self).sorted_view() == old(self).sorted_view(),
            final(self).dirty_view() == old(self).dirty_view(),
            forall|k: int| 0 <= k < started@.len() ==> {
                &&& old(self).to_run_view().contains(#[trigger] started@[k])
                &&& old(self).systems_view()[started@[k].0 as int].active
                &&& !final(self).to_run_view().contains(started@[k])
            },
            old(self).current_view().len() == 0 && (exists|k: int| 0 <= k < old(self).to_run_view().len()
                && dependencies_done(old(self).systems_view(), old(self).finished_view(), #[trigger] old(self).to_run_view()[k]))
                ==> started@.len() > 0,
    {
        let ghost systems = self.systems_view();
        let ghost fin = self.finished_view();
        let ghost tr = self.to_run_view();
        let ghost cur = self.current_view();
        let mut started: Vec<SystemId> = Vec::new();
        let mut i: usize = 0;
        while i < self.systems_to_run.len()
            invariant
                self.wf(),
                systems == self.systems_view(),
                fin == self.finished_view(),
                tr == self.to_run_view(),
                cur == self.current_view(),
                0 <= i <= tr.len(),
                started@ == started_from(systems, fin, tr.take(i as int), cur),
                forall|k: int| 0 <= k < started@.len() ==> self.valid(#[trigger] started@[k]),
            decreases tr.len() - i,
        {
            let x = self.systems_to_run[i];
            proof {
                assert(tr.take(i + 1).drop_last() == tr.take(i as int));
                assert(tr.take(i + 1).last() == x);
                assert(self.valid(tr[i as int]));
            }
            if self.runnable_alongside(x, &started) {
                started.push(x);
            }
            i = i + 1;
        }
        proof {
            assert(tr.take(i as int) == tr);
            lemma_started_from(systems, fin, tr, cur);
            lemma_without(tr, started@);
        }
        let mut kept: Vec<SystemId> = Vec::new();
        let mut j: usize = 0;
        while j < self.systems_to_run.len()
            invariant
                tr == self.systems_to_run@,
                0 <= j <= tr.len(),
                kept@ == without(tr.take(j as int), started@),
            decreases tr.len() - j,
        {
            let x = self.systems_to_run[j];
            proof {
                assert(tr.take(j + 1).drop_last() == tr.take(j as int));
                assert(tr.take(j + 1).last() == x);
            }
            if !contains_id(&started, x) {
                kept.push(x);
            }
            j = j + 1;
        }
        proof {
            assert(tr.take(j as int) == tr);
        }
        self.systems_to_run = kept;
        let mut running: Vec<SystemId> = Vec::new();
        std::mem::swap(&mut running, &mut self.current_systems);
        let mut k: usize = 0;
        while k < started.len()
            invariant
                0 <= k <= started@.len(),
                running@ == cur + started@.take(k as int),
            decreases started@.len() - k,
        {
            running.push(started[k]);
            proof {
                assert(started@.take(k + 1) == started@.take(k as int).push(started@[k as int]));
            }
            k = k + 1;
        }
        proof {
            assert(started@.take(k as int) == started@);
        }
        self.current_systems = running;
        proof {
            let g = started@;
            let c2 = self.current_systems@;
            assert forall|x: SystemId| #[trigger] c2.contains(x) <==> (cur.contains(x) || g.contains(x)) by {
                if c2.contains(x) {
                    let k2 = choose|k2: int| 0 <= k2 < c2.len() && c2[k2] == x;
                    if k2 < cur.len() {
                        assert(cur[k2] == x);
                    } else {
                        assert(g[k2 - cur.len()] == x);
                    }
                }
                if cur.contains(x) {
                    let k2 = choose|k2: int| 0 <= k2 < cur.len() && cur[k2] == x;
                    assert(c2[k2] == x);
                }
                if g.contains(x) {
                    let k2 = choose|k2: int| 0 <= k2 < g.len() && g[k2] == x;
                    assert(c2[cur.len() + k2] == x);
                }
            }
            assert forall|a: int, b: int| 0 <= a < b < c2.len() implies c2[a] != c2[b] by {
                if b >= cur.len() && a < cur.len() {
                    assert(g.contains(c2[b]));
                    assert(tr.contains(c2[b]));
                    assert(cur.contains(c2[a]));
                } else if a >= cur.len() {
                    assert(c2[a] == g[a - cur.len()]);
                    assert(c2[b] == g[b - cur.len()]);
                }
            }
            assert forall|a: int, b: int| 0 <= a < c2.len() && 0 <= b < c2.len() && a != b implies can_overlap(
                systems[(#[trigger] c2[a]).0 as int],
                systems[(#[trigger] c2[b]).0 as int],
            ) by {
                let (lo, hi) = if a < b { (a, b) } else { (b, a) };
                lemma_can_overlap_symmetric(systems[c2[a].0 as int], systems[c2[b].0 as int]);
                if hi >= cur.len() {
                    let kk = hi - cur.len();
                    assert(g[kk] == c2[hi]);
                    assert(runnable_with(systems, fin, g[kk], cur + g.take(kk)));
                    assert((cur + g.take(kk))[lo] == c2[lo]);
                }
            }
            assert forall|k2: int| 0 <= k2 < c2.len() implies self.valid(#[trigger] c2[k2]) by {
                if k2 >= cur.len() {
                    assert(c2[k2] == g[k2 - cur.len()]);
                }
            }
            assert forall|k2: int| 0 <= k2 < self.systems_to_run@.len() implies self.valid(#[trigger] self.systems_to_run@[k2]) by {
                let x = self.systems_to_run@[k2];
                assert(without(tr, g).contains(x));
                let k3 = choose|k3: int| 0 <= k3 < tr.len() && tr[k3] == x;
            }
            assert forall|x: SystemId| #[trigger] c2.contains(x) implies !self.systems_to_run@.contains(x) && !fin.contains(x) by {
                if g.contains(x) {
                    assert(tr.contains(x));
                }
            }
            assert forall|x: SystemId| #[trigger] fin.contains(x) implies !self.systems_to_run@.contains(x) by {
            }
            assert forall|k2: int| 0 <= k2 < self.systems_sorted@.len() implies self.valid(#[trigger] self.systems_sorted@[k2]) by {
                assert(old(self).valid(old(self).sorted_view()[k2]));
            }
            lemma_started_progress(systems, fin, tr);
            assert forall|k: int| 0 <= k < g.len() implies {
                &&& tr.contains(#[trigger] g[k])
                &&& systems[g[k].0 as int].active
                &&& !self.systems_to_run@.contains(g[k])
            } by {
                assert(g.contains(g[k]));
            }
            if cur.len() == 0 {
                assert(cur =~= Seq::<SystemId>::empty());
            }
        }
        started
    }

    /// Records that running system `index` has finished.
    pub fn finish(&mut self, index: SystemId)
        requires
            old(self).wf(),
            old(self).current_view().contains(index),
        ensures
            final(self).wf(),
            final(self).finished_view() == old(self).finished_view().push(index),
            forall|y: SystemId| #[trigger] final(self).current_view().contains(y) <==> (old(self).current_view().contains(y) && y != index),
            final(self).to_run_view() == old(self).to_run_view(),
            final(self).systems_view() == old(self).systems_view(),
            final(self).sorted_view() == old(self).sorted_view(),
            final(self).dirty_view() == old(self).dirty_view(),
    {
        let ghost cur = self.current_systems@;
        let ghost fin = self.finished_systems@;
        self.finished_systems.push(index);
        let mut running: Vec<SystemId> = Vec::new();
        std::mem::swap(&mut running, &mut self.current_systems);
        remove_running(&mut running, index);
        self.current_systems = running;
        proof {
            let f2 = self.finished_systems@;
            let c2 = self.current_systems@;
            assert forall|x: SystemId| #[trigger] f2.contains(x) <==> (fin.contains(x) || x == index) by {
                if f2.contains(x) {
                    let k = choose|k: int| 0 <= k < f2.len() && f2[k] == x;
                    if k < fin.len() {
                        assert(fin[k] == x);
                    }
                }
                if fin.contains(x) {
                    let k = choose|k: int| 0 <= k < fin.len() && fin[k] == x;
                    assert(f2[k] == x);
                }
                if x == index {
                    assert(f2[fin.len() as int] == x);
                }
            }
            assert forall|a: int, b: int| 0 <= a < b < f2.len() implies f2[a] != f2[b] by {
                if b == fin.len() {
                    assert(fin.contains(f2[a]));
                } else {
                    assert(f2[a] == fin[a]);
                    assert(f2[b] == fin[b]);
                }
            }
            assert forall|k: int| 0 <= k < f2.len() implies self.valid(#[trigger] f2[k]) by {
                if k < fin.len() {
                    assert(f2[k] == fin[k]);
                    assert(old(self).valid(old(self).finished_view()[k]));
                } else {
                    let j = choose|j: int| 0 <= j < cur.len() && cur[j] == index;
                    assert(old(self).valid(old(self).current_view()[j]));
                }
            }
            assert forall|k: int| 0 <= k < c2.len() implies self.valid(#[trigger] c2[k]) by {
                assert(c2.contains(c2[k]));
                assert(cur.contains(c2[k]));
                let j = choose|j: int| 0 <= j < cur.len() && cur[j] == c2[k];
                assert(old(self).valid(old(self).current_view()[j]));
            }
            assert forall|a: int, b: int| 0 <= a < c2.len() && 0 <= b < c2.len() && a != b implies can_overlap(
                self.systems_view()[(#[trigger] c2[a]).0 as int],
                self.systems_view()[(#[trigger] c2[b]).0 as int],
            ) by {
                assert(c2.contains(c2[a]));
                assert(c2.contains(c2[b]));
                let ja = choose|j: int| 0 <= j < cur.len() && cur[j] == c2[a];
                let jb = choose|j: int| 0 <= j < cur.len() && cur[j] == c2[b];
            }
            assert forall|k: int| 0 <= k < self.systems_to_run@.len() implies self.valid(#[trigger] self.systems_to_run@[k]) by {
                assert(old(self).valid(old(self).to_run_view()[k]));
            }
            assert forall|k: int| 0 <= k < self.systems_sorted@.len() implies self.valid(#[trigger] self.systems_sorted@[k]) by {
                assert(old(self).valid(old(self).sorted_view()[k]));
            }
            assert forall|i: int, k: int| 0 <= i < self.systems@.len() && 0 <= k < self.systems@[i].dependencies@.len()
                implies self.valid(#[trigger] self.systems@[i].dependencies@[k]) by {
                assert(old(self).valid(old(self).systems_view()[i].dependencies@[k]));
            }
        }
    }

    /// Whether every active system has started.
    pub fn all_started(&self) -> (r: bool)
        ensures
            r == (self.to_run_view().len() == 0),
    {
        self.systems_to_run.len() == 0
    }

    /// Number of running systems.
    pub fn running_count(&self) -> (r: usize)
        ensures
            r == self.current_view().len(),
    {
        self.current_systems.len()
    }

    /// Whether `id` is running.
    pub fn is_running(&self, id: SystemId) -> (r: bool)
        ensures
            r == self.current_view().contains(id),
    {
        contains_id(&self.current_systems, id)
    }
}

/// Systems running at the same time never conflict: every two of them may overlap.
pub proof fn lemma_running_never_conflict(executor: &ParallelExecutor, a: int, b: int)
    requires
        executor.wf(),
        0 <= a < executor.current_view().len(),
        0 <= b < executor.current_view().len(),
        a != b,
    ensures
        can_overlap(
            executor.systems_view()[executor.current_view()[a].0 as int],
            executor.systems_view()[executor.current_view()[b].0 as int],
        ),
{
}

/// Within a run only active systems wait, run or finish, and a system that has started
/// (running or finished) is not waiting again: a pass starts only waiting systems, so no
/// system starts twice in a run.
pub proof fn lemma_started_at_most_once(executor: &ParallelExecutor, x: SystemId)
    requires
        executor.wf(),
    ensures
        executor.to_run_view().contains(x) || executor.current_view().contains(x) || executor.finished_view().contains(x)
            ==> executor.systems_view()[x.0 as int].active,
        executor.current_view().contains(x) || executor.finished_view().contains(x) ==> !executor.to_run_view().contains(x),
{
}

/// Once borrows are condensed, two systems' bits are compatible exactly when the resource
/// and component types they borrow are: condensation neither hides nor invents a conflict.
pub proof fn lemma_condensed_reflects_borrows(executor: &ParallelExecutor, a: int, b: int)
    requires
        executor.wf(),
        executor.condensed(),
        0 <= a < executor.systems_view().len(),
        0 <= b < executor.systems_view().len(),
    ensures
        ({
            let sa = executor.systems_view()[a];
            let sb = executor.systems_view()[b];
            &&& compatible(sa.condensed.resources(), sb.condensed.resources()) == borrows_compatible(
                sa.borrows.resources_immutable@, sa.borrows.resources_mutable@,
                sb.borrows.resources_immutable@, sb.borrows.resources_mutable@)
            &&& compatible(sa.condensed.components(), sb.condensed.components()) == borrows_compatible(
                sa.borrows.components_immutable@, sa.borrows.components_mutable@,
                sb.borrows.components_immutable@, sb.borrows.components_mutable@)
        }),
{
    let sa = executor.systems_view()[a];
    let sb = executor.systems_view()[b];
    lemma_condensed_compatible(sa.condensed, sa.borrows, sb.condensed, sb.borrows, executor.resource_types(), executor.component_types());
}

/// Whether the archetypes of both systems are known and disjoint.
fn archetypes_disjoint(a: &SystemContainer, b: &SystemContainer) -> (r: bool)
    ensures
        r == archetypes_apart(*a, *b),
{
    match (&a.archetypes, &b.archetypes) {
        (Some(x), Some(y)) => bitset_is_disjoint(x, y),
        _ => false,
    }
}

/// Removes `x` from `v`, which holds it once.
fn remove_running(v: &mut Vec<SystemId>, x: SystemId)
    requires
        old(v)@.contains(x),
        old(v)@.no_duplicates(),
    ensures
        final(v)@.no_duplicates(),
        forall|y: SystemId| #[trigger] final(v)@.contains(y) <==> (old(v)@.contains(y) && y != x),
{
    let ghost v0 = v@;
    let mut p: usize = 0;
    while p < v.len() && v[p].0 != x.0
        invariant
            0 <= p <= v@.len(),
            v@ == v0,
            forall|j: int| 0 <= j < p ==> v@[j] != x,
        decreases v@.len() - p,
    {
        p = p + 1;
    }
    proof {
        if p == v@.len() {
            let j = choose|j: int| 0 <= j < v0.len() && v0[j] == x;
            assert(false);
        }
        assert(v@[p as int] == x);
    }
    v.remove(p);
    proof {
        let r = v@;
        assert forall|y: SystemId| #[trigger] r.contains(y) <==> (v0.contains(y) && y != x) by {
            if r.contains(y) {
                let k = choose|k: int| 0 <= k < r.len() && r[k] == y;
                let k0 = if k < p { k } else { k + 1 };
                assert(v0[k0] == y);
            }
            if v0.contains(y) && y != x {
                let k = choose|k: int| 0 <= k < v0.len() && v0[k] == y;
                if k < p {
                    assert(r[k] == y);
                } else {
                    assert(r[k - 1] == y);
                }
            }
        }
        assert forall|a: int, b: int| 0 <= a < b < r.len() implies r[a] != r[b] by {
            let a0 = if a < p { a } else { a + 1 };
            let b0 = if b < p { b } else { b + 1 };
            assert(v0[a0] == r[a]);
            assert(v0[b0] == r[b]);
        }
    }
}

} // verus!
