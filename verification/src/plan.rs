//! Choosing how an executor runs its systems, and preparing the bookkeeping for it.
use vstd::prelude::*;
use crate::access_set::{
    compatible, lemma_compatible_means_no_conflict, lemma_compatible_symmetric, positions_in, ArchetypeSet, BorrowBits, BorrowSet,
    BorrowTypeSet,
};
use crate::dependency::{
    count_in, edges_ascend, pending, lemma_count_in_append, lemma_count_in_push, lemma_count_in_zero,
};
use crate::queue_order::{Queued, sort_by_dependants, sort_by_dependants_desc};
use crate::run_queue::{entries_for, RunQueue};
use crate::scheduler::{AccessBits, Scheduler, SystemAccess};
use crate::system_id::{DependantsLength, SystemId};
use crate::type_set::TypeKey;

verus! {

/// The sequences that a list of id vectors holds.
pub open spec fn views_of(v: Seq<Vec<SystemId>>) -> Seq<Seq<SystemId>> {
    Seq::new(v.len(), |i: int| v[i]@)
}

/// A system as the builder describes it: the systems it depends on, the resources it
/// borrows (by index in the executor's resource tuple), and the component types its
/// queries borrow.
pub struct BuilderSystem {
    pub dependencies: Vec<SystemId>,
    pub resource_set: BorrowSet,
    pub component_type_set: BorrowTypeSet,
}

/// The systems depending on `d` among the systems below `upto`, ascending, once per
/// declared dependency.
pub open spec fn dependants_spec(deps: Seq<Seq<SystemId>>, d: SystemId, upto: int) -> Seq<SystemId>
    decreases upto,
{
    if upto <= 0 {
        Seq::empty()
    } else {
        dependants_spec(deps, d, upto - 1) + Seq::new(
            count_in(deps[upto - 1], d),
            |_i: int| SystemId((upto - 1) as usize),
        )
    }
}

/// The systems below `upto` without dependencies, ascending.
pub open spec fn independent_spec(deps: Seq<Seq<SystemId>>, upto: int) -> Seq<SystemId>
    decreases upto,
{
    if upto <= 0 {
        Seq::empty()
    } else if deps[upto - 1].len() == 0 {
        independent_spec(deps, upto - 1).push(SystemId((upto - 1) as usize))
    } else {
        independent_spec(deps, upto - 1)
    }
}

/// Whether systems `i` and `j` borrow resources and component types compatibly.
pub open spec fn pair_disjoint(res: Seq<BorrowBits>, comp: Seq<BorrowBits>, i: int, j: int) -> bool {
    compatible(res[i], res[j]) && compatible(comp[i], comp[j])
}

/// Whether every pair of systems borrows resources and component types compatibly.
pub open spec fn all_disjoint(res: Seq<BorrowBits>, comp: Seq<BorrowBits>) -> bool {
    forall|i: int, j: int| 0 <= i < j < res.len() ==> #[trigger] pair_disjoint(res, comp, i, j)
}

/// Whether no system has dependencies.
pub open spec fn all_independent(deps: Seq<Seq<SystemId>>) -> bool {
    forall|i: int| 0 <= i < deps.len() ==> #[trigger] deps[i].len() == 0
}

/// The dependency bookkeeping that `q` holds for systems with dependency lists `deps`.
pub open spec fn queue_matches(q: RunQueue, deps: Seq<Seq<SystemId>>) -> bool {
    let n = deps.len() as int;
    &&& q.wf()
    &&& q.idle()
    &&& q.n() == n
    &&& forall|d: int| 0 <= d < n ==> #[trigger] q.dependants_view()[d] == dependants_spec(deps, SystemId(d as usize), n)
    &&& forall|x: int| 0 <= x < n ==> #[trigger] q.dependencies_view()[x] == deps[x].len()
    &&& q.initial_view() == sort_by_dependants(entries_for(q.dependants_view(), independent_spec(deps, n)))
}

/// The dependency lists of the builder's systems.
pub open spec fn plan_dependencies(systems: Seq<BuilderSystem>) -> Seq<Seq<SystemId>> {
    Seq::new(systems.len(), |i: int| systems[i].dependencies@)
}

/// The resource borrows of the builder's systems.
pub open spec fn plan_resources(systems: Seq<BuilderSystem>) -> Seq<BorrowBits> {
    Seq::new(systems.len(), |i: int| systems[i].resource_set@)
}

/// The component borrows of the builder's systems, condensed over `all_component_types`.
pub open spec fn plan_components(systems: Seq<BuilderSystem>, all_component_types: Seq<TypeKey>) -> Seq<BorrowBits> {
    Seq::new(systems.len(), |i: int| BorrowBits {
        immutable: positions_in(all_component_types, systems[i].component_type_set.immutable@, all_component_types.len() as int),
        mutable: positions_in(all_component_types, systems[i].component_type_set.mutable@, all_component_types.len() as int),
    })
}

/// What [`ExecutorParallel::build`] makes of the builder's systems and the component types.
pub open spec fn plans(systems: Seq<BuilderSystem>, all_component_types: Seq<TypeKey>, r: ExecutorParallel) -> bool {
    let deps = plan_dependencies(systems);
    let res = plan_resources(systems);
    let comp = plan_components(systems, all_component_types);
    match r {
        ExecutorParallel::Dispatching(d) => all_disjoint(res, comp) && all_independent(deps)
            && d.systems@ == Seq::new(systems.len(), |i: int| SystemId(i as usize)),
        ExecutorParallel::Scheduling(s) => !(all_disjoint(res, comp) && all_independent(deps)) && s.wf() && queue_matches(s.run_queue(), deps)
            && s.generation_view() == None::<u64>
            && s.access_view() == Seq::new(systems.len(), |i: int| AccessBits {
                resources: res[i],
                components: comp[i],
                archetypes: BorrowBits { immutable: Set::empty(), mutable: Set::empty() },
            }),
    }
}

/// Condensed over an order of types, two pairs of type sets are compatible exactly when no
/// type of the order is written by one pair and read or written by the other.
pub proof fn lemma_positions_compatible(
    order: Seq<TypeKey>,
    immutable: Set<TypeKey>,
    mutable: Set<TypeKey>,
    other_immutable: Set<TypeKey>,
    other_mutable: Set<TypeKey>,
)
    requires
        order.len() <= usize::MAX,
    ensures
        compatible(
            BorrowBits {
                immutable: positions_in(order, immutable, order.len() as int),
                mutable: positions_in(order, mutable, order.len() as int),
            },
            BorrowBits {
                immutable: positions_in(order, other_immutable, order.len() as int),
                mutable: positions_in(order, other_mutable, order.len() as int),
            },
        ) <==> (forall|t: TypeKey| #[trigger] order.contains(t) ==> !(
            (mutable.contains(t) && (other_mutable.contains(t) || other_immutable.contains(t)))
                || (other_mutable.contains(t) && immutable.contains(t)))),
{
    let n = order.len() as int;
    let a = BorrowBits { immutable: positions_in(order, immutable, n), mutable: positions_in(order, mutable, n) };
    let b = BorrowBits { immutable: positions_in(order, other_immutable, n), mutable: positions_in(order, other_mutable, n) };
    lemma_compatible_means_no_conflict(a, b);
    if compatible(a, b) {
        assert forall|t: TypeKey| #[trigger] order.contains(t) implies !(
            (mutable.contains(t) && (other_mutable.contains(t) || other_immutable.contains(t)))
                || (other_mutable.contains(t) && immutable.contains(t))) by {
            let k = choose|k: int| 0 <= k < order.len() && order[k] == t;
            let x = k as usize;
            assert(order[x as int] == t);
            assert(!((a.mutable.contains(x) && (b.mutable.contains(x) || b.immutable.contains(x))) || (
                b.mutable.contains(x) && a.immutable.contains(x))));
        }
    } else {
        let x = choose|x: usize| ((a.mutable.contains(x) && (b.mutable.contains(x) || b.immutable.contains(x))) || (
            b.mutable.contains(x) && a.immutable.contains(x)));
        let t = order[x as int];
        assert(order.contains(t));
    }
}

/// Systems without dependencies, no two of which clash on a resource or on a component type
/// of the order, are all independent and pairwise disjoint once condensed over that order.
proof fn lemma_no_clash_all_disjoint(systems: Seq<BuilderSystem>, order: Seq<TypeKey>)
    requires
        order.len() <= usize::MAX,
        ({
            &&& forall|i: int| 0 <= i < systems.len() ==> #[trigger] systems[i].dependencies@.len() == 0
            &&& forall|i: int, j: int, x: usize| 0 <= i < systems.len() && 0 <= j < systems.len() && i != j
                && #[trigger] systems[i].resource_set@.mutable.contains(x) ==> !(#[trigger] systems[j].resource_set@.mutable.contains(x))
            &&& forall|i: int, j: int, x: usize| 0 <= i < systems.len() && 0 <= j < systems.len() && i != j
                && #[trigger] systems[i].resource_set@.mutable.contains(x) ==> !(#[trigger] systems[j].resource_set@.immutable.contains(x))
            &&& forall|i: int, j: int, t: TypeKey| 0 <= i < systems.len() && 0 <= j < systems.len() && i != j && #[trigger] order.contains(t)
                && #[trigger] systems[i].component_type_set.mutable@.contains(t) ==> !(#[trigger] systems[j].component_type_set.mutable@.contains(t))
            &&& forall|i: int, j: int, t: TypeKey| 0 <= i < systems.len() && 0 <= j < systems.len() && i != j && #[trigger] order.contains(t)
                && #[trigger] systems[i].component_type_set.mutable@.contains(t) ==> !(#[trigger] systems[j].component_type_set.immutable@.contains(t))
        }),
    ensures
        all_independent(plan_dependencies(systems)),
        all_disjoint(plan_resources(systems), plan_components(systems, order)),
{
    let deps = plan_dependencies(systems);
    let res = plan_resources(systems);
    let comp = plan_components(systems, order);
    assert forall|i: int| 0 <= i < deps.len() implies #[trigger] deps[i].len() == 0 by {
        assert(systems[i].dependencies@.len() == 0);
    }
    assert forall|i: int, j: int| 0 <= i < j < res.len() implies #[trigger] pair_disjoint(res, comp, i, j) by {
        assert(res[i] == systems[i].resource_set@ && res[j] == systems[j].resource_set@);
        lemma_compatible_means_no_conflict(res[i], res[j]);
        lemma_positions_compatible(
            order,
            systems[i].component_type_set.immutable@,
            systems[i].component_type_set.mutable@,
            systems[j].component_type_set.immutable@,
            systems[j].component_type_set.mutable@,
        );
    }
}

/// An executor dispatches all systems at once exactly when no system has dependencies and
/// no two systems clash: no resource is written by one and read or written by another, and
/// no known component type is written by one and read or written by another. Otherwise it
/// schedules them.
pub proof fn lemma_dispatching_iff_no_clash(systems: Seq<BuilderSystem>, all_component_types: Seq<TypeKey>, r: ExecutorParallel)
    requires
        plans(systems, all_component_types, r),
        all_component_types.len() <= usize::MAX,
    ensures
        (r is Dispatching) <==> ({
            &&& forall|i: int| 0 <= i < systems.len() ==> #[trigger] systems[i].dependencies@.len() == 0
            &&& forall|i: int, j: int, x: usize| 0 <= i < systems.len() && 0 <= j < systems.len() && i != j
                && #[trigger] systems[i].resource_set@.mutable.contains(x) ==> !(#[trigger] systems[j].resource_set@.mutable.contains(x))
            &&& forall|i: int, j: int, x: usize| 0 <= i < systems.len() && 0 <= j < systems.len() && i != j
                && #[trigger] systems[i].resource_set@.mutable.contains(x) ==> !(#[trigger] systems[j].resource_set@.immutable.contains(x))
            &&& forall|i: int, j: int, t: TypeKey| 0 <= i < systems.len() && 0 <= j < systems.len() && i != j && #[trigger] all_component_types.contains(t)
                && #[trigger] systems[i].component_type_set.mutable@.contains(t) ==> !(#[trigger] systems[j].component_type_set.mutable@.contains(t))
            &&& forall|i: int, j: int, t: TypeKey| 0 <= i < systems.len() && 0 <= j < systems.len() && i != j && #[trigger] all_component_types.contains(t)
                && #[trigger] systems[i].component_type_set.mutable@.contains(t) ==> !(#[trigger] systems[j].component_type_set.immutable@.contains(t))
        }),
{
    let order = all_component_types;
    let deps = plan_dependencies(systems);
    let res = plan_resources(systems);
    let comp = plan_components(systems, order);
    if r is Dispatching {
        assert(all_disjoint(res, comp) && all_independent(deps));
        assert forall|i: int| 0 <= i < systems.len() implies #[trigger] systems[i].dependencies@.len() == 0 by {
            assert(deps[i].len() == 0);
        }
        assert forall|i: int, j: int| 0 <= i < systems.len() && 0 <= j < systems.len() && i != j implies
            compatible(res[i], res[j]) && compatible(comp[i], comp[j]) by {
            if i < j {
                assert(pair_disjoint(res, comp, i, j));
            } else {
                assert(pair_disjoint(res, comp, j, i));
                lemma_compatible_symmetric(res[i], res[j]);
                lemma_compatible_symmetric(comp[i], comp[j]);
            }
        }
        assert forall|i: int, j: int, x: usize| 0 <= i < systems.len() && 0 <= j < systems.len() && i != j
            && #[trigger] systems[i].resource_set@.mutable.contains(x) implies !(#[trigger] systems[j].resource_set@.mutable.contains(x)) by {
            lemma_compatible_means_no_conflict(res[i], res[j]);
        }
        assert forall|i: int, j: int, x: usize| 0 <= i < systems.len() && 0 <= j < systems.len() && i != j
            && #[trigger] systems[i].resource_set@.mutable.contains(x) implies !(#[trigger] systems[j].resource_set@.immutable.contains(x)) by {
            lemma_compatible_means_no_conflict(res[i], res[j]);
        }
        assert forall|i: int, j: int, t: TypeKey| 0 <= i < systems.len() && 0 <= j < systems.len() && i != j && #[trigger] order.contains(t)
            && #[trigger] systems[i].component_type_set.mutable@.contains(t) implies !(#[trigger] systems[j].component_type_set.mutable@.contains(t)) by {
            assert(compatible(res[i], res[j]) && compatible(comp[i], comp[j]));
            lemma_positions_compatible(
                order,
                systems[i].component_type_set.immutable@,
                systems[i].component_type_set.mutable@,
                systems[j].component_type_set.immutable@,
                systems[j].component_type_set.mutable@,
            );
        }
        assert forall|i: int, j: int, t: TypeKey| 0 <= i < systems.len() && 0 <= j < systems.len() && i != j && #[trigger] order.contains(t)
            && #[trigger] systems[i].component_type_set.mutable@.contains(t) implies !(#[trigger] systems[j].component_type_set.immutable@.contains(t)) by {
            assert(compatible(res[i], res[j]) && compatible(comp[i], comp[j]));
            lemma_positions_compatible(
                order,
                systems[i].component_type_set.immutable@,
                systems[i].component_type_set.mutable@,
                systems[j].component_type_set.immutable@,
                systems[j].component_type_set.mutable@,
            );
        }
    } else if ({
            &&& forall|i: int| 0 <= i < systems.len() ==> #[trigger] systems[i].dependencies@.len() == 0
            &&& forall|i: int, j: int, x: usize| 0 <= i < systems.len() && 0 <= j < systems.len() && i != j
                && #[trigger] systems[i].resource_set@.mutable.contains(x) ==> !(#[trigger] systems[j].resource_set@.mutable.contains(x))
            &&& forall|i: int, j: int, x: usize| 0 <= i < systems.len() && 0 <= j < systems.len() && i != j
                && #[trigger] systems[i].resource_set@.mutable.contains(x) ==> !(#[trigger] systems[j].resource_set@.immutable.contains(x))
            &&& forall|i: int, j: int, t: TypeKey| 0 <= i < systems.len() && 0 <= j < systems.len() && i != j && #[trigger] order.contains(t)
                && #[trigger] systems[i].component_type_set.mutable@.contains(t) ==> !(#[trigger] systems[j].component_type_set.mutable@.contains(t))
            &&& forall|i: int, j: int, t: TypeKey| 0 <= i < systems.len() && 0 <= j < systems.len() && i != j && #[trigger] order.contains(t)
                && #[trigger] systems[i].component_type_set.mutable@.contains(t) ==> !(#[trigger] systems[j].component_type_set.immutable@.contains(t))
        }) {
        lemma_no_clash_all_disjoint(systems, order);
    }
}

/// Parallel executor variant used when all systems are statically disjoint and have no
/// dependencies: they can all run at the same time.
pub struct Dispatcher {
    pub systems: Vec<SystemId>,
}

/// How an executor runs its systems, chosen from their borrows and dependencies.
pub enum ExecutorParallel {
    /// All systems are statically disjoint and have no dependencies.
    Dispatching(Dispatcher),
    /// Systems cannot be proven statically disjoint, or have dependencies.
    Scheduling(Scheduler),
}

proof fn lemma_pending_push(
    dv: Seq<Seq<SystemId>>,
    d: int,
    y: SystemId,
    x: SystemId,
    done: Set<int>,
    upto: int,
)
    requires
        0 <= d < dv.len(),
        upto <= dv.len(),
    ensures
        pending(dv.update(d, dv[d].push(y)), x, done, upto) == pending(dv, x, done, upto) + if 0
            <= d < upto && !done.contains(d) && y == x {
            1nat
        } else {
            0nat
        },
    decreases upto,
{
    if upto > 0 {
        lemma_pending_push(dv, d, y, x, done, upto - 1);
        if upto - 1 == d {
            lemma_count_in_push(dv[d], y, x);
        }
    }
}

proof fn lemma_pending_empty(dv: Seq<Seq<SystemId>>, x: SystemId, upto: int)
    requires
        forall|d: int| 0 <= d < dv.len() ==> #[trigger] dv[d].len() == 0,
        upto <= dv.len(),
    ensures
        pending(dv, x, Set::empty(), upto) == 0,
    decreases upto,
{
    if upto > 0 {
        lemma_pending_empty(dv, x, upto - 1);
    }
}

/// The systems below `upto` listed as independent are exactly those without dependencies,
/// each once.
pub proof fn lemma_independent_spec(deps: Seq<Seq<SystemId>>, upto: int)
    requires
        0 <= upto <= deps.len(),
        deps.len() <= usize::MAX,
    ensures
        forall|x: SystemId| #[trigger] independent_spec(deps, upto).contains(x) <==> (x.0 < upto && deps[x.0 as int].len() == 0),
        independent_spec(deps, upto).no_duplicates(),
        forall|k: int| 0 <= k < independent_spec(deps, upto).len() ==> (#[trigger] independent_spec(deps, upto)[k]).0 < upto,
    decreases upto,
{
    if upto > 0 {
        lemma_independent_spec(deps, upto - 1);
        let p = independent_spec(deps, upto - 1);
        let y = SystemId((upto - 1) as usize);
        if deps[upto - 1].len() == 0 {
            let s = p.push(y);
            assert forall|x: SystemId| #[trigger] s.contains(x) <==> (x.0 < upto && deps[x.0 as int].len() == 0) by {
                if s.contains(x) {
                    let k = choose|k: int| 0 <= k < s.len() && s[k] == x;
                    if k < p.len() {
                        assert(p[k] == x);
                        assert(p.contains(x));
                    } else {
                        assert(x == y);
                        assert(x.0 == upto - 1);
                    }
                }
                if x.0 < upto - 1 && deps[x.0 as int].len() == 0 {
                    assert(p.contains(x));
                    let k = choose|k: int| 0 <= k < p.len() && p[k] == x;
                    assert(s[k] == x);
                }
                if x.0 == upto - 1 {
                    assert(x == y);
                    assert(s[p.len() as int] == y);
                }
            }
            assert forall|a: int, b: int| 0 <= a < b < s.len() implies s[a] != s[b] by {
                if b == p.len() {
                    assert(s[a] == p[a]);
                }
            }
        } else {
            assert forall|x: SystemId| #[trigger] p.contains(x) <==> (x.0 < upto && deps[x.0 as int].len() == 0) by {
                if x.0 == upto - 1 {
                    assert(x == y);
                }
            }
        }
    }
}

impl ExecutorParallel {
    /// Chooses the variant and prepares it: `Dispatching` when all systems are statically
    /// disjoint and none has dependencies, `Scheduling` otherwise. Component type sets are condensed into
    /// bit sets over `all_component_types`; each system learns its dependants, and the
    /// systems without dependencies are queued first in every run, those with the most
    /// dependants first.
    pub fn build(systems: Vec<BuilderSystem>, all_component_types: Vec<TypeKey>) -> (r: Self)
        requires
            forall|s: int, k: int|
                0 <= s < systems@.len() && 0 <= k < systems@[s].dependencies@.len() ==> (
                #[trigger] systems@[s].dependencies@[k]).0 < s,
        ensures
            plans(systems@, all_component_types@, r),
    {
        let n = systems.len();
        let ghost deps = Seq::new(systems@.len(), |i: int| systems@[i].dependencies@);
        let ghost res = Seq::new(systems@.len(), |i: int| systems@[i].resource_set@);
        let ghost comp = Seq::new(systems@.len(), |i: int| BorrowBits {
            immutable: positions_in(all_component_types@, systems@[i].component_type_set.immutable@, all_component_types@.len() as int),
            mutable: positions_in(all_component_types@, systems@[i].component_type_set.mutable@, all_component_types@.len() as int),
        });
        // Split the builder's systems into dependency lists and borrow sets, condensing
        // component type sets into bit sets.
        let ghost orig = systems@;
        let mut systems = systems;
        let mut dependency_lists: Vec<Vec<SystemId>> = Vec::new();
        let mut access: Vec<SystemAccess> = Vec::new();
        let mut independent: Vec<SystemId> = Vec::new();
        let mut i: usize = 0;
        while i < n
            invariant
                n == systems@.len(),
                0 <= i <= n,
                dependency_lists@.len() == i,
                access@.len() == i,
                forall|k: int| 0 <= k < i ==> #[trigger] dependency_lists@[k]@ == deps[k],
                forall|k: int| 0 <= k < i ==> (#[trigger] access@[k]).bits() == (AccessBits {
                    resources: res[k],
                    components: comp[k],
                    archetypes: BorrowBits { immutable: Set::empty(), mutable: Set::empty() },
                }),
                forall|k: int| i <= k < n ==> #[trigger] systems@[k].dependencies@ == deps[k],
                forall|k: int| i <= k < n ==> #[trigger] systems@[k].resource_set@ == res[k],
                forall|k: int| i <= k < n ==> (#[trigger] systems@[k]).component_type_set.immutable@ == orig[k].component_type_set.immutable@,
                forall|k: int| i <= k < n ==> (#[trigger] systems@[k]).component_type_set.mutable@ == orig[k].component_type_set.mutable@,
                independent@ == independent_spec(deps, i as int),
                orig.len() == n,
                deps == Seq::new(orig.len(), |k: int| orig[k].dependencies@),
                res == Seq::new(orig.len(), |k: int| orig[k].resource_set@),
                deps.len() == n,
                res.len() == n,
                comp.len() == n,
                comp == Seq::new(n as nat, |k: int| BorrowBits {
                    immutable: positions_in(all_component_types@, orig[k].component_type_set.immutable@, all_component_types@.len() as int),
                    mutable: positions_in(all_component_types@, orig[k].component_type_set.mutable@, all_component_types@.len() as int),
                }),
            decreases n - i,
        {
            let mut system = BuilderSystem {
                dependencies: Vec::new(),
                resource_set: BorrowSet::with_capacity(0),
                component_type_set: BorrowTypeSet::new(),
            };
            systems.set_and_swap(i, &mut system);
            let BuilderSystem { dependencies, resource_set, component_type_set } = system;
            if dependencies.len() == 0 {
                independent.push(SystemId(i));
            }
            let component_set = component_type_set.condense(all_component_types.as_slice());
            dependency_lists.push(dependencies);
            access.push(SystemAccess { resource_set, component_set, archetype_set: ArchetypeSet::new() });
            proof {
                assert(access@[i as int].bits().components == comp[i as int]);
            }
            i = i + 1;
        }
        // Check whether all systems can run at the same time, ignoring dependencies.
        let disjoint = Self::check_all_disjoint(&access);
        proof {
            assert(Seq::new(access@.len(), |k: int| access@[k].bits().resources) =~= res);
            assert(Seq::new(access@.len(), |k: int| access@[k].bits().components) =~= comp);
        }
        if disjoint && independent.len() == n {
            proof {
                lemma_independent_len(deps, n as int);
            }
            let mut ids: Vec<SystemId> = Vec::new();
            let mut j: usize = 0;
            while j < n
                invariant
                    0 <= j <= n,
                    ids@ == Seq::new(j as nat, |k: int| SystemId(k as usize)),
                decreases n - j,
            {
                ids.push(SystemId(j));
                proof {
                    assert(ids@ =~= Seq::new((j + 1) as nat, |k: int| SystemId(k as usize)));
                }
                j = j + 1;
            }
            return ExecutorParallel::Dispatching(Dispatcher { systems: ids });
        }
        proof {
            lemma_independent_len(deps, n as int);
        }
        let queue = Self::build_run_queue(dependency_lists, independent, Ghost(deps));
        let r = Scheduler::new(queue, access);
        proof {
            assert(r.access_view() =~= Seq::new(n as nat, |k: int| AccessBits {
                resources: res[k],
                components: comp[k],
                archetypes: BorrowBits { immutable: Set::empty(), mutable: Set::empty() },
            }));
        }
        ExecutorParallel::Scheduling(r)
    }

    /// Makes the scheduling variant recompute archetype sets on its next run; the
    /// dispatching variant does not use archetype sets.
    pub fn force_archetype_recalculation(&mut self)
        requires
            match *old(self) {
                ExecutorParallel::Scheduling(s) => s.wf(),
                _ => true,
            },
        ensures
            match (*old(self), *final(self)) {
                (ExecutorParallel::Scheduling(a), ExecutorParallel::Scheduling(b)) => b.wf()
                    && b.run_queue() == a.run_queue() && b.access_view() == a.access_view()
                    && b.generation_view() == None::<u64>,
                (ExecutorParallel::Dispatching(a), ExecutorParallel::Dispatching(b)) => a == b,
                _ => false,
            },
    {
        match self {
            ExecutorParallel::Dispatching(_) => {},
            ExecutorParallel::Scheduling(scheduler) => scheduler.force_archetype_recalculation(),
        }
    }

    /// The dispatcher of an executor that was built as one.
    pub fn unwrap_to_dispatcher(self) -> (r: Dispatcher)
        requires
            self is Dispatching,
        ensures
            self == ExecutorParallel::Dispatching(r),
    {
        match self {
            ExecutorParallel::Dispatching(dispatcher) => dispatcher,
            _ => vstd::pervasive::unreached(),
        }
    }

    /// The scheduler of an executor that was built as one.
    pub fn unwrap_to_scheduler(self) -> (r: Scheduler)
        requires
            self is Scheduling,
        ensures
            self == ExecutorParallel::Scheduling(r),
    {
        match self {
            ExecutorParallel::Scheduling(scheduler) => scheduler,
            _ => vstd::pervasive::unreached(),
        }
    }

    /// Whether every pair of systems borrows resources and component types compatibly.
    fn check_all_disjoint(access: &Vec<SystemAccess>) -> (r: bool)
        ensures
            r == all_disjoint(
                Seq::new(access@.len(), |k: int| access@[k].bits().resources),
                Seq::new(access@.len(), |k: int| access@[k].bits().components),
            ),
    {
        let ghost res = Seq::new(access@.len(), |k: int| access@[k].bits().resources);
        let ghost comp = Seq::new(access@.len(), |k: int| access@[k].bits().components);
        let n = access.len();
        let mut i: usize = 0;
        while i < n
            invariant
                n == access@.len(),
                0 <= i <= n,
                res == Seq::new(access@.len(), |k: int| access@[k].bits().resources),
                comp == Seq::new(access@.len(), |k: int| access@[k].bits().components),
                forall|a: int, b: int| 0 <= a < i && a < b < n ==> #[trigger] pair_disjoint(res, comp, a, b),
            decreases n - i,
        {
            let mut j: usize = i + 1;
            while j < n
                invariant
                    n == access@.len(),
                    0 <= i < n,
                    i + 1 <= j <= n,
                    res == Seq::new(access@.len(), |k: int| access@[k].bits().resources),
                    comp == Seq::new(access@.len(), |k: int| access@[k].bits().components),
                    forall|a: int, b: int| 0 <= a < i && a < b < n ==> #[trigger] pair_disjoint(res, comp, a, b),
                    forall|b: int| i < b < j ==> #[trigger] pair_disjoint(res, comp, i as int, b),
                decreases n - j,
            {
                if !access[i].resource_set.is_compatible(&access[j].resource_set)
                    || !access[i].component_set.is_compatible(&access[j].component_set) {
                    proof {
                        assert(res[i as int] == access@[i as int].resource_set@);
                        assert(res[j as int] == access@[j as int].resource_set@);
                        assert(comp[i as int] == access@[i as int].component_set@);
                        assert(comp[j as int] == access@[j as int].component_set@);
                        assert(!pair_disjoint(res, comp, i as int, j as int));
                    }
                    return false;
                }
                proof {
                    assert(res[i as int] == access@[i as int].resource_set@);
                    assert(res[j as int] == access@[j as int].resource_set@);
                    assert(comp[i as int] == access@[i as int].component_set@);
                    assert(comp[j as int] == access@[j as int].component_set@);
                    assert(pair_disjoint(res, comp, i as int, j as int));
                }
                j = j + 1;
            }
            proof {
                assert forall|a: int, b: int| 0 <= a < i + 1 && a < b < n implies #[trigger] pair_disjoint(res, comp, a, b) by {
                    if a == i {
                        assert(pair_disjoint(res, comp, i as int, b));
                    }
                }
            }
            i = i + 1;
        }
        true
    }

    /// Turns dependency lists into dependants lists, and queues the independent systems by
    /// descending number of dependants.
    fn build_run_queue(
        dependency_lists: Vec<Vec<SystemId>>,
        independent: Vec<SystemId>,
        Ghost(deps): Ghost<Seq<Seq<SystemId>>>,
    ) -> (q: RunQueue)
        requires
            deps.len() == dependency_lists@.len(),
            forall|k: int| 0 <= k < deps.len() ==> #[trigger] dependency_lists@[k]@ == deps[k],
            forall|s: int, k: int| 0 <= s < deps.len() && 0 <= k < deps[s].len() ==> (#[trigger] deps[s][k]).0 < s,
            independent@ == independent_spec(deps, deps.len() as int),
        ensures
            queue_matches(q, deps),
    {
        let n = dependency_lists.len();
        let mut dependants: Vec<Vec<SystemId>> = Vec::new();
        let mut counts: Vec<usize> = Vec::new();
        let mut i: usize = 0;
        while i < n
            invariant
                0 <= i <= n,
                dependants@.len() == i,
                forall|k: int| 0 <= k < i ==> #[trigger] dependants@[k]@.len() == 0,
            decreases n - i,
        {
            dependants.push(Vec::new());
            i = i + 1;
        }
        let ghost dv0 = views_of(dependants@);
        proof {
            assert forall|x: int| 0 <= x < n implies #[trigger] pending(dv0, SystemId(x as usize), Set::empty(), n as int) == 0 by {
                lemma_pending_empty(dv0, SystemId(x as usize), n as int);
            }
        }
        let mut s: usize = 0;
        while s < n
            invariant
                n == dependency_lists@.len(),
                deps.len() == n,
                forall|k: int| 0 <= k < n ==> #[trigger] dependency_lists@[k]@ == deps[k],
                forall|a: int, k: int| 0 <= a < n && 0 <= k < deps[a].len() ==> (#[trigger] deps[a][k]).0 < a,
                0 <= s <= n,
                dependants@.len() == n,
                counts@.len() == s,
                forall|x: int| 0 <= x < s ==> #[trigger] counts@[x] == deps[x].len(),
                forall|d: int| 0 <= d < n ==> #[trigger] dependants@[d]@ == dependants_spec(deps, SystemId(d as usize), s as int),
                forall|x: int| 0 <= x < n ==> #[trigger] pending(views_of(dependants@), SystemId(x as usize), Set::empty(), n as int)
                    == if x < s { deps[x].len() } else { 0 },
                forall|d: int, k: int| 0 <= d < n && 0 <= k < dependants@[d]@.len() ==> (#[trigger] dependants@[d]@[k]).0 > d && dependants@[d]@[k].0 < s,
            decreases n - s,
        {
            let list = &dependency_lists[s];
            let mut t: usize = 0;
            while t < list.len()
                invariant
                    n == dependency_lists@.len(),
                    deps.len() == n,
                    0 <= s < n,
                    list@ == deps[s as int],
                    forall|k: int| 0 <= k < deps[s as int].len() ==> (#[trigger] deps[s as int][k]).0 < s,
                    0 <= t <= list@.len(),
                    dependants@.len() == n,
                    forall|d: int| 0 <= d < n ==> #[trigger] dependants@[d]@ == dependants_spec(deps, SystemId(d as usize), s as int)
                        + Seq::new(count_in(deps[s as int].take(t as int), SystemId(d as usize)), |_i: int| SystemId(s)),
                    forall|x: int| 0 <= x < n ==> #[trigger] pending(views_of(dependants@), SystemId(x as usize), Set::empty(), n as int)
                        == if x < s { deps[x].len() } else if x == s { t as nat } else { 0 },
                    forall|d: int, k: int| 0 <= d < n && 0 <= k < dependants@[d]@.len() ==> (#[trigger] dependants@[d]@[k]).0 > d && dependants@[d]@[k].0 <= s,
                decreases list@.len() - t,
            {
                let dependee = list[t];
                let ghost dv = views_of(dependants@);
                let mut entry: Vec<SystemId> = Vec::new();
                dependants.set_and_swap(dependee.0, &mut entry);
                entry.push(SystemId(s));
                dependants.set_and_swap(dependee.0, &mut entry);
                proof {
                    let d0 = dependee.0 as int;
                    let dv2 = views_of(dependants@);
                    assert(dv2 =~= dv.update(d0, dv[d0].push(SystemId(s))));
                    assert(deps[s as int].take(t + 1) == deps[s as int].take(t as int).push(dependee));
                    assert forall|x: int| 0 <= x < n implies #[trigger] pending(dv2, SystemId(x as usize), Set::empty(), n as int)
                        == if x < s { deps[x].len() } else if x == s { (t + 1) as nat } else { 0 } by {
                        lemma_pending_push(dv, d0, SystemId(s), SystemId(x as usize), Set::empty(), n as int);
                        if x == s {
                            assert(SystemId(x as usize) == SystemId(s));
                        } else {
                            assert(SystemId(x as usize) != SystemId(s));
                        }
                    }
                    assert forall|d: int| 0 <= d < n implies #[trigger] dependants@[d]@ == dependants_spec(deps, SystemId(d as usize), s as int)
                        + Seq::new(count_in(deps[s as int].take(t + 1), SystemId(d as usize)), |_i: int| SystemId(s)) by {
                        lemma_count_in_push(deps[s as int].take(t as int), dependee, SystemId(d as usize));
                        if d == d0 {
                            assert(SystemId(d as usize) == dependee);
                            assert(dependants@[d]@ =~= dependants_spec(deps, SystemId(d as usize), s as int)
                                + Seq::new(count_in(deps[s as int].take(t + 1), SystemId(d as usize)), |_i: int| SystemId(s)));
                        } else {
                            assert(SystemId(d as usize) != dependee);
                        }
                    }
                    assert forall|d: int, k: int| 0 <= d < n && 0 <= k < dependants@[d]@.len() implies (#[trigger] dependants@[d]@[k]).0 > d && dependants@[d]@[k].0 <= s by {
                        if d == d0 && k == dependants@[d]@.len() - 1 {
                            assert(dependee.0 < s);
                        } else {
                            assert(dependants@[d]@[k] == dv[d][k]);
                        }
                    }
                }
                t = t + 1;
            }
            counts.push(list.len());
            proof {
                assert(deps[s as int].take(t as int) == deps[s as int]);
                assert forall|d: int| 0 <= d < n implies #[trigger] dependants@[d]@ == dependants_spec(deps, SystemId(d as usize), s + 1) by {
                    assert(dependants_spec(deps, SystemId(d as usize), s + 1) == dependants_spec(deps, SystemId(d as usize), s as int)
                        + Seq::new(count_in(deps[s as int], SystemId(d as usize)), |_i: int| SystemId(((s + 1) - 1) as usize)));
                    assert(Seq::new(count_in(deps[s as int], SystemId(d as usize)), |_i: int| SystemId(((s + 1) - 1) as usize))
                        =~= Seq::new(count_in(deps[s as int], SystemId(d as usize)), |_i: int| SystemId(s)));
                }
            }
            s = s + 1;
        }
        // Entries for the independent systems, then ordered by descending number of dependants.
        let mut entries: Vec<Queued> = Vec::new();
        let mut k: usize = 0;
        let ghost dv = views_of(dependants@);
        proof {
            lemma_independent_spec(deps, n as int);
        }
        while k < independent.len()
            invariant
                0 <= k <= independent@.len(),
                independent@ == independent_spec(deps, n as int),
                forall|j: int| 0 <= j < independent@.len() ==> (#[trigger] independent@[j]).0 < n,
                dependants@.len() == n,
                dv == views_of(dependants@),
                entries@ == entries_for(dv, independent@.take(k as int)),
                forall|j: int| 0 <= j < entries@.len() ==> (#[trigger] entries@[j]).0.0 < n && entries@[j].1.0 == dv[entries@[j].0.0 as int].len(),
            decreases independent@.len() - k,
        {
            let id = independent[k];
            entries.push((id, DependantsLength(dependants[id.0].len())));
            proof {
                assert(entries@ =~= entries_for(dv, independent@.take(k + 1)));
            }
            k = k + 1;
        }
        proof {
            assert(independent@.take(k as int) == independent@);
        }
        let ghost ind = independent@;
        let ghost ents = entries@;
        proof {
            assert(ents == entries_for(dv, ind));
            assert forall|a: int, b: int| 0 <= a < b < ents.len() implies ents[a] != ents[b] by {
                assert(ents[a].0 == ind[a]);
                assert(ents[b].0 == ind[b]);
            }
            assert forall|x: SystemId| #[trigger] ind.contains(x) implies ents.contains((x, DependantsLength(dv[x.0 as int].len() as usize))) by {
                let j = choose|j: int| 0 <= j < ind.len() && ind[j] == x;
                assert(ents[j] == (x, DependantsLength(dv[x.0 as int].len() as usize)));
            }
        }
        let sorted = sort_by_dependants_desc(entries);
        proof {
            let sv = sorted@;
            assert(dv == Seq::new(dependants@.len(), |i: int| dependants@[i]@));
            assert forall|j: int| 0 <= j < sv.len() implies {
                let e = #[trigger] sv[j];
                &&& e.0.0 < dependants@.len()
                &&& e.1.0 == dependants@[e.0.0 as int]@.len()
                &&& counts@[e.0.0 as int] == 0
            } by {
                let e = sv[j];
                assert(sv.contains(e));
                assert(ents.contains(e));
                let j2 = choose|j2: int| 0 <= j2 < ents.len() && ents[j2] == e;
                assert(ind[j2] == e.0);
                assert(ind.contains(e.0));
            }
            assert forall|x: int| 0 <= x < dependants@.len() && #[trigger] counts@[x] == 0 implies sv.contains(
                (SystemId(x as usize), DependantsLength(dependants@[x]@.len() as usize)),
            ) by {
                assert(ind.contains(SystemId(x as usize)));
                assert(ents.contains((SystemId(x as usize), DependantsLength(dv[x].len() as usize))));
            }
        }
        let q = RunQueue::new(dependants, counts, sorted);
        q
    }
}

proof fn lemma_count_in_repeat(c: nat, z: SystemId, y: SystemId)
    ensures
        count_in(Seq::new(c, |_i: int| z), y) == if z == y { c } else { 0 },
    decreases c,
{
    if c > 0 {
        lemma_count_in_repeat((c - 1) as nat, z, y);
        assert(Seq::new(c, |_i: int| z).drop_last() =~= Seq::new((c - 1) as nat, |_i: int| z));
    }
}

/// System `d` lists as its dependants exactly the systems below `upto` that depend on it,
/// each as many times as it names `d` among its dependencies, in ascending order.
pub proof fn lemma_dependants_spec(deps: Seq<Seq<SystemId>>, d: SystemId, upto: int)
    requires
        0 <= upto <= deps.len(),
        deps.len() <= usize::MAX,
    ensures
        forall|s: int| 0 <= s < upto ==> count_in(dependants_spec(deps, d, upto), SystemId(s as usize)) == #[trigger] count_in(deps[s], d),
        forall|y: SystemId| #[trigger] dependants_spec(deps, d, upto).contains(y) <==> (y.0 < upto && deps[y.0 as int].contains(d)),
        forall|i: int, j: int| 0 <= i < j < dependants_spec(deps, d, upto).len()
            ==> (#[trigger] dependants_spec(deps, d, upto)[i]).0 <= (#[trigger] dependants_spec(deps, d, upto)[j]).0,
    decreases upto,
{
    if upto > 0 {
        lemma_dependants_spec(deps, d, upto - 1);
        let prev = dependants_spec(deps, d, upto - 1);
        let z = SystemId((upto - 1) as usize);
        let c = count_in(deps[upto - 1], d);
        let tail = Seq::new(c, |_i: int| z);
        let all = dependants_spec(deps, d, upto);
        assert(all == prev + tail);
        assert forall|y: SystemId| #[trigger] count_in(all, y) == count_in(prev, y) + (if z == y { c } else { 0 }) by {
            lemma_count_in_append(prev, tail, y);
            lemma_count_in_repeat(c, z, y);
        }
        assert forall|s: int| 0 <= s < upto implies count_in(all, SystemId(s as usize)) == #[trigger] count_in(deps[s], d) by {
            assert(count_in(all, SystemId(s as usize)) == count_in(prev, SystemId(s as usize)) + (if z == SystemId(s as usize) { c } else { 0 }));
            if s < upto - 1 {
                assert(z != SystemId(s as usize));
            } else {
                assert(!prev.contains(SystemId(s as usize)));
                lemma_count_in_zero(prev, SystemId(s as usize));
            }
        }
        assert forall|y: SystemId| #[trigger] all.contains(y) <==> (y.0 < upto && deps[y.0 as int].contains(d)) by {
            assert(count_in(all, y) == count_in(prev, y) + (if z == y { c } else { 0 }));
            lemma_count_in_zero(all, y);
            lemma_count_in_zero(prev, y);
            lemma_count_in_zero(deps[upto - 1], d);
            if y == z {
                assert(y.0 == upto - 1);
                assert(!prev.contains(y));
            }
        }
        assert forall|i: int, j: int| 0 <= i < j < all.len() implies (#[trigger] all[i]).0 <= (#[trigger] all[j]).0 by {
            if j >= prev.len() {
                assert(all[j] == z);
                if i < prev.len() {
                    assert(all[i] == prev[i]);
                    assert(prev.contains(prev[i]));
                } else {
                    assert(all[i] == z);
                }
            } else {
                assert(all[i] == prev[i]);
                assert(all[j] == prev[j]);
            }
        }
    }
}

/// The list of independent systems is complete exactly when every system is independent.
proof fn lemma_independent_len(deps: Seq<Seq<SystemId>>, upto: int)
    requires
        0 <= upto <= deps.len(),
    ensures
        independent_spec(deps, upto).len() <= upto,
        independent_spec(deps, upto).len() == upto <==> (forall|k: int| 0 <= k < upto ==> #[trigger] deps[k].len() == 0),
    decreases upto,
{
    if upto > 0 {
        lemma_independent_len(deps, upto - 1);
        if independent_spec(deps, upto).len() == upto {
            assert forall|k: int| 0 <= k < upto implies #[trigger] deps[k].len() == 0 by {
                if k < upto - 1 {
                    assert(independent_spec(deps, upto - 1).len() == upto - 1);
                }
            }
        }
    }
}

} // verus!
