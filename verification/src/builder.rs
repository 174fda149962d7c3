//! Building an executor: systems get identifiers in insertion order, may be given a
//! handle, and may depend on systems inserted before them by handle.
use vstd::prelude::*;
use crate::access_set::{BorrowSet, BorrowTypeSet};
use crate::plan::{plans, BuilderSystem, ExecutorParallel};
use crate::system_id::SystemId;
use crate::type_set::{TypeKey, TypeSet};

verus! {

/// A handle by which systems refer to each other, as an integer key.
pub type HandleKey = u64;

/// The handle type of a builder whose systems have no handles.
#[derive(Debug, Clone, Copy, PartialEq, Eq, Hash, Structural)]
pub struct DummyHandle;

/// Turns the handle table of a builder into one keyed by `Self`.
pub trait HandleConversion<T>: Sized {
    fn convert_handles(handles: Vec<(T, SystemId)>) -> Vec<(Self, SystemId)>;
}

impl HandleConversion<DummyHandle> for HandleKey {
    /// A table without handles has nothing to carry over.
    fn convert_handles(handles: Vec<(DummyHandle, SystemId)>) -> (r: Vec<(HandleKey, SystemId)>)
        ensures
            r@.len() == 0,
    {
        Vec::new()
    }
}

impl HandleConversion<HandleKey> for HandleKey {
    /// A table already keyed by integers is kept as it is.
    fn convert_handles(handles: Vec<(HandleKey, SystemId)>) -> (r: Vec<(HandleKey, SystemId)>)
        ensures
            r@ == handles@,
    {
        handles
    }
}

/// Builder of an executor's plan.
pub struct ExecutorBuilder {
    systems: Vec<BuilderSystem>,
    handles: Vec<(HandleKey, SystemId)>,
    all_component_types: TypeSet,
}

/// The id of the first handle that `handles` maps `key` to, if any.
pub open spec fn lookup(handles: Seq<(HandleKey, SystemId)>, key: HandleKey) -> Option<SystemId>
    decreases handles.len(),
{
    if handles.len() == 0 {
        None
    } else if handles[0].0 == key {
        Some(handles[0].1)
    } else {
        lookup(handles.drop_first(), key)
    }
}

/// The ids that `keys` resolve to, when all of them do.
pub open spec fn resolve_all(handles: Seq<(HandleKey, SystemId)>, keys: Seq<HandleKey>) -> Seq<SystemId> {
    keys.map_values(|k: HandleKey| lookup(handles, k).unwrap())
}

impl ExecutorBuilder {
    /// The systems inserted so far, in insertion order.
    pub closed spec fn systems_view(&self) -> Seq<BuilderSystem> {
        self.systems@
    }

    /// The handles given so far, each with its system.
    pub closed spec fn handles_view(&self) -> Seq<(HandleKey, SystemId)> {
        self.handles@
    }

    /// The component types of all systems, in the order they were first seen.
    pub closed spec fn component_types_view(&self) -> Seq<TypeKey> {
        self.all_component_types.order()
    }

    /// The component types of all systems.
    pub closed spec fn component_types_set(&self) -> Set<TypeKey> {
        self.all_component_types@
    }

    /// Every dependency is on an earlier system; every handle names an existing system,
    /// no handle is given twice and no system has two handles.
    pub open spec fn wf(&self) -> bool {
        let sys = self.systems_view();
        let h = self.handles_view();
        &&& forall|s: int, k: int|
            0 <= s < sys.len() && 0 <= k < sys[s].dependencies@.len() ==> (
            #[trigger] sys[s].dependencies@[k]).0 < s
        &&& forall|k: int| 0 <= k < h.len() ==> (#[trigger] h[k]).1.0 < sys.len()
        &&& forall|a: int, b: int| 0 <= a < b < h.len() ==> (#[trigger] h[a]).0 != (#[trigger] h[b]).0 && h[a].1 != h[b].1
    }

    /// A builder with no systems.
    pub fn new() -> (r: Self)
        ensures
            r.wf(),
            r.systems_view().len() == 0,
            r.handles_view().len() == 0,
            r.component_types_view().len() == 0,
    {
        ExecutorBuilder { systems: Vec::new(), handles: Vec::new(), all_component_types: TypeSet::new() }
    }

    /// Number of systems inserted so far; the next system gets this number as its id.
    pub fn len(&self) -> (r: usize)
        ensures
            r == self.systems_view().len(),
    {
        self.systems.len()
    }

    /// The system that `key` names, if any.
    pub fn handle_id(&self, key: HandleKey) -> (r: Option<SystemId>)
        ensures
            r == lookup(self.handles_view(), key),
    {
        let mut i: usize = 0;
        proof {
            assert(self.handles@.skip(0) == self.handles@);
        }
        while i < self.handles.len()
            invariant
                0 <= i <= self.handles@.len(),
                lookup(self.handles@, key) == lookup(self.handles@.skip(i as int), key),
            decreases self.handles@.len() - i,
        {
            proof {
                assert(self.handles@.skip(i as int).drop_first() == self.handles@.skip(i + 1));
            }
            if self.handles[i].0 == key {
                proof {
                    assert(self.handles@.skip(i as int)[0] == self.handles@[i as int]);
                }
                return Some(self.handles[i].1);
            }
            proof {
                assert(self.handles@.skip(i as int)[0] == self.handles@[i as int]);
            }
            i = i + 1;
        }
        proof {
            assert(self.handles@.skip(i as int).len() == 0);
        }
        None
    }

    /// Whether some system has handle `key`.
    pub fn has_handle(&self, key: HandleKey) -> (r: bool)
        ensures
            r == lookup(self.handles_view(), key) is Some,
    {
        self.handle_id(key).is_some()
    }

    /// The ids of the systems that `keys` name, in order; or the position of the first key
    /// that names no system.
    pub fn resolve_dependencies(&self, keys: &Vec<HandleKey>) -> (r: Result<Vec<SystemId>, usize>)
        ensures
            match r {
                Ok(ids) => (forall|k: int| 0 <= k < keys@.len() ==> lookup(self.handles_view(), #[trigger] keys@[k]) is Some)
                    && ids@ == resolve_all(self.handles_view(), keys@),
                Err(i) => i < keys@.len() && lookup(self.handles_view(), keys@[i as int]) is None
                    && forall|k: int| 0 <= k < i ==> lookup(self.handles_view(), #[trigger] keys@[k]) is Some,
            },
    {
        let mut ids: Vec<SystemId> = Vec::new();
        let mut i: usize = 0;
        while i < keys.len()
            invariant
                0 <= i <= keys@.len(),
                forall|k: int| 0 <= k < i ==> lookup(self.handles_view(), #[trigger] keys@[k]) is Some,
                ids@ == resolve_all(self.handles_view(), keys@.take(i as int)),
            decreases keys@.len() - i,
        {
            match self.handle_id(keys[i]) {
                Some(id) => {
                    ids.push(id);
                    proof {
                        assert(resolve_all(self.handles_view(), keys@.take(i + 1)) =~= resolve_all(self.handles_view(), keys@.take(i as int)).push(id));
                    }
                },
                None => {
                    return Err(i);
                },
            }
            i = i + 1;
        }
        proof {
            assert(keys@.take(i as int) == keys@);
        }
        Ok(ids)
    }

    /// Adds a system with the given dependencies (ids of earlier systems) and an optional
    /// handle.
    fn insert(
        &mut self,
        resource_set: BorrowSet,
        component_type_set: BorrowTypeSet,
        dependencies: Vec<SystemId>,
        handle: Option<HandleKey>,
    )
        requires
            old(self).wf(),
            forall|k: int| 0 <= k < dependencies@.len() ==> (#[trigger] dependencies@[k]).0 < old(self).systems_view().len(),
            handle matches Some(h) ==> lookup(old(self).handles_view(), h) is None,
        ensures
            final(self).wf(),
            final(self).systems_view() == old(self).systems_view().push(BuilderSystem {
                dependencies: dependencies,
                resource_set: resource_set,
                component_type_set: component_type_set,
            }),
            final(self).handles_view() == match handle {
                Some(h) => old(self).handles_view().push((h, SystemId(old(self).systems_view().len() as usize))),
                None => old(self).handles_view(),
            },
            final(self).component_types_set() == old(self).component_types_set().union(component_type_set.immutable@).union(component_type_set.mutable@),
    {
        let id = SystemId(self.systems.len());
        self.all_component_types.extend(&component_type_set.immutable);
        self.all_component_types.extend(&component_type_set.mutable);
        let ghost sys0 = self.systems@;
        self.systems.push(BuilderSystem { dependencies, resource_set, component_type_set });
        match handle {
            Some(h) => {
                proof {
                    lemma_lookup_none(self.handles@, h);
                }
                self.handles.push((h, id));
            },
            None => {},
        }
        proof {
            let sys = self.systems_view();
            assert forall|s: int, k: int|
                0 <= s < sys.len() && 0 <= k < sys[s].dependencies@.len() implies (#[trigger] sys[s].dependencies@[k]).0 < s by {
                if s < sys0.len() {
                    assert(sys[s] == sys0[s]);
                }
            }
            let h = self.handles_view();
            assert forall|a: int, b: int| 0 <= a < b < h.len() implies (#[trigger] h[a]).0 != (#[trigger] h[b]).0 && h[a].1 != h[b].1 by {
                if b == h.len() - 1 && handle is Some {
                    assert(old(self).handles_view()[a] == h[a]);
                    assert(old(self).handles_view()[a].1.0 < sys0.len());
                } else {
                    assert(old(self).handles_view()[a] == h[a]);
                    assert(old(self).handles_view()[b] == h[b]);
                }
            }
            assert forall|k: int| 0 <= k < h.len() implies (#[trigger] h[k]).1.0 < sys.len() by {
                if k < old(self).handles_view().len() {
                    assert(old(self).handles_view()[k] == h[k]);
                }
            }
        }
    }

    /// Adds a system without handle or dependencies; its id is the number of systems
    /// inserted before it.
    pub fn system(self, resource_set: BorrowSet, component_type_set: BorrowTypeSet) -> (r: Self)
        requires
            self.wf(),
        ensures
            r.wf(),
            r.systems_view() == self.systems_view().push(BuilderSystem {
                dependencies: r.systems_view().last().dependencies,
                resource_set: resource_set,
                component_type_set: component_type_set,
            }),
            r.systems_view().last().dependencies@.len() == 0,
            r.handles_view() == self.handles_view(),
            r.component_types_set() == self.component_types_set().union(component_type_set.immutable@).union(component_type_set.mutable@),
    {
        let mut b = self;
        b.insert(resource_set, component_type_set, Vec::new(), None);
        b
    }

    /// Adds a system that other systems can depend on by `handle`; `handle` must not be
    /// taken yet.
    pub fn system_with_handle(self, resource_set: BorrowSet, component_type_set: BorrowTypeSet, handle: HandleKey) -> (r: Self)
        requires
            self.wf(),
            lookup(self.handles_view(), handle) is None,
        ensures
            r.wf(),
            r.systems_view() == self.systems_view().push(BuilderSystem {
                dependencies: r.systems_view().last().dependencies,
                resource_set: resource_set,
                component_type_set: component_type_set,
            }),
            r.systems_view().last().dependencies@.len() == 0,
            r.handles_view() == self.handles_view().push((handle, SystemId(self.systems_view().len() as usize))),
            r.component_types_set() == self.component_types_set().union(component_type_set.immutable@).union(component_type_set.mutable@),
    {
        let mut b = self;
        b.insert(resource_set, component_type_set, Vec::new(), Some(handle));
        b
    }

    /// Adds a system that runs only after the systems named by `dependencies` have finished;
    /// each of them must name a system already inserted.
    pub fn system_with_deps(self, resource_set: BorrowSet, component_type_set: BorrowTypeSet, dependencies: Vec<HandleKey>) -> (r: Self)
        requires
            self.wf(),
            forall|k: int| 0 <= k < dependencies@.len() ==> lookup(self.handles_view(), #[trigger] dependencies@[k]) is Some,
        ensures
            r.wf(),
            r.systems_view() == self.systems_view().push(BuilderSystem {
                dependencies: r.systems_view().last().dependencies,
                resource_set: resource_set,
                component_type_set: component_type_set,
            }),
            r.systems_view().last().dependencies@ == resolve_all(self.handles_view(), dependencies@),
            r.handles_view() == self.handles_view(),
            r.component_types_set() == self.component_types_set().union(component_type_set.immutable@).union(component_type_set.mutable@),
    {
        let mut b = self;
        let ids = match b.resolve_dependencies(&dependencies) {
            Ok(ids) => ids,
            Err(_) => {
                proof {
                    assert(false);
                }
                Vec::new()
            },
        };
        proof {
            b.lemma_resolved_earlier(dependencies@);
        }
        b.insert(resource_set, component_type_set, ids, None);
        b
    }

    /// Adds a system with a handle that runs only after the systems named by `dependencies`
    /// have finished; `handle` must not be taken yet nor be among `dependencies`, and each
    /// dependency must name a system already inserted.
    pub fn system_with_handle_and_deps(
        self,
        resource_set: BorrowSet,
        component_type_set: BorrowTypeSet,
        handle: HandleKey,
        dependencies: Vec<HandleKey>,
    ) -> (r: Self)
        requires
            self.wf(),
            lookup(self.handles_view(), handle) is None,
            !dependencies@.contains(handle),
            forall|k: int| 0 <= k < dependencies@.len() ==> lookup(self.handles_view(), #[trigger] dependencies@[k]) is Some,
        ensures
            r.wf(),
            r.systems_view() == self.systems_view().push(BuilderSystem {
                dependencies: r.systems_view().last().dependencies,
                resource_set: resource_set,
                component_type_set: component_type_set,
            }),
            r.systems_view().last().dependencies@ == resolve_all(self.handles_view(), dependencies@),
            r.handles_view() == self.handles_view().push((handle, SystemId(self.systems_view().len() as usize))),
            r.component_types_set() == self.component_types_set().union(component_type_set.immutable@).union(component_type_set.mutable@),
    {
        let mut b = self;
        let ids = match b.resolve_dependencies(&dependencies) {
            Ok(ids) => ids,
            Err(_) => {
                proof {
                    assert(false);
                }
                Vec::new()
            },
        };
        proof {
            b.lemma_resolved_earlier(dependencies@);
        }
        b.insert(resource_set, component_type_set, ids, Some(handle));
        b
    }

    /// Resolved handles name systems already inserted.
    proof fn lemma_resolved_earlier(&self, keys: Seq<HandleKey>)
        requires
            self.wf(),
            forall|k: int| 0 <= k < keys.len() ==> lookup(self.handles_view(), #[trigger] keys[k]) is Some,
        ensures
            forall|k: int| 0 <= k < keys.len() ==> (#[trigger] resolve_all(self.handles_view(), keys)[k]).0 < self.systems_view().len(),
    {
        assert forall|k: int| 0 <= k < keys.len() implies (#[trigger] resolve_all(self.handles_view(), keys)[k]).0 < self.systems_view().len() by {
            lemma_lookup_some(self.handles_view(), keys[k]);
            let j = choose|j: int| 0 <= j < self.handles_view().len() && self.handles_view()[j].0 == keys[k] && self.handles_view()[j].1 == lookup(self.handles_view(), keys[k]).unwrap();
        }
    }

    /// Plans the executor for the systems inserted (see [`ExecutorParallel::build`]).
    pub fn build(self) -> (r: ExecutorParallel)
        requires
            self.wf(),
        ensures
            plans(self.systems_view(), self.component_types_view(), r),
    {
        let all_types = self.all_component_types.to_vec();
        proof {
            let sys = self.systems_view();
            assert forall|s: int, k: int|
                0 <= s < self.systems@.len() && 0 <= k < self.systems@[s].dependencies@.len() implies (
                #[trigger] self.systems@[s].dependencies@[k]).0 < s by {
                assert(sys[s].dependencies@[k] == self.systems@[s].dependencies@[k]);
            }
        }
        ExecutorParallel::build(self.systems, all_types)
    }
}

/// A key that `lookup` does not find occurs nowhere.
pub proof fn lemma_lookup_none(handles: Seq<(HandleKey, SystemId)>, key: HandleKey)
    requires
        lookup(handles, key) is None,
    ensures
        forall|k: int| 0 <= k < handles.len() ==> (#[trigger] handles[k]).0 != key,
    decreases handles.len(),
{
    if handles.len() > 0 {
        lemma_lookup_none(handles.drop_first(), key);
        assert forall|k: int| 0 <= k < handles.len() implies (#[trigger] handles[k]).0 != key by {
            if k > 0 {
                assert(handles[k] == handles.drop_first()[k - 1]);
            }
        }
    }
}

/// A key that `lookup` finds occurs with the id it returns.
pub proof fn lemma_lookup_some(handles: Seq<(HandleKey, SystemId)>, key: HandleKey)
    requires
        lookup(handles, key) is Some,
    ensures
        exists|j: int| 0 <= j < handles.len() && handles[j].0 == key && handles[j].1 == lookup(handles, key).unwrap(),
    decreases handles.len(),
{
    if handles[0].0 != key {
        lemma_lookup_some(handles.drop_first(), key);
        let j = choose|j: int| 0 <= j < handles.drop_first().len() && handles.drop_first()[j].0 == key && handles.drop_first()[j].1 == lookup(handles.drop_first(), key).unwrap();
        assert(handles[j + 1] == handles.drop_first()[j]);
    }
}

/// A key that `lookup` finds resolves to the id of its first occurrence.
pub proof fn lemma_lookup_first(handles: Seq<(HandleKey, SystemId)>, key: HandleKey)
    requires
        lookup(handles, key) is Some,
    ensures
        exists|j: int| 0 <= j < handles.len() && handles[j] == (key, lookup(handles, key).unwrap())
            && forall|i: int| 0 <= i < j ==> (#[trigger] handles[i]).0 != key,
    decreases handles.len(),
{
    if handles[0].0 != key {
        let rest = handles.drop_first();
        lemma_lookup_first(rest, key);
        let j = choose|j: int| 0 <= j < rest.len() && rest[j] == (key, lookup(rest, key).unwrap())
            && forall|i: int| 0 <= i < j ==> (#[trigger] rest[i]).0 != key;
        assert(handles[j + 1] == rest[j]);
        assert forall|i: int| 0 <= i < j + 1 implies (#[trigger] handles[i]).0 != key by {
            if i > 0 {
                assert(handles[i] == rest[i - 1]);
            }
        }
    } else {
        assert(handles[0] == (key, lookup(handles, key).unwrap()));
    }
}

} // verus!
