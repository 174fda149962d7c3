//! A staged executor: systems are grouped into stages whose resource borrows fit
//! together, each split into sub-stages whose component borrows fit together.
//!
//! A system joins the first stage it fits into, and within it the first sub-stage it fits
//! into; there it is run in insertion order. Stages are never opened here, so a system that
//! fits nowhere is not kept.
use vstd::prelude::*;
use crate::metadata::{borrows_compatible, lemma_borrows_compatible_means_no_clash, SystemMetadata, SystemWithMetadata};
use crate::type_set::{TypeKey, TypeSet};

verus! {

/// The borrows of a system, as sets.
pub ghost struct MetadataView {
    pub resources_immutable: Set<TypeKey>,
    pub resources_mutable: Set<TypeKey>,
    pub components_immutable: Set<TypeKey>,
    pub components_mutable: Set<TypeKey>,
}

/// The borrows of `m`, as sets.
pub open spec fn metadata_view(m: SystemMetadata) -> MetadataView {
    MetadataView {
        resources_immutable: m.resources_immutable@,
        resources_mutable: m.resources_mutable@,
        components_immutable: m.components_immutable@,
        components_mutable: m.components_mutable@,
    }
}

/// A sub-stage: its systems in order, and the component types they read and write.
pub ghost struct InnerView<S> {
    pub systems: Seq<S>,
    pub components_immutable: Set<TypeKey>,
    pub components_mutable: Set<TypeKey>,
}

/// A stage: its sub-stages, and the resource types its systems read and write.
pub ghost struct OuterView<S> {
    pub stages: Seq<InnerView<S>>,
    pub resources_immutable: Set<TypeKey>,
    pub resources_mutable: Set<TypeKey>,
}

/// Whether a system with borrows `m` fits into sub-stage `st`.
pub open spec fn fits_inner<S>(st: InnerView<S>, m: MetadataView) -> bool {
    borrows_compatible(m.components_immutable, m.components_mutable, st.components_immutable, st.components_mutable)
}

/// Whether a system with borrows `m` fits into stage `st`.
pub open spec fn fits_outer<S>(st: OuterView<S>, m: MetadataView) -> bool {
    borrows_compatible(m.resources_immutable, m.resources_mutable, st.resources_immutable, st.resources_mutable)
}

/// The index of the first sub-stage that `m` fits into, or the number of sub-stages.
pub open spec fn first_inner<S>(stages: Seq<InnerView<S>>, m: MetadataView) -> int
    decreases stages.len(),
{
    if stages.len() == 0 {
        0
    } else if fits_inner(stages[0], m) {
        0
    } else {
        1 + first_inner(stages.drop_first(), m)
    }
}

/// The index of the first stage that `m` fits into, or the number of stages.
pub open spec fn first_outer<S>(stages: Seq<OuterView<S>>, m: MetadataView) -> int
    decreases stages.len(),
{
    if stages.len() == 0 {
        0
    } else if fits_outer(stages[0], m) {
        0
    } else {
        1 + first_outer(stages.drop_first(), m)
    }
}

/// Sub-stage `st` after system `system` with borrows `m` joins it.
pub open spec fn inner_added<S>(st: InnerView<S>, system: S, m: MetadataView) -> InnerView<S> {
    InnerView {
        systems: st.systems.push(system),
        components_immutable: st.components_immutable.union(m.components_immutable),
        components_mutable: st.components_mutable.union(m.components_mutable),
    }
}

/// Stage `st` after system `system` with borrows `m` joins it: its resource borrows grow,
/// and the system joins the first sub-stage it fits into, if any.
pub open spec fn outer_added<S>(st: OuterView<S>, system: S, m: MetadataView) -> OuterView<S> {
    let i = first_inner(st.stages, m);
    OuterView {
        stages: if i < st.stages.len() {
            st.stages.update(i, inner_added(st.stages[i], system, m))
        } else {
            st.stages
        },
        resources_immutable: st.resources_immutable.union(m.resources_immutable),
        resources_mutable: st.resources_mutable.union(m.resources_mutable),
    }
}

/// The stages after system `system` with borrows `m` is added: it joins the first stage
/// it fits into, if any.
pub open spec fn executor_added<S>(stages: Seq<OuterView<S>>, system: S, m: MetadataView) -> Seq<OuterView<S>> {
    let i = first_outer(stages, m);
    if i < stages.len() {
        stages.update(i, outer_added(stages[i], system, m))
    } else {
        stages
    }
}

/// Every sub-stage that a system joins was one it fits into, and every earlier one was not.
pub proof fn lemma_first_inner<S>(stages: Seq<InnerView<S>>, m: MetadataView)
    ensures
        0 <= first_inner(stages, m) <= stages.len(),
        first_inner(stages, m) < stages.len() ==> fits_inner(stages[first_inner(stages, m)], m),
        forall|j: int| 0 <= j < first_inner(stages, m) ==> !fits_inner(#[trigger] stages[j], m),
    decreases stages.len(),
{
    if stages.len() > 0 && !fits_inner(stages[0], m) {
        lemma_first_inner(stages.drop_first(), m);
        assert forall|j: int| 0 <= j < first_inner(stages, m) implies !fits_inner(#[trigger] stages[j], m) by {
            if j > 0 {
                assert(stages.drop_first()[j - 1] == stages[j]);
            }
        }
    }
}

/// Every stage that a system joins was one it fits into, and every earlier one was not.
pub proof fn lemma_first_outer<S>(stages: Seq<OuterView<S>>, m: MetadataView)
    ensures
        0 <= first_outer(stages, m) <= stages.len(),
        first_outer(stages, m) < stages.len() ==> fits_outer(stages[first_outer(stages, m)], m),
        forall|j: int| 0 <= j < first_outer(stages, m) ==> !fits_outer(#[trigger] stages[j], m),
    decreases stages.len(),
{
    if stages.len() > 0 && !fits_outer(stages[0], m) {
        lemma_first_outer(stages.drop_first(), m);
        assert forall|j: int| 0 <= j < first_outer(stages, m) implies !fits_outer(#[trigger] stages[j], m) by {
            if j > 0 {
                assert(stages.drop_first()[j - 1] == stages[j]);
            }
        }
    }
}

/// A system fits into a sub-stage exactly when no component type is written by the system
/// and read or written in the sub-stage, or read by the system and written in the sub-stage.
pub proof fn lemma_fits_inner_means_no_clash<S>(st: InnerView<S>, m: MetadataView)
    ensures
        fits_inner(st, m) <==> (forall|t: TypeKey|
            !(m.components_mutable.contains(t) && (st.components_mutable.contains(t) || st.components_immutable.contains(t)))
                && !(m.components_immutable.contains(t) && st.components_mutable.contains(t))),
{
    lemma_borrows_compatible_means_no_clash(m.components_immutable, m.components_mutable, st.components_immutable, st.components_mutable);
}

/// A system fits into a stage exactly when no resource type is written by the system and
/// read or written in the stage, or read by the system and written in the stage.
pub proof fn lemma_fits_outer_means_no_clash<S>(st: OuterView<S>, m: MetadataView)
    ensures
        fits_outer(st, m) <==> (forall|t: TypeKey|
            !(m.resources_mutable.contains(t) && (st.resources_mutable.contains(t) || st.resources_immutable.contains(t)))
                && !(m.resources_immutable.contains(t) && st.resources_mutable.contains(t))),
{
    lemma_borrows_compatible_means_no_clash(m.resources_immutable, m.resources_mutable, st.resources_immutable, st.resources_mutable);
}

/// Once a system has joined a stage, the stage reads and writes every resource type it
/// read or wrote before and every one the system reads or writes, and no other; its
/// number of sub-stages stays.
pub proof fn lemma_outer_added_borrows<S>(st: OuterView<S>, system: S, m: MetadataView)
    ensures
        forall|t: TypeKey| #[trigger] outer_added(st, system, m).resources_immutable.contains(t)
            <==> (st.resources_immutable.contains(t) || m.resources_immutable.contains(t)),
        forall|t: TypeKey| #[trigger] outer_added(st, system, m).resources_mutable.contains(t)
            <==> (st.resources_mutable.contains(t) || m.resources_mutable.contains(t)),
        outer_added(st, system, m).stages.len() == st.stages.len(),
{
    lemma_first_inner(st.stages, m);
}

/// Once a system has joined a stage, no system that writes a resource type it reads or
/// writes, or reads one it writes, fits into that stage.
pub proof fn lemma_outer_added_refuses_conflict<S>(st: OuterView<S>, system: S, m: MetadataView, other: MetadataView, t: TypeKey)
    requires
        ((m.resources_immutable.contains(t) || m.resources_mutable.contains(t)) && other.resources_mutable.contains(t))
            || (m.resources_mutable.contains(t) && other.resources_immutable.contains(t)),
    ensures
        !fits_outer(outer_added(st, system, m), other),
{
    lemma_outer_added_borrows(st, system, m);
    lemma_fits_outer_means_no_clash(outer_added(st, system, m), other);
}

/// Once a system has joined a sub-stage, the sub-stage holds its systems, then the new one,
/// and reads and writes every component type it read or wrote before and every one the
/// system reads or writes, and no other.
pub proof fn lemma_inner_added_borrows<S>(st: InnerView<S>, system: S, m: MetadataView)
    ensures
        inner_added(st, system, m).systems.len() == st.systems.len() + 1,
        forall|i: int| 0 <= i < st.systems.len() ==> #[trigger] inner_added(st, system, m).systems[i] == st.systems[i],
        inner_added(st, system, m).systems[st.systems.len() as int] == system,
        forall|t: TypeKey| #[trigger] inner_added(st, system, m).components_immutable.contains(t)
            <==> (st.components_immutable.contains(t) || m.components_immutable.contains(t)),
        forall|t: TypeKey| #[trigger] inner_added(st, system, m).components_mutable.contains(t)
            <==> (st.components_mutable.contains(t) || m.components_mutable.contains(t)),
{
}

/// Once a system has joined a sub-stage, no system that writes a component type it reads
/// or writes, or reads one it writes, fits into that sub-stage.
pub proof fn lemma_inner_added_refuses_conflict<S>(st: InnerView<S>, system: S, m: MetadataView, other: MetadataView, t: TypeKey)
    requires
        ((m.components_immutable.contains(t) || m.components_mutable.contains(t)) && other.components_mutable.contains(t))
            || (m.components_mutable.contains(t) && other.components_immutable.contains(t)),
    ensures
        !fits_inner(inner_added(st, system, m), other),
{
    lemma_inner_added_borrows(st, system, m);
    lemma_fits_inner_means_no_clash(inner_added(st, system, m), other);
}

/// Within a stage, a system joins the first sub-stage it fits into, at its end, and no
/// other sub-stage changes; when it fits into none, no sub-stage changes.
pub proof fn lemma_outer_added_places<S>(st: OuterView<S>, system: S, m: MetadataView)
    ensures
        ({
            let i = first_inner(st.stages, m);
            let after = outer_added(st, system, m).stages;
            &&& after.len() == st.stages.len()
            &&& i < st.stages.len() ==> after[i].systems == st.stages[i].systems.push(system)
            &&& forall|j: int| 0 <= j < st.stages.len() && j != i ==> #[trigger] after[j] == st.stages[j]
        }),
{
    lemma_first_inner(st.stages, m);
}

/// A system joins the first stage it fits into, and no other stage changes; when it fits
/// into none, nothing changes.
pub proof fn lemma_executor_added_places<S>(stages: Seq<OuterView<S>>, system: S, m: MetadataView)
    ensures
        ({
            let i = first_outer(stages, m);
            let after = executor_added(stages, system, m);
            &&& after.len() == stages.len()
            &&& i < stages.len() ==> after[i] == outer_added(stages[i], system, m)
            &&& forall|j: int| 0 <= j < stages.len() && j != i ==> #[trigger] after[j] == stages[j]
        }),
{
    lemma_first_outer(stages, m);
}

/// A sub-stage: systems whose component borrows fit together.
pub struct Stage2<S> {
    pub systems: Vec<S>,
    pub components_immutable: TypeSet,
    pub components_mutable: TypeSet,
}

/// A stage: sub-stages of systems whose resource borrows fit together.
pub struct Stage1<S> {
    pub stages: Vec<Stage2<S>>,
    pub resources_immutable: TypeSet,
    pub resources_mutable: TypeSet,
}

/// The sub-stages, as views.
pub open spec fn inner_views<S>(stages: Seq<Stage2<S>>) -> Seq<InnerView<S>> {
    stages.map_values(|st: Stage2<S>| st.view())
}

/// The stages, as views.
pub open spec fn outer_views<S>(stages: Seq<Stage1<S>>) -> Seq<OuterView<S>> {
    stages.map_values(|st: Stage1<S>| st.view())
}

impl<S> View for Stage2<S> {
    type V = InnerView<S>;

    open spec fn view(&self) -> InnerView<S> {
        InnerView {
            systems: self.systems@,
            components_immutable: self.components_immutable@,
            components_mutable: self.components_mutable@,
        }
    }
}

impl<S> View for Stage1<S> {
    type V = OuterView<S>;

    open spec fn view(&self) -> OuterView<S> {
        OuterView {
            stages: inner_views(self.stages@),
            resources_immutable: self.resources_immutable@,
            resources_mutable: self.resources_mutable@,
        }
    }
}

impl<S> Stage2<S> {
    /// A sub-stage without systems.
    pub fn new() -> (r: Self)
        ensures
            r@.systems.len() == 0,
            r@.components_immutable == Set::<TypeKey>::empty(),
            r@.components_mutable == Set::<TypeKey>::empty(),
    {
        Stage2 { systems: Vec::new(), components_immutable: TypeSet::new(), components_mutable: TypeSet::new() }
    }

    /// Whether the system's component borrows fit with those of the sub-stage.
    pub fn is_compatible(&self, swm: &SystemWithMetadata<S>) -> (r: bool)
        ensures
            r == fits_inner(self@, metadata_view(swm.metadata)),
    {
        swm.metadata.are_component_borrows_compatible(&self.components_immutable, &self.components_mutable)
    }

    /// Adds the system at the end of the sub-stage, with its component borrows.
    pub fn add(&mut self, swm: SystemWithMetadata<S>)
        ensures
            final(self)@ == inner_added(old(self)@, swm.system, metadata_view(swm.metadata)),
            final(self)@.systems == old(self)@.systems.push(swm.system),
            final(self)@.components_immutable == old(self)@.components_immutable.union(swm.metadata.components_immutable@),
            final(self)@.components_mutable == old(self)@.components_mutable.union(swm.metadata.components_mutable@),
    {
        self.components_immutable.extend(&swm.metadata.components_immutable);
        self.components_mutable.extend(&swm.metadata.components_mutable);
        let SystemWithMetadata { system, metadata: _ } = swm;
        self.systems.push(system);
    }
}

impl<S> Stage1<S> {
    /// A stage without sub-stages.
    pub fn new() -> (r: Self)
        ensures
            r@.stages.len() == 0,
            r@.resources_immutable == Set::<TypeKey>::empty(),
            r@.resources_mutable == Set::<TypeKey>::empty(),
    {
        let r = Stage1 { stages: Vec::new(), resources_immutable: TypeSet::new(), resources_mutable: TypeSet::new() };
        proof {
            assert(inner_views(r.stages@) =~= Seq::<InnerView<S>>::empty());
        }
        r
    }

    /// Whether the system's resource borrows fit with those of the stage.
    pub fn is_compatible(&self, swm: &SystemWithMetadata<S>) -> (r: bool)
        ensures
            r == fits_outer(self@, metadata_view(swm.metadata)),
    {
        swm.metadata.are_resource_borrows_compatible(&self.resources_immutable, &self.resources_mutable)
    }

    /// Adds the system's resource borrows to the stage, and the system to the first
    /// sub-stage it fits into.
    pub fn add(&mut self, swm: SystemWithMetadata<S>)
        ensures
            final(self)@ == outer_added(old(self)@, swm.system, metadata_view(swm.metadata)),
            final(self)@.resources_immutable == old(self)@.resources_immutable.union(swm.metadata.resources_immutable@),
            final(self)@.resources_mutable == old(self)@.resources_mutable.union(swm.metadata.resources_mutable@),
            final(self)@.stages.len() == old(self)@.stages.len(),
    {
        let ghost m = metadata_view(swm.metadata);
        let ghost before = inner_views(self.stages@);
        self.resources_immutable.extend(&swm.metadata.resources_immutable);
        self.resources_mutable.extend(&swm.metadata.resources_mutable);
        proof { lemma_first_inner(before, m); }
        let mut i: usize = 0;
        while i < self.stages.len() && !self.stages[i].is_compatible(&swm)
            invariant
                0 <= i <= self.stages@.len(),
                before == inner_views(self.stages@),
                m == metadata_view(swm.metadata),
                forall|j: int| 0 <= j < i ==> !fits_inner(#[trigger] before[j], m),
                0 <= first_inner(before, m) <= before.len(),
                first_inner(before, m) < before.len() ==> fits_inner(before[first_inner(before, m)], m),
                forall|j: int| 0 <= j < first_inner(before, m) ==> !fits_inner(#[trigger] before[j], m),
            decreases self.stages@.len() - i,
        {
            proof {
                assert(before[i as int] == self.stages@[i as int]@);
            }
            i = i + 1;
        }
        proof {
            if i < self.stages@.len() {
                assert(before[i as int] == self.stages@[i as int]@);
                if first_inner(before, m) < i {
                    assert(!fits_inner(before[first_inner(before, m)], m));
                }
                if first_inner(before, m) > i {
                    assert(!fits_inner(before[i as int], m));
                }
            } else if first_inner(before, m) < i {
                assert(!fits_inner(before[first_inner(before, m)], m));
            }
        }
        if i < self.stages.len() {
            let mut stage = Stage2::new();
            self.stages.set_and_swap(i, &mut stage);
            stage.add(swm);
            self.stages.set_and_swap(i, &mut stage);
            proof {
                assert(inner_views(self.stages@) =~= before.update(i as int, inner_added(before[i as int], swm.system, m)));
            }
        }
    }
}

/// An executor of stages.
pub struct Executor<S> {
    stages: Vec<Stage1<S>>,
}

impl<S> Executor<S> {
    /// The stages, in order.
    pub closed spec fn stages_view(&self) -> Seq<OuterView<S>> {
        outer_views(self.stages@)
    }

    /// An executor without stages.
    pub fn new() -> (r: Self)
        ensures
            r.stages_view().len() == 0,
    {
        let r = Executor { stages: Vec::new() };
        proof {
            assert(outer_views(r.stages@) =~= Seq::<OuterView<S>>::empty());
        }
        r
    }

    /// Adds the system to the first stage it fits into; one that fits into no stage is
    /// not kept.
    pub fn add(&mut self, swm: SystemWithMetadata<S>)
        ensures
            final(self).stages_view() == executor_added(old(self).stages_view(), swm.system, metadata_view(swm.metadata)),
    {
        let ghost m = metadata_view(swm.metadata);
        let ghost before = outer_views(self.stages@);
        proof { lemma_first_outer(before, m); }
        let mut i: usize = 0;
        while i < self.stages.len() && !self.stages[i].is_compatible(&swm)
            invariant
                0 <= i <= self.stages@.len(),
                before == outer_views(self.stages@),
                m == metadata_view(swm.metadata),
                forall|j: int| 0 <= j < i ==> !fits_outer(#[trigger] before[j], m),
                0 <= first_outer(before, m) <= before.len(),
                first_outer(before, m) < before.len() ==> fits_outer(before[first_outer(before, m)], m),
                forall|j: int| 0 <= j < first_outer(before, m) ==> !fits_outer(#[trigger] before[j], m),
            decreases self.stages@.len() - i,
        {
            proof {
                assert(before[i as int] == self.stages@[i as int]@);
            }
            i = i + 1;
        }
        proof {
            if i < self.stages@.len() {
                assert(before[i as int] == self.stages@[i as int]@);
                if first_outer(before, m) < i {
                    assert(!fits_outer(before[first_outer(before, m)], m));
                }
                if first_outer(before, m) > i {
                    assert(!fits_outer(before[i as int], m));
                }
            } else if first_outer(before, m) < i {
                assert(!fits_outer(before[first_outer(before, m)], m));
            }
        }
        if i < self.stages.len() {
            let mut stage = Stage1::new();
            self.stages.set_and_swap(i, &mut stage);
            stage.add(swm);
            self.stages.set_and_swap(i, &mut stage);
            proof {
                assert(outer_views(self.stages@) =~= before.update(i as int, outer_added(before[i as int], swm.system, m)));
            }
        }
    }

    /// Adds the system as [`add`](Self::add) does, and hands the executor back.
    pub fn with(self, swm: SystemWithMetadata<S>) -> (r: Self)
        ensures
            r.stages_view() == executor_added(self.stages_view(), swm.system, metadata_view(swm.metadata)),
    {
        let mut executor = self;
        executor.add(swm);
        executor
    }
}

} // verus!
